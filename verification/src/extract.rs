//! The link extractor: the targets of the `[[wikilinks]]` of a text.
//!
//! A link is written `[[target]]` or `[[target|alias]]`. The text is read
//! once from left to right by a small machine that counts brackets; what it
//! takes for a link is stated by `scan`, byte for byte.

use crate::boundary::{char_start, lemma_char_start, lemma_char_start_boundary, start_of_char};
use crate::term_set::{ascending, lemma_ascending_unique, TermSet};
use crate::text::{boundary, cut, lemma_boundary_is_char_boundary, lemma_str_bytes_valid, span};
use vstd::prelude::*;
use vstd::string::StringSliceAdditionalSpecFns;
use vstd::utf8::*;

verus! {

/// The byte `[`.
pub const OPEN: u8 = 0x5B;

/// The byte `]`.
pub const CLOSE: u8 = 0x5D;

/// The byte `|`.
pub const PIPE: u8 = 0x7C;

/// What the extractor remembers between two bytes.
pub struct Scan {
    /// How many brackets are open: 0, 1 or 2.
    pub depth: nat,
    /// Whether a link has been opened and not closed yet.
    pub linking: bool,
    /// Whether a pipe has been seen since the last link was closed.
    pub piped: bool,
    /// The offset right after the `[[` that opened the link.
    pub start: int,
    /// The offset last recorded as the end of a target: that of a pipe, or
    /// the end of the target of the link that was closed last.
    pub end: int,
}

/// The state before the first byte.
pub open spec fn initial() -> Scan {
    Scan { depth: 0, linking: false, piped: false, start: 0, end: 0 }
}

/// Where the target ends when the byte at `i` closes the link: at the first
/// pipe of the link where one was recorded, else at the start of the
/// character before the closing bracket.
pub open spec fn target_end(st: Scan, text: Seq<u8>, i: int) -> int {
    if st.end < st.start {
        char_start(text, i - 1)
    } else {
        st.end
    }
}

/// The state after the byte at offset `i`, from the state before it.
pub open spec fn advance(st: Scan, text: Seq<u8>, i: int) -> Scan {
    let b = text[i];
    if b == OPEN && st.depth == 0 {
        Scan { depth: 1, ..st }
    } else if b == OPEN && st.depth == 1 {
        Scan { depth: 2, linking: true, start: i + 1, ..st }
    } else if b == CLOSE && st.depth == 2 {
        Scan { depth: 1, ..st }
    } else if b == CLOSE && st.depth == 1 {
        if st.linking {
            Scan { depth: 0, linking: false, piped: false, end: target_end(st, text, i), ..st }
        } else {
            Scan { depth: 0, ..st }
        }
    } else if b == PIPE && st.linking && !st.piped {
        Scan { piped: true, end: i, ..st }
    } else {
        st
    }
}

/// The state after the first `n` bytes of `text`.
pub open spec fn scan(text: Seq<u8>, n: int) -> Scan
    decreases n,
{
    if n <= 0 {
        initial()
    } else {
        advance(scan(text, n - 1), text, n - 1)
    }
}

/// Whether the byte at offset `i` closes a link.
pub open spec fn closes(text: Seq<u8>, i: int) -> bool {
    &&& 0 <= i < text.len()
    &&& text[i] == CLOSE
    &&& scan(text, i).depth == 1
    &&& scan(text, i).linking
}

/// The target of the link that the byte at offset `i` closes.
pub open spec fn closed_target(text: Seq<u8>, i: int) -> Seq<u8> {
    text.subrange(scan(text, i).start, target_end(scan(text, i), text, i))
}

/// The targets, empty ones left out, of the links closed within the first
/// `n` bytes of `text`.
pub open spec fn targets_within(text: Seq<u8>, n: int) -> Set<Seq<u8>> {
    Set::new(
        |t: Seq<u8>|
            t.len() > 0 && exists|i: int|
                0 <= i < n && closes(text, i) && #[trigger] closed_target(text, i) == t,
    )
}

/// The link targets of `text`: the targets of all links that are closed in
/// it, without the empty target.
pub open spec fn link_targets(text: Seq<u8>) -> Set<Seq<u8>> {
    targets_within(text, text.len() as int)
}

/// What holds of the state after the first `n` bytes of a text.
pub open spec fn settled(text: Seq<u8>, st: Scan, n: int) -> bool {
    &&& st.depth <= 2
    &&& 0 <= st.start <= n
    &&& 0 <= st.end <= n
    &&& (st.end < n || n == 0)
    &&& (st.depth == 0 ==> !st.linking)
    &&& (st.depth == 2 ==> st.linking)
    &&& (st.piped ==> st.linking)
    &&& (st.linking ==> 1 <= st.start && text[st.start - 1] == OPEN)
    &&& (st.linking && st.depth == 1 ==> st.start < n)
    &&& (st.linking && st.start <= st.end ==> text[st.end] == PIPE)
}

/// In well-formed UTF-8 a character starts, or the text ends, right after a
/// byte below 0x80.
pub proof fn lemma_boundary_after_ascii(text: Seq<u8>, j: int)
    requires
        valid_utf8(text),
        0 <= j < text.len(),
        text[j] <= 0x7f,
    ensures
        boundary(text, j + 1),
{
    lemma_boundary_is_char_boundary(text, j);
    valid_utf8_split(text, j);
    let tail = text.subrange(j, text.len() as int);
    assert(tail[0] == text[j]);
    assert(valid_utf8(pop_first_scalar(tail)));
    assert(pop_first_scalar(tail) =~= text.subrange(j + 1, text.len() as int));
    let rest = text.subrange(j + 1, text.len() as int);
    if j + 1 < text.len() {
        lemma_boundary_is_char_boundary(rest, 0);
        assert(rest[0] == text[j + 1]);
    }
}

/// `settled` holds of every state that `scan` reaches.
pub proof fn lemma_scan_settled(text: Seq<u8>, n: int)
    requires
        0 <= n <= text.len(),
    ensures
        settled(text, scan(text, n), n),
    decreases n,
{
    if n > 0 {
        lemma_scan_settled(text, n - 1);
        let st = scan(text, n - 1);
        if text[n - 1] == CLOSE && st.depth == 1 && st.linking && st.end < st.start {
            lemma_char_start(text, n - 2);
        }
    }
}

/// The target of a link is cut out of the text on character boundaries, and
/// ends before the bracket that closes the link: no character is split.
pub proof fn lemma_closed_target_span(text: Seq<u8>, i: int)
    requires
        valid_utf8(text),
        closes(text, i),
    ensures
        span(text, scan(text, i).start, target_end(scan(text, i), text, i)),
        target_end(scan(text, i), text, i) < i,
{
    let st = scan(text, i);
    lemma_scan_settled(text, i);
    lemma_boundary_after_ascii(text, st.start - 1);
    if st.end < st.start {
        lemma_char_start(text, i - 1);
        lemma_char_start_boundary(text, i - 1);
        lemma_boundary_is_char_boundary(text, char_start(text, i - 1));
        if char_start(text, i - 1) < st.start {
            assert(is_continuation_byte(text[st.start]));
        }
    }
}

/// A text without a closing bracket has no link target. Such is a text made
/// of characters outside ASCII only.
pub proof fn lemma_no_bracket_no_target(text: Seq<u8>)
    requires
        forall|i: int| 0 <= i < text.len() ==> text[i] != CLOSE,
    ensures
        link_targets(text) == Set::<Seq<u8>>::empty(),
{
    assert(link_targets(text) =~= Set::<Seq<u8>>::empty());
}

/// The start of a character depends on the bytes up to it only.
proof fn lemma_char_start_prefix(a: Seq<u8>, b: Seq<u8>, j: int)
    requires
        0 <= j < a.len(),
    ensures
        char_start(a + b, j) == char_start(a, j),
    decreases j,
{
    assert((a + b)[j] == a[j]);
    if 0 < j && is_continuation_byte(a[j]) {
        lemma_char_start_prefix(a, b, j - 1);
    }
}

/// The state after `n` bytes depends on those bytes only.
pub proof fn lemma_scan_prefix(a: Seq<u8>, b: Seq<u8>, n: int)
    requires
        0 <= n <= a.len(),
    ensures
        scan(a + b, n) == scan(a, n),
    decreases n,
{
    if n > 0 {
        lemma_scan_prefix(a, b, n - 1);
        assert((a + b)[n - 1] == a[n - 1]);
        if n >= 2 {
            lemma_char_start_prefix(a, b, n - 2);
        }
    }
}

/// Bytes that are no brackets leave an open link open; where none of them
/// is a pipe either, they leave the whole state as it is.
proof fn lemma_scan_inside(text: Seq<u8>, from: int, n: int)
    requires
        0 <= from,
        0 <= n,
        from + n <= text.len(),
        scan(text, from).depth == 2,
        scan(text, from).linking,
        forall|i: int| from <= i < from + n ==> text[i] != OPEN && text[i] != CLOSE,
    ensures
        scan(text, from + n).depth == 2,
        scan(text, from + n).linking,
        scan(text, from + n).start == scan(text, from).start,
        scan(text, from).piped ==> scan(text, from + n) == scan(text, from),
        (forall|i: int| from <= i < from + n ==> text[i] != PIPE) ==> scan(text, from + n) == scan(
            text,
            from,
        ),
    decreases n,
{
    if n > 0 {
        lemma_scan_inside(text, from, n - 1);
        assert(scan(text, from + n) == advance(scan(text, from + n - 1), text, from + n - 1));
    }
}

/// A link written `[[target]]` is found. Where the brackets before it are
/// all closed and the target holds no bracket and no pipe, the target is a
/// link target of the text, whatever follows.
pub proof fn lemma_plain_link(before: Seq<u8>, target: Seq<u8>, after: Seq<u8>)
    requires
        scan(before, before.len() as int).depth == 0,
        target.len() > 0,
        forall|i: int|
            0 <= i < target.len() ==> target[i] != OPEN && target[i] != CLOSE && target[i] != PIPE,
    ensures
        link_targets(before + seq![OPEN, OPEN] + target + seq![CLOSE, CLOSE] + after).contains(
            target,
        ),
{
    let head = before + seq![OPEN, OPEN] + target + seq![CLOSE, CLOSE];
    let text = head + after;
    let m = before.len() as int;
    let len = target.len() as int;
    let i = m + 2 + len + 1;
    assert(head =~= before + (seq![OPEN, OPEN] + target + seq![CLOSE, CLOSE]));
    lemma_scan_prefix(before, seq![OPEN, OPEN] + target + seq![CLOSE, CLOSE], m);
    lemma_scan_settled(before, m);
    assert(head[m] == OPEN && head[m + 1] == OPEN);
    assert(head[m + 2 + len] == CLOSE && head[i] == CLOSE);
    assert forall|k: int| m + 2 <= k < m + 2 + len implies head[k] != OPEN && head[k] != CLOSE
        && head[k] != PIPE by {
        assert(head[k] == target[k - m - 2]);
    }
    assert(scan(head, m + 1) == advance(scan(head, m), head, m));
    assert(scan(head, m + 2) == advance(scan(head, m + 1), head, m + 1));
    lemma_scan_inside(head, m + 2, len);
    assert(scan(head, i) == advance(scan(head, i - 1), head, i - 1));
    assert(closes(head, i));
    assert(char_start(head, i - 1) == i - 1);
    assert(closed_target(head, i) =~= target);
    // what follows the link changes nothing of it
    lemma_scan_prefix(head, after, i);
    lemma_char_start_prefix(head, after, i - 1);
    assert(text[i] == head[i]);
    assert(closes(text, i));
    assert(closed_target(text, i) =~= closed_target(head, i));
}

/// A link written `[[target|alias]]` is found, and the alias is left out.
/// Where the brackets before it are all closed, the target holds no bracket
/// and no pipe and the alias no bracket, the target is a link target of the
/// text, whatever follows.
pub proof fn lemma_piped_link(before: Seq<u8>, target: Seq<u8>, alias: Seq<u8>, after: Seq<u8>)
    requires
        scan(before, before.len() as int).depth == 0,
        target.len() > 0,
        forall|i: int|
            0 <= i < target.len() ==> target[i] != OPEN && target[i] != CLOSE && target[i] != PIPE,
        forall|i: int| 0 <= i < alias.len() ==> alias[i] != OPEN && alias[i] != CLOSE,
    ensures
        link_targets(
            before + seq![OPEN, OPEN] + target + seq![PIPE] + alias + seq![CLOSE, CLOSE] + after,
        ).contains(target),
{
    let head = before + seq![OPEN, OPEN] + target + seq![PIPE] + alias + seq![CLOSE, CLOSE];
    let text = head + after;
    let m = before.len() as int;
    let len = target.len() as int;
    let p = m + 2 + len;
    let i = p + 1 + alias.len() + 1;
    assert(head =~= before + (seq![OPEN, OPEN] + target + seq![PIPE] + alias + seq![CLOSE, CLOSE]));
    lemma_scan_prefix(
        before,
        seq![OPEN, OPEN] + target + seq![PIPE] + alias + seq![CLOSE, CLOSE],
        m,
    );
    lemma_scan_settled(before, m);
    assert(head[m] == OPEN && head[m + 1] == OPEN);
    assert(head[p] == PIPE);
    assert(head[i - 1] == CLOSE && head[i] == CLOSE);
    assert forall|k: int| m + 2 <= k < p implies head[k] != OPEN && head[k] != CLOSE && head[k]
        != PIPE by {
        assert(head[k] == target[k - m - 2]);
    }
    assert forall|k: int| p + 1 <= k < i - 1 implies head[k] != OPEN && head[k] != CLOSE by {
        assert(head[k] == alias[k - p - 1]);
    }
    assert(scan(head, m + 1) == advance(scan(head, m), head, m));
    assert(scan(head, m + 2) == advance(scan(head, m + 1), head, m + 1));
    lemma_scan_inside(head, m + 2, len);
    assert(scan(head, p + 1) == advance(scan(head, p), head, p));
    lemma_scan_inside(head, p + 1, alias.len() as int);
    assert(scan(head, i) == advance(scan(head, i - 1), head, i - 1));
    assert(closes(head, i));
    assert(closed_target(head, i) =~= target);
    lemma_scan_prefix(head, after, i);
    assert(text[i] == head[i]);
    assert(closes(text, i));
    assert(closed_target(text, i) =~= closed_target(head, i));
}

/// Extraction is repeatable: two listings in ascending order of the link
/// targets of one text are the same listing.
pub proof fn lemma_extraction_repeatable(text: Seq<u8>, first: Seq<Seq<u8>>, second: Seq<Seq<u8>>)
    requires
        ascending(first),
        first.to_set() == link_targets(text),
        ascending(second),
        second.to_set() == link_targets(text),
    ensures
        first == second,
{
    lemma_ascending_unique(first, second);
}

/// The link targets of `s`: for each link `[[target]]` or `[[target|alias]]`
/// that `s` closes, its target, unless that is empty.
pub fn wikilinks<'a>(s: &'a str) -> (links: TermSet<'a>)
    ensures
        links@ == link_targets(s.spec_bytes()),
{
    let ghost text = s.spec_bytes();
    let bytes = s.as_bytes();
    let n: usize = bytes.len();
    let mut links: TermSet<'a> = TermSet::new();
    let mut depth: u8 = 0;
    let mut linking: bool = false;
    let mut piped: bool = false;
    let mut start: usize = 0;
    let mut end: usize = 0;
    let mut i: usize = 0;
    proof {
        assert(targets_within(text, 0) =~= Set::<Seq<u8>>::empty());
    }
    while i < n
        invariant
            text == s.spec_bytes(),
            bytes@ == text,
            n == text.len(),
            i <= n,
            scan(text, i as int) == (Scan {
                depth: depth as nat,
                linking,
                piped,
                start: start as int,
                end: end as int,
            }),
            links@ == targets_within(text, i as int),
        decreases n - i,
    {
        let b: u8 = bytes[i];
        let ghost st = scan(text, i as int);
        let ghost found = links@;
        proof {
            lemma_str_bytes_valid(s);
            lemma_scan_settled(text, i as int);
        }
        if b == OPEN && depth == 0 {
            depth = 1;
        } else if b == OPEN && depth == 1 {
            depth = 2;
            linking = true;
            start = i + 1;
        } else if b == CLOSE && depth == 2 {
            depth = 1;
        } else if b == CLOSE && depth == 1 {
            depth = 0;
            if linking {
                linking = false;
                piped = false;
                if end < start {
                    end = start_of_char(bytes, i - 1);
                }
                proof {
                    lemma_closed_target_span(text, i as int);
                }
                if start < end {
                    links.insert(cut(s, start, end));
                }
            }
        } else if b == PIPE && linking && !piped {
            piped = true;
            end = i;
        }
        proof {
            let next = targets_within(text, i + 1);
            assert forall|t: Seq<u8>| links@.contains(t) == next.contains(t) by {
                if next.contains(t) {
                    let k = choose|k: int|
                        0 <= k < i + 1 && closes(text, k) && #[trigger] closed_target(text, k) == t;
                    if k < i {
                        assert(found.contains(t));
                    }
                }
                if found.contains(t) {
                    let k = choose|k: int|
                        0 <= k < i && closes(text, k) && #[trigger] closed_target(text, k) == t;
                    assert(0 <= k < i + 1 && closes(text, k) && closed_target(text, k) == t);
                }
                if closes(text, i as int) && closed_target(text, i as int) == t && t.len() > 0 {
                    assert(next.contains(t));
                }
            }
            assert(links@ =~= next);
        }
        i = i + 1;
    }
    links
}

} // verus!
