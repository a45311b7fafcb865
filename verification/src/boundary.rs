//! The characters next to a byte offset, and the test that keeps a match
//! from being part of a longer word.

use crate::text::lemma_str_bytes_valid;
use vstd::prelude::*;
use vstd::string::StringSliceAdditionalSpecFns;
use vstd::utf8::*;

verus! {

/// The offset at which the character that holds byte `i` starts: the nearest
/// offset at or below `i` whose byte is no continuation byte.
pub open spec fn char_start(text: Seq<u8>, i: int) -> int
    decreases i,
{
    if 0 < i < text.len() && is_continuation_byte(text[i]) {
        char_start(text, i - 1)
    } else {
        i
    }
}

/// The character whose encoding starts at offset `p`.
pub open spec fn char_at(text: Seq<u8>, p: int) -> char {
    decode_first_scalar(text.skip(p)) as char
}

/// The character that holds byte `i`.
pub open spec fn char_holding(text: Seq<u8>, i: int) -> char {
    char_at(text, char_start(text, i))
}

/// The character that holds the byte before offset `i`, if there is such a
/// byte.
pub open spec fn char_before(text: Seq<u8>, i: int) -> Option<char> {
    if 0 < i <= text.len() {
        Some(char_holding(text, i - 1))
    } else {
        None
    }
}

/// The character that holds the byte at offset `i`, if there is such a byte.
pub open spec fn char_from(text: Seq<u8>, i: int) -> Option<char> {
    if 0 <= i < text.len() {
        Some(char_holding(text, i))
    } else {
        None
    }
}

/// Whether a character is alphanumeric: a letter or a number of Unicode.
pub uninterp spec fn alphanumeric(c: char) -> bool;

/// `char::is_alphanumeric` of the standard library. What it returns for a
/// character is fixed by the tables of Unicode; `alphanumeric` is the name of
/// that result.
pub assume_specification[ char::is_alphanumeric ](c: char) -> (b: bool)
    ensures
        b == alphanumeric(c),
;

/// Whether there is a character and it is alphanumeric.
pub open spec fn word_char(c: Option<char>) -> bool {
    match c {
        Some(x) => alphanumeric(x),
        None => false,
    }
}

/// Whether the range `from..to` of `text` has no alphanumeric character
/// right before it and none right after it.
pub open spec fn stands_alone(text: Seq<u8>, from: int, to: int) -> bool {
    !word_char(char_before(text, from)) && !word_char(char_from(text, to))
}

/// `char_start` lies at or below `i`, not below 0, and on a byte that is no
/// continuation byte unless it is 0.
pub proof fn lemma_char_start(text: Seq<u8>, i: int)
    requires
        0 <= i < text.len(),
    ensures
        0 <= char_start(text, i) <= i,
        char_start(text, i) > 0 ==> !is_continuation_byte(text[char_start(text, i)]),
        forall|j: int| char_start(text, i) < j <= i ==> is_continuation_byte(#[trigger] text[j]),
    decreases i,
{
    if 0 < i && is_continuation_byte(text[i]) {
        lemma_char_start(text, i - 1);
    }
}

/// In well-formed UTF-8 the character that holds a byte starts on a
/// character boundary.
pub proof fn lemma_char_start_boundary(text: Seq<u8>, i: int)
    requires
        valid_utf8(text),
        0 <= i < text.len(),
    ensures
        is_char_boundary(text, char_start(text, i)),
        !is_continuation_byte(text[char_start(text, i)]),
{
    lemma_char_start(text, i);
    let p = char_start(text, i);
    is_char_boundary_iff_not_is_continuation_byte(text, p);
}

/// Where a byte that is no continuation byte, or byte 0, is followed by
/// continuation bytes up to byte `j`, the character that holds byte `j`
/// starts there.
pub proof fn lemma_char_start_is(text: Seq<u8>, p: int, j: int)
    requires
        0 <= p <= j < text.len(),
        p == 0 || !is_continuation_byte(text[p]),
        forall|q: int| p < q <= j ==> is_continuation_byte(#[trigger] text[q]),
    ensures
        char_start(text, j) == p,
    decreases j - p,
{
    if p < j {
        lemma_char_start_is(text, p, j - 1);
    }
}

/// The encoding of two character sequences one after the other is the
/// encoding of the first followed by that of the second.
pub proof fn lemma_encode_concat(a: Seq<char>, b: Seq<char>)
    ensures
        encode_utf8(a + b) == encode_utf8(a) + encode_utf8(b),
    decreases a.len(),
{
    if a.len() == 0 {
        assert(a + b =~= b);
        assert(encode_utf8(a) + encode_utf8(b) =~= encode_utf8(b));
    } else {
        assert((a + b).drop_first() =~= a.drop_first() + b);
        lemma_encode_concat(a.drop_first(), b);
        assert(encode_utf8(a + b) =~= encode_utf8(a) + encode_utf8(b));
    }
}

/// No character is split: in the encoding of `before`, then `c`, then
/// `after`, each byte of the encoding of `c` is held by `c`.
pub proof fn lemma_char_holding_whole(before: Seq<char>, c: char, after: Seq<char>, j: int)
    requires
        encode_utf8(before).len() <= j < encode_utf8(before).len() + encode_scalar(c as u32).len(),
    ensures
        char_holding(encode_utf8(before + seq![c] + after), j) == c,
        char_start(encode_utf8(before + seq![c] + after), j) == encode_utf8(before).len(),
{
    let text = encode_utf8(before + seq![c] + after);
    let rest = seq![c] + after;
    let tail = encode_utf8(rest);
    let m = encode_utf8(before).len() as int;
    assert(before + seq![c] + after =~= before + rest);
    lemma_encode_concat(before, rest);
    encode_utf8_first_scalar(rest);
    assert(rest[0] == c);
    assert(text.skip(m) =~= tail);
    assert forall|q: int| 0 <= q < tail.len() implies text[m + q] == tail[q] by {}
    assert(!is_continuation_byte(text[m])) by {
        assert(text[m + 0] == tail[0]);
    }
    assert forall|q: int| m < q <= j implies is_continuation_byte(#[trigger] text[q]) by {
        assert(text[m + (q - m)] == tail[q - m]);
    }
    lemma_char_start_is(text, m, j);
    char_u32_cast(c, c as u32);
}

/// The character before the end of an encoded text is its last character.
pub proof fn lemma_char_before_end(chars: Seq<char>)
    requires
        chars.len() > 0,
    ensures
        char_before(encode_utf8(chars), encode_utf8(chars).len() as int) == Some(chars.last()),
{
    let front = chars.drop_last();
    let c = chars.last();
    let none = Seq::<char>::empty();
    assert(chars =~= front + seq![c] + none);
    assert(chars =~= front + seq![c]);
    lemma_encode_concat(front, seq![c]);
    assert(encode_utf8(seq![c]) =~= encode_scalar(c as u32)) by {
        assert(seq![c].drop_first() =~= none);
        assert(encode_utf8(none) =~= Seq::<u8>::empty());
    }
    char_is_scalar(c);
    lemma_char_holding_whole(front, c, none, encode_utf8(chars).len() - 1);
}

/// The character at the start of an encoded text is its first character.
pub proof fn lemma_char_from_start(chars: Seq<char>)
    requires
        chars.len() > 0,
    ensures
        char_from(encode_utf8(chars), 0) == Some(chars[0]),
{
    let none = Seq::<char>::empty();
    let c = chars[0];
    assert(chars =~= none + seq![c] + chars.drop_first());
    assert(encode_utf8(none) =~= Seq::<u8>::empty());
    char_is_scalar(c);
    lemma_encode_concat(seq![c], chars.drop_first());
    assert(none + seq![c] =~= seq![c]);
    lemma_char_holding_whole(none, c, chars.drop_first(), 0);
}

/// The first character of a string that is not empty is the one that its
/// bytes start with.
proof fn lemma_first_char(s: &str)
    requires
        s.spec_bytes().len() > 0,
    ensures
        s@.len() > 0,
        s@[0] == char_at(s.spec_bytes(), 0),
{
    assert(s@.len() > 0) by {
        if s@.len() == 0 {
            assert(encode_utf8(s@) =~= seq![]);
        }
    }
    encode_utf8_first_scalar(s@);
    assert(s.spec_bytes().skip(0) =~= s.spec_bytes());
    char_u32_cast(s@[0], s@[0] as u32);
}

/// The offset at which the character that holds byte `i` starts.
pub(crate) fn start_of_char(bytes: &[u8], i: usize) -> (p: usize)
    requires
        i < bytes@.len(),
    ensures
        p == char_start(bytes@, i as int),
        p <= i,
{
    let mut p: usize = i;
    while p > 0 && (bytes[p] & 0xC0) == 0x80
        invariant
            p <= i < bytes@.len(),
            char_start(bytes@, i as int) == char_start(bytes@, p as int),
        decreases p,
    {
        proof {
            utf8_byte_ranges_bitwise(bytes@[p as int]);
        }
        p = p - 1;
    }
    proof {
        if p > 0 {
            utf8_byte_ranges_bitwise(bytes@[p as int]);
        }
    }
    p
}

/// The character that holds byte `i` of `s`.
fn char_around(s: &str, i: usize) -> (r: Option<char>)
    requires
        i < s.spec_bytes().len(),
    ensures
        r == Some(char_holding(s.spec_bytes(), i as int)),
{
    let ghost text = s.spec_bytes();
    let p = start_of_char(s.as_bytes(), i);
    proof {
        lemma_str_bytes_valid(s);
        lemma_char_start_boundary(text, i as int);
    }
    let (_, rest) = s.split_at(p);
    proof {
        assert(rest.spec_bytes() =~= text.skip(p as int));
        lemma_first_char(rest);
        assert(rest.spec_bytes().skip(0) =~= rest.spec_bytes());
    }
    let mut it = rest.chars();
    it.next()
}

/// The character before byte offset `i` of `s`: the one that holds byte
/// `i - 1`. There is none where `i` is 0 or beyond the end of `s`.
pub fn char_prior_to(i: usize, s: &str) -> (r: Option<char>)
    ensures
        r == char_before(s.spec_bytes(), i as int),
{
    if i == 0 || i > s.as_bytes().len() {
        None
    } else {
        char_around(s, i - 1)
    }
}

/// The character at byte offset `i` of `s`: the one that holds byte `i`.
/// There is none where `i` is at or beyond the end of `s`.
pub fn char_next_to(i: usize, s: &str) -> (r: Option<char>)
    ensures
        r == char_from(s.spec_bytes(), i as int),
{
    if i >= s.as_bytes().len() {
        None
    } else {
        char_around(s, i)
    }
}

/// Whether the range `from..to` of `s` has no alphanumeric character right
/// before it and none right after it.
pub fn on_word_boundary(s: &str, from: usize, to: usize) -> (b: bool)
    ensures
        b == stands_alone(s.spec_bytes(), from as int, to as int),
{
    if let Some(c) = char_prior_to(from, s) {
        if c.is_alphanumeric() {
            return false;
        }
    }
    if let Some(c) = char_next_to(to, s) {
        if c.is_alphanumeric() {
            return false;
        }
    }
    true
}

} // verus!
