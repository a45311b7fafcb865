//! Byte-level view of UTF-8 text: character boundaries, slicing and the
//! lexicographic order of byte strings.

use vstd::prelude::*;
use vstd::string::StringSliceAdditionalSpecFns;
use vstd::utf8::*;

verus! {

/// Whether `i` is an offset of `text` at which a character starts, or the end
/// of `text`.
pub open spec fn boundary(text: Seq<u8>, i: int) -> bool {
    0 <= i <= text.len() && (i == text.len() || !is_continuation_byte(text[i]))
}

/// On well-formed UTF-8, `boundary` is the character boundary of the
/// encoding.
pub proof fn lemma_boundary_is_char_boundary(text: Seq<u8>, i: int)
    requires
        valid_utf8(text),
    ensures
        boundary(text, i) == is_char_boundary(text, i),
{
    if i == 0 {
        if text.len() > 0 {
            is_char_boundary_iff_not_is_continuation_byte(text, 0);
        }
    } else if i == text.len() {
        is_char_boundary_start_end_of_seq(text);
    } else if 0 < i < text.len() {
        is_char_boundary_iff_not_is_continuation_byte(text, i);
    }
}

/// Whether `from..to` is a range of `text` that starts and ends on character
/// boundaries.
pub open spec fn span(text: Seq<u8>, from: int, to: int) -> bool {
    from <= to && boundary(text, from) && boundary(text, to)
}

/// The bytes of a string are well-formed UTF-8.
pub proof fn lemma_str_bytes_valid(s: &str)
    ensures
        valid_utf8(s.spec_bytes()),
{
    encode_utf8_valid_utf8(s@);
}

/// The part of `s` from byte `from` up to byte `to`.
pub(crate) fn cut<'a>(s: &'a str, from: usize, to: usize) -> (r: &'a str)
    requires
        span(s.spec_bytes(), from as int, to as int),
    ensures
        r.spec_bytes() == s.spec_bytes().subrange(from as int, to as int),
{
    let ghost text = s.spec_bytes();
    proof {
        lemma_str_bytes_valid(s);
        lemma_boundary_is_char_boundary(text, to as int);
    }
    let (head, _) = s.split_at(to);
    proof {
        lemma_str_bytes_valid(head);
        lemma_boundary_is_char_boundary(head.spec_bytes(), from as int);
    }
    let (_, r) = head.split_at(from);
    assert(r.spec_bytes() =~= text.subrange(from as int, to as int));
    r
}

/// The part of `s` from byte `from` up to byte `to`, where that is a range of
/// `s` on character boundaries.
pub fn slice<'a>(s: &'a str, from: usize, to: usize) -> (r: Option<&'a str>)
    ensures
        match r {
            Some(part) => span(s.spec_bytes(), from as int, to as int) && part.spec_bytes()
                == s.spec_bytes().subrange(from as int, to as int),
            None => !span(s.spec_bytes(), from as int, to as int),
        },
{
    proof {
        lemma_str_bytes_valid(s);
        lemma_boundary_is_char_boundary(s.spec_bytes(), from as int);
        lemma_boundary_is_char_boundary(s.spec_bytes(), to as int);
    }
    if from <= to && s.is_char_boundary(from) && s.is_char_boundary(to) {
        Some(cut(s, from, to))
    } else {
        None
    }
}

/// The strict lexicographic order of byte strings, which is the order of
/// `str`.
pub open spec fn precedes(a: Seq<u8>, b: Seq<u8>) -> bool
    decreases a.len(),
{
    if b.len() == 0 {
        false
    } else if a.len() == 0 {
        true
    } else if a[0] != b[0] {
        a[0] < b[0]
    } else {
        precedes(a.drop_first(), b.drop_first())
    }
}

/// How one byte string stands to another in lexicographic order.
#[derive(Clone, Copy, Debug, PartialEq, Eq, Structural)]
pub enum Rank {
    Before,
    Same,
    After,
}

pub open spec fn rank_of(a: Seq<u8>, b: Seq<u8>) -> Rank {
    if a == b {
        Rank::Same
    } else if precedes(a, b) {
        Rank::Before
    } else {
        Rank::After
    }
}

pub proof fn lemma_precedes_irreflexive(a: Seq<u8>)
    ensures
        !precedes(a, a),
    decreases a.len(),
{
    if a.len() > 0 {
        lemma_precedes_irreflexive(a.drop_first());
    }
}

pub proof fn lemma_precedes_transitive(a: Seq<u8>, b: Seq<u8>, c: Seq<u8>)
    requires
        precedes(a, b),
        precedes(b, c),
    ensures
        precedes(a, c),
    decreases a.len(),
{
    if a.len() > 0 && a[0] == b[0] && b[0] == c[0] {
        lemma_precedes_transitive(a.drop_first(), b.drop_first(), c.drop_first());
    }
}

/// Of two different byte strings one precedes the other.
pub proof fn lemma_precedes_total(a: Seq<u8>, b: Seq<u8>)
    ensures
        a == b || precedes(a, b) || precedes(b, a),
    decreases a.len(),
{
    if a.len() == 0 || b.len() == 0 {
        if a.len() == 0 && b.len() == 0 {
            assert(a =~= b);
        }
    } else if a[0] == b[0] {
        lemma_precedes_total(a.drop_first(), b.drop_first());
        if a.drop_first() == b.drop_first() {
            assert(a =~= seq![a[0]] + a.drop_first());
            assert(b =~= seq![b[0]] + b.drop_first());
        }
    }
}

pub proof fn lemma_precedes_asymmetric(a: Seq<u8>, b: Seq<u8>)
    requires
        precedes(a, b),
    ensures
        !precedes(b, a),
        a != b,
{
    lemma_precedes_irreflexive(a);
    if precedes(b, a) {
        lemma_precedes_transitive(a, b, a);
    }
}

/// Skipping a common prefix does not change the order.
proof fn lemma_precedes_skip(a: Seq<u8>, b: Seq<u8>, n: int)
    requires
        0 <= n <= a.len(),
        n <= b.len(),
        a.take(n) == b.take(n),
    ensures
        precedes(a, b) == precedes(a.skip(n), b.skip(n)),
    decreases n,
{
    if n == 0 {
        assert(a.skip(0) =~= a);
        assert(b.skip(0) =~= b);
    } else {
        assert(a.take(n - 1) =~= a.take(n).take(n - 1));
        assert(b.take(n - 1) =~= b.take(n).take(n - 1));
        lemma_precedes_skip(a, b, n - 1);
        assert(a[n - 1] == a.take(n)[n - 1]);
        assert(b[n - 1] == b.take(n)[n - 1]);
        assert(a.skip(n - 1).drop_first() =~= a.skip(n));
        assert(b.skip(n - 1).drop_first() =~= b.skip(n));
    }
}

/// Compares two strings byte by byte.
pub fn rank(a: &str, b: &str) -> (r: Rank)
    ensures
        r == rank_of(a.spec_bytes(), b.spec_bytes()),
{
    let x = a.as_bytes();
    let y = b.as_bytes();
    let mut i: usize = 0;
    while i < x.len() && i < y.len()
        invariant
            x@ == a.spec_bytes(),
            y@ == b.spec_bytes(),
            i <= x@.len(),
            i <= y@.len(),
            x@.take(i as int) == y@.take(i as int),
        decreases x@.len() - i,
    {
        if x[i] != y[i] {
            proof {
                lemma_precedes_skip(x@, y@, i as int);
                assert(x@.skip(i as int)[0] == x@[i as int]);
                assert(y@.skip(i as int)[0] == y@[i as int]);
                if x@ == y@ {
                    assert(x@[i as int] == y@[i as int]);
                }
            }
            if x[i] < y[i] {
                return Rank::Before;
            } else {
                return Rank::After;
            }
        }
        proof {
            assert(x@.take(i + 1) =~= x@.take(i as int).push(x@[i as int]));
            assert(y@.take(i + 1) =~= y@.take(i as int).push(y@[i as int]));
        }
        i = i + 1;
    }
    proof {
        lemma_precedes_skip(x@, y@, i as int);
        if x@.len() == y@.len() {
            assert(x@ =~= x@.take(i as int));
            assert(y@ =~= y@.take(i as int));
        }
    }
    if x.len() == y.len() {
        Rank::Same
    } else if x.len() < y.len() {
        Rank::Before
    } else {
        Rank::After
    }
}

} // verus!
