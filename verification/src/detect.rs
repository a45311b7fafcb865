//! The detector of unlinked mentions: what a text names in plain words and
//! does not link.

use crate::boundary::{
    alphanumeric, char_before, char_from, lemma_char_holding_whole, lemma_encode_concat,
    on_word_boundary, stands_alone,
};
use crate::matcher::{leftmost_longest, patterns_of, Matcher};
use crate::term_set::TermSet;
use crate::text::{slice, span};
use vstd::prelude::*;
use vstd::string::StringSliceAdditionalSpecFns;
use vstd::utf8::*;

verus! {

/// Whether a hit of the matcher counts as a mention: it is a range of the
/// text on character boundaries, with no alphanumeric character right
/// before it and none right after it.
pub open spec fn is_mention(text: Seq<u8>, hit: (usize, usize)) -> bool {
    span(text, hit.0 as int, hit.1 as int) && stands_alone(text, hit.0 as int, hit.1 as int)
}

/// The bytes of the text that a hit covers.
pub open spec fn hit_text(text: Seq<u8>, hit: (usize, usize)) -> Seq<u8> {
    text.subrange(hit.0 as int, hit.1 as int)
}

/// What the first `n` hits mention.
pub open spec fn mentions_within(text: Seq<u8>, hits: Seq<(usize, usize)>, n: int) -> Set<
    Seq<u8>,
> {
    Set::new(
        |t: Seq<u8>|
            exists|k: int|
                0 <= k < n && is_mention(text, hits[k]) && #[trigger] hit_text(text, hits[k]) == t,
    )
}

/// What the hits mention: the text under each hit that counts as a mention.
pub open spec fn mentions(text: Seq<u8>, hits: Seq<(usize, usize)>) -> Set<Seq<u8>> {
    mentions_within(text, hits, hits.len() as int)
}

/// The unlinked mentions of a text: what the hits mention, without the
/// targets that the text declares itself.
pub open spec fn unlinked(text: Seq<u8>, hits: Seq<(usize, usize)>, declared: Set<Seq<u8>>) -> Set<
    Seq<u8>,
> {
    mentions(text, hits).difference(declared)
}

/// Every unlinked mention is the text under some hit of the matcher that
/// stands alone, and is none of the declared targets.
pub proof fn lemma_unlinked_within_hits(
    text: Seq<u8>,
    hits: Seq<(usize, usize)>,
    declared: Set<Seq<u8>>,
    t: Seq<u8>,
)
    requires
        unlinked(text, hits, declared).contains(t),
    ensures
        !declared.contains(t),
        exists|k: int|
            0 <= k < hits.len() && stands_alone(text, hits[k].0 as int, hits[k].1 as int)
                && #[trigger] hit_text(text, hits[k]) == t,
{
    let k = choose|k: int|
        0 <= k < hits.len() && is_mention(text, hits[k]) && #[trigger] hit_text(text, hits[k]) == t;
    assert(stands_alone(text, hits[k].0 as int, hits[k].1 as int) && hit_text(text, hits[k]) == t);
}

/// The unlinked mentions are among what the hits mention and share nothing
/// with the declared targets.
pub proof fn lemma_unlinked_bounds(text: Seq<u8>, hits: Seq<(usize, usize)>, declared: Set<Seq<u8>>)
    ensures
        unlinked(text, hits, declared).subset_of(mentions(text, hits)),
        unlinked(text, hits, declared).disjoint(declared),
{
}

/// A term between two stretches of text: the term `term` in the text made
/// of `before`, `term` and `after` counts as a mention if and only if
/// `before` does not end with an alphanumeric character and `after` does not
/// start with one.
pub proof fn lemma_mention_between(before: Seq<char>, term: Seq<char>, after: Seq<char>)
    requires
        encode_utf8(before + term + after).len() <= usize::MAX,
    ensures
        ({
            let text = encode_utf8(before + term + after);
            let from = encode_utf8(before).len();
            let to = encode_utf8(before).len() + encode_utf8(term).len();
            let hit = (from as usize, to as usize);
            &&& to <= text.len()
            &&& hit_text(text, hit) == encode_utf8(term)
            &&& is_mention(text, hit) == (!(before.len() > 0 && alphanumeric(before.last())) && !(
            after.len() > 0 && alphanumeric(after[0])))
        }),
{
    let text = encode_utf8(before + term + after);
    let x = encode_utf8(before);
    let t = encode_utf8(term);
    let y = encode_utf8(after);
    let from = x.len() as int;
    let to = (x.len() + t.len()) as int;
    lemma_encode_concat(before + term, after);
    lemma_encode_concat(before, term);
    assert(text =~= x + t + y);
    assert(text.subrange(from, to) =~= t);
    // the term starts on a character boundary
    assert(before + term + after =~= before + (term + after));
    lemma_encode_concat(before, term + after);
    if from < text.len() {
        assert((term + after).len() > 0) by {
            if (term + after).len() == 0 {
                assert(encode_utf8(term + after) =~= Seq::<u8>::empty());
            }
        }
        encode_utf8_first_scalar(term + after);
        assert(text[from] == encode_utf8(term + after)[0]);
    }
    // and ends on one
    if to < text.len() {
        assert(after.len() > 0) by {
            if after.len() == 0 {
                assert(y =~= Seq::<u8>::empty());
            }
        }
        encode_utf8_first_scalar(after);
        assert(text[to] == y[0]);
    }
    assert(span(text, from, to));
    // the character before the term is the last of `before`
    if before.len() > 0 {
        let c = before.last();
        let front = before.drop_last();
        assert(before =~= front + seq![c]);
        assert(before + term + after =~= front + seq![c] + (term + after));
        lemma_encode_concat(front, seq![c]);
        assert(encode_utf8(seq![c]) =~= encode_scalar(c as u32)) by {
            assert(seq![c].drop_first() =~= Seq::<char>::empty());
            assert(encode_utf8(Seq::<char>::empty()) =~= Seq::<u8>::empty());
        }
        char_is_scalar(c);
        lemma_char_holding_whole(front, c, term + after, from - 1);
        assert(char_before(text, from) == Some(c));
    } else {
        assert(x =~= Seq::<u8>::empty());
        assert(char_before(text, from) == None::<char>);
    }
    // the character after the term is the first of `after`
    if after.len() > 0 {
        let d = after[0];
        let back = after.drop_first();
        assert(after =~= seq![d] + back);
        assert(before + term + after =~= (before + term) + seq![d] + back);
        char_is_scalar(d);
        lemma_char_holding_whole(before + term, d, back, to);
        assert(char_from(text, to) == Some(d));
    } else {
        assert(y =~= Seq::<u8>::empty());
        assert(char_from(text, to) == None::<char>);
    }
}

/// The word-boundary property. In the text made of `before`, `term` and
/// `after`, let the hit be the place of `term`. Where `before` does not end
/// and `after` does not start with an alphanumeric character, the matcher
/// reports the hit and the text does not declare `term`, `term` is an
/// unlinked mention. Where one of the two characters is alphanumeric and no
/// other hit covers the same bytes as `term`, it is none.
pub proof fn lemma_word_boundary(
    before: Seq<char>,
    term: Seq<char>,
    after: Seq<char>,
    hits: Seq<(usize, usize)>,
    declared: Set<Seq<u8>>,
)
    requires
        encode_utf8(before + term + after).len() <= usize::MAX,
    ensures
        ({
            let text = encode_utf8(before + term + after);
            let hit = (
                encode_utf8(before).len() as usize,
                (encode_utf8(before).len() + encode_utf8(term).len()) as usize,
            );
            let inside = (before.len() > 0 && alphanumeric(before.last())) || (after.len() > 0
                && alphanumeric(after[0]));
            &&& !inside && hits.contains(hit) && !declared.contains(encode_utf8(term))
                ==> unlinked(text, hits, declared).contains(encode_utf8(term))
            &&& inside && (forall|k: int|
                0 <= k < hits.len() && #[trigger] hit_text(text, hits[k]) == encode_utf8(term)
                    ==> hits[k] == hit) ==> !unlinked(text, hits, declared).contains(
                encode_utf8(term),
            )
        }),
{
    let text = encode_utf8(before + term + after);
    let t = encode_utf8(term);
    let hit = (
        encode_utf8(before).len() as usize,
        (encode_utf8(before).len() + encode_utf8(term).len()) as usize,
    );
    let inside = (before.len() > 0 && alphanumeric(before.last())) || (after.len() > 0
        && alphanumeric(after[0]));
    lemma_mention_between(before, term, after);
    if !inside && hits.contains(hit) && !declared.contains(t) {
        let k = choose|k: int| 0 <= k < hits.len() && hits[k] == hit;
        assert(is_mention(text, hits[k]) && hit_text(text, hits[k]) == t);
        assert(mentions(text, hits).contains(t));
    }
    if inside && (forall|k: int|
        0 <= k < hits.len() && #[trigger] hit_text(text, hits[k]) == t ==> hits[k] == hit) {
        if unlinked(text, hits, declared).contains(t) {
            let k = choose|k: int|
                0 <= k < hits.len() && is_mention(text, hits[k]) && #[trigger] hit_text(
                    text,
                    hits[k],
                ) == t;
            assert(hits[k] == hit);
        }
    }
}

/// The unlinked mentions of `text`, given the hits of the matcher in it and
/// the link targets that `text` declares. A hit that is no range of `text`
/// on character boundaries mentions nothing.
pub fn unlinked_mentions<'a>(text: &'a str, hits: &Vec<(usize, usize)>, declared: &TermSet) -> (r:
    TermSet<'a>)
    ensures
        r@ == unlinked(text.spec_bytes(), hits@, declared@),
{
    let ghost bytes = text.spec_bytes();
    let mut found: TermSet<'a> = TermSet::new();
    let mut k: usize = 0;
    proof {
        assert(mentions_within(bytes, hits@, 0) =~= Set::<Seq<u8>>::empty());
    }
    while k < hits.len()
        invariant
            bytes == text.spec_bytes(),
            k <= hits@.len(),
            found@ == mentions_within(bytes, hits@, k as int),
        decreases hits@.len() - k,
    {
        let (from, to) = hits[k];
        let ghost before = found@;
        if let Some(term) = slice(text, from, to) {
            if on_word_boundary(text, from, to) {
                found.insert(term);
            }
        }
        proof {
            let next = mentions_within(bytes, hits@, k + 1);
            assert forall|t: Seq<u8>| found@.contains(t) == next.contains(t) by {
                if next.contains(t) {
                    let j = choose|j: int|
                        0 <= j < k + 1 && is_mention(bytes, hits@[j]) && #[trigger] hit_text(
                            bytes,
                            hits@[j],
                        ) == t;
                    if j < k {
                        assert(before.contains(t));
                    }
                }
                if before.contains(t) {
                    let j = choose|j: int|
                        0 <= j < k && is_mention(bytes, hits@[j]) && #[trigger] hit_text(
                            bytes,
                            hits@[j],
                        ) == t;
                    assert(0 <= j < k + 1 && is_mention(bytes, hits@[j]) && hit_text(
                        bytes,
                        hits@[j],
                    ) == t);
                }
                if is_mention(bytes, hits@[k as int]) && hit_text(bytes, hits@[k as int]) == t {
                    assert(next.contains(t));
                }
            }
            assert(found@ =~= next);
        }
        k = k + 1;
    }
    found.difference(declared)
}

/// The unlinked mentions of `text`: it runs the matcher over `text` and
/// hands the hits to `unlinked_mentions`.
pub fn find_unlinked<'a>(matcher: &Matcher, text: &'a str, declared: &TermSet) -> (r: TermSet<'a>)
    ensures
        r@ == unlinked(
            text.spec_bytes(),
            leftmost_longest(patterns_of(*matcher), text.spec_bytes()),
            declared@,
        ),
{
    let hits = matcher.find_all(text);
    unlinked_mentions(text, &hits, declared)
}

} // verus!
