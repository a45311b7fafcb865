//! An ordered set of terms, each a string borrowed from a text.

use crate::text::{lemma_precedes_asymmetric, lemma_precedes_total, lemma_precedes_transitive, precedes, rank, Rank};
use vstd::prelude::*;
use vstd::string::StringSliceAdditionalSpecFns;

verus! {

/// The byte strings of a sequence of strings.
pub open spec fn byte_strings(v: Seq<&str>) -> Seq<Seq<u8>> {
    Seq::new(v.len(), |i: int| v[i].spec_bytes())
}

/// Whether each byte string of `v` precedes all the later ones.
pub open spec fn ascending(v: Seq<Seq<u8>>) -> bool {
    forall|i: int, j: int| 0 <= i < j < v.len() ==> precedes(#[trigger] v[i], #[trigger] v[j])
}

/// Two ascending sequences that hold the same byte strings are the same
/// sequence: an ordered set has one listing.
pub proof fn lemma_ascending_unique(v: Seq<Seq<u8>>, w: Seq<Seq<u8>>)
    requires
        ascending(v),
        ascending(w),
        v.to_set() == w.to_set(),
    ensures
        v == w,
    decreases v.len(),
{
    if v.len() == 0 {
        if w.len() > 0 {
            assert(w.to_set().contains(w[0]));
            assert(v.to_set().contains(w[0]));
        }
        assert(v =~= w);
    } else {
        assert(v.to_set().contains(v[0]));
        assert(w.to_set().contains(v[0]));
        let k = choose|k: int| 0 <= k < w.len() && w[k] == v[0];
        assert(w.to_set().contains(w[0]));
        assert(v.to_set().contains(w[0]));
        let m = choose|m: int| 0 <= m < v.len() && v[m] == w[0];
        if k > 0 {
            assert(precedes(w[0], w[k]));
            if m > 0 {
                assert(precedes(v[0], v[m]));
                lemma_precedes_asymmetric(w[0], w[k]);
            } else {
                lemma_precedes_asymmetric(w[0], w[k]);
            }
        }
        assert(w[0] == v[0]);
        let vt = v.drop_first();
        let wt = w.drop_first();
        assert forall|i: int, j: int| 0 <= i < j < vt.len() implies precedes(
            #[trigger] vt[i],
            #[trigger] vt[j],
        ) by {
            assert(precedes(v[i + 1], v[j + 1]));
        }
        assert forall|i: int, j: int| 0 <= i < j < wt.len() implies precedes(
            #[trigger] wt[i],
            #[trigger] wt[j],
        ) by {
            assert(precedes(w[i + 1], w[j + 1]));
        }
        assert forall|x: Seq<u8>| vt.to_set().contains(x) == wt.to_set().contains(x) by {
            if vt.to_set().contains(x) {
                let i = choose|i: int| 0 <= i < vt.len() && vt[i] == x;
                assert(v[i + 1] == x);
                assert(precedes(v[0], v[i + 1]));
                lemma_precedes_asymmetric(v[0], x);
                assert(v.to_set().contains(x));
                assert(w.to_set().contains(x));
                let j = choose|j: int| 0 <= j < w.len() && w[j] == x;
                assert(j > 0);
                assert(wt[j - 1] == x);
            }
            if wt.to_set().contains(x) {
                let i = choose|i: int| 0 <= i < wt.len() && wt[i] == x;
                assert(w[i + 1] == x);
                assert(precedes(w[0], w[i + 1]));
                lemma_precedes_asymmetric(w[0], x);
                assert(w.to_set().contains(x));
                assert(v.to_set().contains(x));
                let j = choose|j: int| 0 <= j < v.len() && v[j] == x;
                assert(j > 0);
                assert(vt[j - 1] == x);
            }
        }
        assert(vt.to_set() =~= wt.to_set());
        lemma_ascending_unique(vt, wt);
        assert(v =~= seq![v[0]] + vt);
        assert(w =~= seq![w[0]] + wt);
    }
}

/// Where `term` stands in an ascending `items`: the number of items that
/// precede it, and whether it is the item at that place.
fn locate(items: &Vec<&str>, term: &str) -> (r: (usize, bool))
    requires
        ascending(byte_strings(items@)),
    ensures
        r.0 <= items@.len(),
        forall|j: int| 0 <= j < r.0 ==> precedes(#[trigger] byte_strings(items@)[j], term.spec_bytes()),
        forall|j: int|
            r.0 + (if r.1 { 1int } else { 0int }) <= j < items@.len() ==> precedes(
                term.spec_bytes(),
                #[trigger] byte_strings(items@)[j],
            ),
        r.1 ==> r.0 < items@.len() && byte_strings(items@)[r.0 as int] == term.spec_bytes(),
{
    let ghost list = byte_strings(items@);
    let ghost t = term.spec_bytes();
    let mut lo: usize = 0;
    let mut hi: usize = items.len();
    while lo < hi
        invariant
            list == byte_strings(items@),
            t == term.spec_bytes(),
            ascending(list),
            lo <= hi <= items@.len(),
            forall|j: int| 0 <= j < lo ==> precedes(#[trigger] list[j], t),
            forall|j: int| hi <= j < items@.len() ==> precedes(t, #[trigger] list[j]),
        decreases hi - lo,
    {
        let mid: usize = lo + (hi - lo) / 2;
        let here = rank(items[mid], term);
        assert(list[mid as int] == items@[mid as int].spec_bytes());
        match here {
            Rank::Same => {
                proof {
                    assert forall|j: int| 0 <= j < mid implies precedes(#[trigger] list[j], t) by {
                        assert(precedes(list[j], list[mid as int]));
                    }
                    assert forall|j: int| mid + 1 <= j < items@.len() implies precedes(
                        t,
                        #[trigger] list[j],
                    ) by {
                        assert(precedes(list[mid as int], list[j]));
                    }
                }
                return (mid, true);
            },
            Rank::Before => {
                proof {
                    assert forall|j: int| 0 <= j < mid + 1 implies precedes(
                        #[trigger] list[j],
                        t,
                    ) by {
                        if j < mid {
                            assert(precedes(list[j], list[mid as int]));
                            lemma_precedes_transitive(list[j], list[mid as int], t);
                        }
                    }
                }
                lo = mid + 1;
            },
            Rank::After => {
                proof {
                    lemma_precedes_total(list[mid as int], t);
                    assert forall|j: int| mid <= j < items@.len() implies precedes(
                        t,
                        #[trigger] list[j],
                    ) by {
                        if mid < j {
                            assert(precedes(list[mid as int], list[j]));
                            lemma_precedes_transitive(t, list[mid as int], list[j]);
                        }
                    }
                }
                hi = mid;
            },
        }
    }
    (lo, false)
}

/// A set of terms, kept in the lexicographic order of their bytes, each term
/// once.
pub struct TermSet<'a> {
    items: Vec<&'a str>,
}

impl<'a> View for TermSet<'a> {
    type V = Set<Seq<u8>>;

    /// The byte strings of the terms.
    closed spec fn view(&self) -> Set<Seq<u8>> {
        byte_strings(self.items@).to_set()
    }
}

impl<'a> TermSet<'a> {
    #[verifier::type_invariant]
    spec fn ordered(&self) -> bool {
        ascending(byte_strings(self.items@))
    }

    /// The set without terms.
    pub fn new() -> (r: Self)
        ensures
            r@ == Set::<Seq<u8>>::empty(),
    {
        let r = TermSet { items: Vec::new() };
        assert(r@ =~= Set::<Seq<u8>>::empty());
        r
    }

    /// Whether `term` is in the set.
    pub fn contains(&self, term: &str) -> (b: bool)
        ensures
            b == self@.contains(term.spec_bytes()),
    {
        proof {
            use_type_invariant(self);
        }
        let (at, found) = locate(&self.items, term);
        proof {
            let list = byte_strings(self.items@);
            let t = term.spec_bytes();
            if found {
                assert(list[at as int] == t);
                assert(list.contains(t));
            } else {
                assert forall|j: int| 0 <= j < list.len() implies list[j] != t by {
                    if j < at {
                        lemma_precedes_asymmetric(list[j], t);
                    } else {
                        lemma_precedes_asymmetric(t, list[j]);
                    }
                }
                assert(!list.contains(t));
            }
        }
        found
    }

    /// Puts `term` into the set.
    pub fn insert(&mut self, term: &'a str)
        ensures
            final(self)@ == old(self)@.insert(term.spec_bytes()),
    {
        proof {
            use_type_invariant(&*self);
        }
        let ghost before = byte_strings(self.items@);
        let ghost t = term.spec_bytes();
        let (at, found) = locate(&self.items, term);
        if found {
            assert(before[at as int] == t);
            assert(before.to_set().insert(t) =~= before.to_set());
        } else {
            let mut items: Vec<&'a str> = Vec::new();
            std::mem::swap(&mut items, &mut self.items);
            items.insert(at, term);
            proof {
                let after = byte_strings(items@);
                assert(after =~= before.insert(at as int, t));
                assert forall|i: int, j: int| 0 <= i < j < after.len() implies precedes(
                    #[trigger] after[i],
                    #[trigger] after[j],
                ) by {
                    if j < at {
                        assert(precedes(before[i], before[j]));
                    } else if j == at {
                        assert(precedes(before[i], t));
                    } else if i < at {
                        assert(precedes(before[i], before[j - 1]));
                    } else if i == at {
                        assert(precedes(t, before[j - 1]));
                    } else {
                        assert(precedes(before[i - 1], before[j - 1]));
                    }
                }
                assert forall|x: Seq<u8>| after.to_set().contains(x) == before.to_set().insert(
                    t,
                ).contains(x) by {
                    if after.contains(x) {
                        let j = choose|j: int| 0 <= j < after.len() && after[j] == x;
                        if j < at {
                            assert(before[j] == x);
                        } else if j > at {
                            assert(before[j - 1] == x);
                        }
                    }
                    if before.contains(x) {
                        let j = choose|j: int| 0 <= j < before.len() && before[j] == x;
                        if j < at {
                            assert(after[j] == x);
                        } else {
                            assert(after[j + 1] == x);
                        }
                    }
                    if x == t {
                        assert(after[at as int] == x);
                    }
                }
                assert(after.to_set() =~= before.to_set().insert(t));
            }
            self.items = items;
        }
    }

    /// The number of terms.
    pub fn len(&self) -> (n: usize)
        ensures
            n == self@.len(),
            self@.finite(),
    {
        proof {
            use_type_invariant(self);
            let list = byte_strings(self.items@);
            assert forall|i: int, j: int| 0 <= i < list.len() && 0 <= j < list.len() && i
                != j implies list[i] != list[j] by {
                if i < j {
                    lemma_precedes_asymmetric(list[i], list[j]);
                } else {
                    lemma_precedes_asymmetric(list[j], list[i]);
                }
            }
            list.unique_seq_to_set();
        }
        self.items.len()
    }

    /// Whether the set holds no term.
    pub fn is_empty(&self) -> (b: bool)
        ensures
            b == (self@ == Set::<Seq<u8>>::empty()),
    {
        proof {
            let list = byte_strings(self.items@);
            if list.len() > 0 {
                assert(list.contains(list[0]));
                assert(self@.contains(list[0]));
            } else {
                assert(self@ =~= Set::<Seq<u8>>::empty());
            }
        }
        self.items.len() == 0
    }

    /// The terms in ascending order.
    pub fn terms(&self) -> (r: &Vec<&'a str>)
        ensures
            ascending(byte_strings(r@)),
            byte_strings(r@).to_set() == self@,
    {
        proof {
            use_type_invariant(self);
        }
        &self.items
    }

    /// The terms in ascending order, as a vector of their own.
    pub fn into_vec(self) -> (r: Vec<&'a str>)
        ensures
            ascending(byte_strings(r@)),
            byte_strings(r@).to_set() == self@,
    {
        proof {
            use_type_invariant(&self);
        }
        self.items
    }

    /// The terms of this set that are not in `other`.
    pub fn difference(&self, other: &TermSet) -> (r: TermSet<'a>)
        ensures
            r@ == self@.difference(other@),
    {
        proof {
            use_type_invariant(self);
        }
        let ghost list = byte_strings(self.items@);
        let mut kept: Vec<&'a str> = Vec::new();
        let mut i: usize = 0;
        while i < self.items.len()
            invariant
                list == byte_strings(self.items@),
                ascending(list),
                i <= self.items@.len(),
                ascending(byte_strings(kept@)),
                forall|k: int, j: int|
                    0 <= k < kept@.len() && i <= j < list.len() ==> precedes(
                        #[trigger] byte_strings(kept@)[k],
                        #[trigger] list[j],
                    ),
                forall|x: Seq<u8>|
                    #[trigger] byte_strings(kept@).contains(x) <==> (exists|j: int|
                        0 <= j < i && #[trigger] list[j] == x) && !other@.contains(x),
            decreases self.items@.len() - i,
        {
            let term = self.items[i];
            let ghost t = term.spec_bytes();
            assert(list[i as int] == t);
            let ghost prev = byte_strings(kept@);
            if !other.contains(term) {
                kept.push(term);
                proof {
                    let next = byte_strings(kept@);
                    assert(next =~= prev.push(t));
                    assert forall|a: int, b: int| 0 <= a < b < next.len() implies precedes(
                        #[trigger] next[a],
                        #[trigger] next[b],
                    ) by {
                        if b < prev.len() {
                            assert(precedes(prev[a], prev[b]));
                        } else {
                            assert(precedes(prev[a], list[i as int]));
                        }
                    }
                    assert forall|k: int, j: int|
                        0 <= k < next.len() && i + 1 <= j < list.len() implies precedes(
                        #[trigger] next[k],
                        #[trigger] list[j],
                    ) by {
                        if k < prev.len() {
                            assert(precedes(prev[k], list[j]));
                        } else {
                            assert(precedes(list[i as int], list[j]));
                        }
                    }
                    assert forall|x: Seq<u8>|
                        next.contains(x) <==> (exists|j: int|
                            0 <= j < i + 1 && #[trigger] list[j] == x) && !other@.contains(x) by {
                        if next.contains(x) {
                            let k = choose|k: int| 0 <= k < next.len() && next[k] == x;
                            if k < prev.len() {
                                assert(prev[k] == x);
                                assert(prev.contains(x));
                            } else {
                                assert(list[i as int] == x);
                            }
                        }
                        if (exists|j: int| 0 <= j < i + 1 && #[trigger] list[j] == x)
                            && !other@.contains(x) {
                            let j = choose|j: int| 0 <= j < i + 1 && #[trigger] list[j] == x;
                            if j < i {
                                assert(prev.contains(x));
                                let k = choose|k: int| 0 <= k < prev.len() && prev[k] == x;
                                assert(next[k] == x);
                            } else {
                                assert(next[prev.len() as int] == x);
                            }
                        }
                    }
                }
            } else {
                proof {
                    assert forall|x: Seq<u8>|
                        prev.contains(x) <==> (exists|j: int|
                            0 <= j < i + 1 && #[trigger] list[j] == x) && !other@.contains(x) by {
                        if prev.contains(x) {
                            let j = choose|j: int| 0 <= j < i && #[trigger] list[j] == x;
                            assert(0 <= j < i + 1 && list[j] == x);
                        }
                        if (exists|j: int| 0 <= j < i + 1 && #[trigger] list[j] == x)
                            && !other@.contains(x) {
                            let j = choose|j: int| 0 <= j < i + 1 && #[trigger] list[j] == x;
                            assert(j < i);
                            assert(0 <= j < i && list[j] == x);
                        }
                    }
                }
            }
            i = i + 1;
        }
        let r = TermSet { items: kept };
        proof {
            let out = byte_strings(kept@);
            assert(i == list.len());
            assert forall|x: Seq<u8>| r@.contains(x) == self@.difference(other@).contains(x) by {
                assert(r@.contains(x) == out.contains(x));
                assert(self@.contains(x) == list.contains(x));
                if list.contains(x) {
                    let j = choose|j: int| 0 <= j < list.len() && list[j] == x;
                    assert(0 <= j < i && list[j] == x);
                }
                if out.contains(x) {
                    let j = choose|j: int| 0 <= j < i && #[trigger] list[j] == x;
                    assert(list.contains(x));
                }
            }
            assert(r@ =~= self@.difference(other@));
        }
        r
    }
}

} // verus!
