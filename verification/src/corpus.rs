//! The corpus: the vocabulary of all documents, and the survey that reports
//! for each document what it mentions without linking it.

use crate::detect::{find_unlinked, unlinked};
use crate::extract::{link_targets, wikilinks};
use crate::matcher::{leftmost_longest, patterns_of, Matcher};
use crate::term_set::{ascending, byte_strings, lemma_ascending_unique, TermSet};
use vstd::prelude::*;
use vstd::string::StringSliceAdditionalSpecFns;
use vstd::utf8::*;

verus! {

/// The vocabulary of a corpus, from the link targets of each of its
/// documents: every target that some document declares, but the empty one.
pub open spec fn vocabulary_of(declared: Seq<Set<Seq<u8>>>) -> Set<Seq<u8>> {
    Set::new(
        |t: Seq<u8>|
            t.len() > 0 && exists|k: int|
                0 <= k < declared.len() && #[trigger] declared[k].contains(t),
    )
}

/// The sets that a sequence of term sets stands for.
pub open spec fn views(sets: Seq<TermSet>) -> Seq<Set<Seq<u8>>> {
    Seq::new(sets.len(), |k: int| sets[k]@)
}

/// The terms of a vocabulary in ascending order.
pub open spec fn listing(terms: Set<Seq<u8>>) -> Seq<Seq<u8>> {
    choose|v: Seq<Seq<u8>>| ascending(v) && v.to_set() == terms
}

/// An ascending sequence is the listing of the set of its terms.
pub proof fn lemma_listing(v: Seq<Seq<u8>>)
    requires
        ascending(v),
    ensures
        listing(v.to_set()) == v,
{
    let w = listing(v.to_set());
    lemma_ascending_unique(v, w);
}

/// The vocabulary of the corpus whose documents declare `link_sets`.
pub fn vocabulary<'a>(link_sets: &Vec<TermSet<'a>>) -> (v: TermSet<'a>)
    ensures
        v@ == vocabulary_of(views(link_sets@)),
{
    let ghost declared = views(link_sets@);
    let mut v: TermSet<'a> = TermSet::new();
    let mut k: usize = 0;
    proof {
        assert(v@ =~= vocabulary_of(declared.take(0)));
    }
    while k < link_sets.len()
        invariant
            declared == views(link_sets@),
            k <= link_sets@.len(),
            v@ == vocabulary_of(declared.take(k as int)),
        decreases link_sets@.len() - k,
    {
        let terms = link_sets[k].terms();
        let ghost list = byte_strings(terms@);
        let ghost base = v@;
        assert(list.to_set() == declared[k as int]);
        let mut j: usize = 0;
        while j < terms.len()
            invariant
                list == byte_strings(terms@),
                j <= terms@.len(),
                forall|t: Seq<u8>|
                    #[trigger] v@.contains(t) <==> base.contains(t) || (t.len() > 0 && exists|i: int|
                        0 <= i < j && #[trigger] list[i] == t),
            decreases terms@.len() - j,
        {
            let term = terms[j];
            let ghost before = v@;
            assert(list[j as int] == term.spec_bytes());
            if term.as_bytes().len() > 0 {
                v.insert(term);
            }
            proof {
                assert forall|t: Seq<u8>|
                    #[trigger] v@.contains(t) <==> base.contains(t) || (t.len() > 0 && exists|i: int|
                        0 <= i < j + 1 && #[trigger] list[i] == t) by {
                    if before.contains(t) && !base.contains(t) {
                        let i = choose|i: int| 0 <= i < j && #[trigger] list[i] == t;
                        assert(0 <= i < j + 1 && list[i] == t);
                    }
                    if t.len() > 0 && exists|i: int| 0 <= i < j + 1 && #[trigger] list[i] == t {
                        let i = choose|i: int| 0 <= i < j + 1 && #[trigger] list[i] == t;
                        if i < j {
                            assert(before.contains(t));
                        }
                    }
                }
            }
            j = j + 1;
        }
        proof {
            let next = vocabulary_of(declared.take(k + 1));
            assert forall|t: Seq<u8>| v@.contains(t) == next.contains(t) by {
                if base.contains(t) {
                    let i = choose|i: int|
                        0 <= i < declared.take(k as int).len() && #[trigger] declared.take(
                            k as int,
                        )[i].contains(t);
                    assert(declared.take(k + 1)[i].contains(t));
                }
                if t.len() > 0 && exists|i: int| 0 <= i < j && #[trigger] list[i] == t {
                    assert(list.contains(t));
                    assert(declared.take(k + 1)[k as int].contains(t));
                }
                if next.contains(t) {
                    let i = choose|i: int|
                        0 <= i < declared.take(k + 1).len() && #[trigger] declared.take(
                            k + 1,
                        )[i].contains(t);
                    if i < k {
                        assert(declared.take(k as int)[i].contains(t));
                    } else {
                        assert(list.contains(t));
                        let m = choose|m: int| 0 <= m < list.len() && list[m] == t;
                        assert(0 <= m < j && list[m] == t);
                    }
                }
            }
            assert(v@ =~= next);
        }
        k = k + 1;
    }
    proof {
        assert(declared.take(k as int) =~= declared);
    }
    v
}

/// A document of the corpus, read whole before the survey starts.
pub struct Document {
    /// Where the document was found; it tells documents apart.
    pub path: String,
    /// The name to show for the document.
    pub name: String,
    /// The text of the document.
    pub content: String,
}

/// What one document mentions without linking it.
pub struct Report<'a> {
    /// The path of the document.
    pub path: &'a str,
    /// The unlinked mentions of the document; there is at least one.
    pub terms: TermSet<'a>,
}

impl<'a> View for Report<'a> {
    type V = (Seq<char>, Set<Seq<u8>>);

    open spec fn view(&self) -> (Seq<char>, Set<Seq<u8>>) {
        (self.path@, self.terms@)
    }
}

/// The link targets that each text declares.
pub open spec fn declared_in(texts: Seq<Seq<u8>>) -> Seq<Set<Seq<u8>>> {
    Seq::new(texts.len(), |k: int| link_targets(texts[k]))
}

/// The unlinked mentions of text `k` of a corpus: the matcher is that of
/// the vocabulary of all the texts, and the targets that text `k` declares
/// itself are left out.
pub open spec fn findings(texts: Seq<Seq<u8>>, k: int) -> Set<Seq<u8>> {
    unlinked(
        texts[k],
        leftmost_longest(listing(vocabulary_of(declared_in(texts))), texts[k]),
        link_targets(texts[k]),
    )
}

/// The texts of the documents, as bytes.
pub open spec fn texts_of(documents: Seq<Document>) -> Seq<Seq<u8>> {
    Seq::new(documents.len(), |k: int| encode_utf8(documents[k].content@))
}

/// The reports on the first `n` documents: one for each document that has
/// unlinked mentions, in the order of the documents.
pub open spec fn reports_of(documents: Seq<Document>, n: int) -> Seq<(Seq<char>, Set<Seq<u8>>)>
    decreases n,
{
    if n <= 0 {
        Seq::empty()
    } else {
        let earlier = reports_of(documents, n - 1);
        let found = findings(texts_of(documents), n - 1);
        if found == Set::<Seq<u8>>::empty() {
            earlier
        } else {
            earlier.push((documents[n - 1].path@, found))
        }
    }
}

/// What a sequence of reports stands for.
pub open spec fn report_views(reports: Seq<Report>) -> Seq<(Seq<char>, Set<Seq<u8>>)> {
    Seq::new(reports.len(), |k: int| reports[k]@)
}

/// Surveys a corpus: extracts the links of every document, builds one
/// matcher from the vocabulary of them all, and reports for each document
/// the terms of the vocabulary that it mentions and does not link. A
/// document without such a term gets no report.
pub fn survey<'a>(documents: &'a Vec<Document>) -> (reports: Vec<Report<'a>>)
    ensures
        report_views(reports@) == reports_of(documents@, documents@.len() as int),
{
    let ghost texts = texts_of(documents@);
    let mut link_sets: Vec<TermSet<'a>> = Vec::new();
    let mut k: usize = 0;
    while k < documents.len()
        invariant
            texts == texts_of(documents@),
            k <= documents@.len(),
            link_sets@.len() == k,
            forall|i: int| 0 <= i < k ==> (#[trigger] link_sets@[i])@ == link_targets(texts[i]),
        decreases documents@.len() - k,
    {
        let links = wikilinks(documents[k].content.as_str());
        link_sets.push(links);
        k = k + 1;
    }
    assert(views(link_sets@) =~= declared_in(texts));
    let words = vocabulary(&link_sets);
    let matcher = Matcher::new(&words);
    proof {
        lemma_listing(patterns_of(matcher));
    }
    let mut reports: Vec<Report<'a>> = Vec::new();
    let mut k: usize = 0;
    while k < documents.len()
        invariant
            texts == texts_of(documents@),
            k <= documents@.len(),
            link_sets@.len() == documents@.len(),
            forall|i: int|
                0 <= i < link_sets@.len() ==> (#[trigger] link_sets@[i])@ == link_targets(texts[i]),
            patterns_of(matcher) == listing(vocabulary_of(declared_in(texts))),
            report_views(reports@) == reports_of(documents@, k as int),
        decreases documents@.len() - k,
    {
        let document = &documents[k];
        let terms = find_unlinked(&matcher, document.content.as_str(), &link_sets[k]);
        let ghost earlier = report_views(reports@);
        assert(terms@ == findings(texts, k as int));
        if !terms.is_empty() {
            reports.push(Report { path: document.path.as_str(), terms });
            assert(report_views(reports@) =~= earlier.push((document.path@, findings(texts, k as int))));
        }
        k = k + 1;
    }
    reports
}

} // verus!
