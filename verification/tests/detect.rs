use unlinked::corpus::{survey, vocabulary, Document};
use unlinked::detect::{find_unlinked, unlinked_mentions};
use unlinked::extract::wikilinks;
use unlinked::matcher::Matcher;
use unlinked::term_set::TermSet;

fn set_of<'a>(terms: &[&'a str]) -> TermSet<'a> {
    let mut set = TermSet::new();
    for term in terms {
        set.insert(term);
    }
    set
}

fn document(path: &str, content: &str) -> Document {
    Document { path: path.to_string(), name: path.to_string(), content: content.to_string() }
}

fn findings(documents: &Vec<Document>) -> Vec<(String, Vec<String>)> {
    survey(documents)
        .into_iter()
        .map(|r| (r.path.to_string(), r.terms.into_vec().into_iter().map(String::from).collect()))
        .collect()
}

#[test]
fn matcher_prefers_the_leftmost_and_then_the_longest() {
    let matcher = Matcher::new(&set_of(&["append", "appendage", "app"]));
    assert_eq!(
        matcher.find_all("append the app to the appendage"),
        vec![(0, 6), (11, 14), (22, 31)]
    );
}

#[test]
fn matcher_reports_no_overlapping_hits() {
    let matcher = Matcher::new(&set_of(&["abcd", "b", "cde"]));
    assert_eq!(matcher.find_all("abcdef b"), vec![(0, 4), (7, 8)]);
}

#[test]
fn matcher_is_case_sensitive() {
    let matcher = Matcher::new(&set_of(&["Cat"]));
    assert_eq!(matcher.find_all("cat Cat CAT"), vec![(4, 7)]);
}

#[test]
fn matcher_without_patterns_finds_nothing() {
    let matcher = Matcher::new(&TermSet::new());
    assert_eq!(matcher.find_all("anything"), Vec::<(usize, usize)>::new());
}

#[test]
fn matcher_counts_bytes() {
    let matcher = Matcher::new(&set_of(&["京都"]));
    assert_eq!(matcher.find_all("東京都と京都"), vec![(3, 9), (12, 18)]);
}

#[test]
fn mentions_inside_words_are_rejected() {
    let text = "category cat bobcat cat9 (cat)";
    let hits = vec![(0, 3), (9, 12), (16, 19), (20, 23), (26, 29)];
    let found = unlinked_mentions(text, &hits, &TermSet::new());
    assert_eq!(found.into_vec(), vec!["cat"]);
    let inside_only = unlinked_mentions(text, &vec![(0, 3), (16, 19), (20, 23)], &TermSet::new());
    assert_eq!(inside_only.into_vec(), Vec::<&str>::new());
}

#[test]
fn declared_targets_are_left_out() {
    let text = "cat and dog and bird";
    let hits = vec![(0, 3), (8, 11), (16, 20)];
    let found = unlinked_mentions(text, &hits, &set_of(&["dog", "fish"]));
    assert_eq!(found.into_vec(), vec!["bird", "cat"]);
}

#[test]
fn hits_that_are_no_ranges_of_the_text_mention_nothing() {
    let text = "a €5 b";
    let hits = vec![(2, 4), (3, 5), (5, 2), (4, 40), (40, 41), (2, 6)];
    let found = unlinked_mentions(text, &hits, &TermSet::new());
    assert_eq!(found.into_vec(), vec!["€5"]);
}

#[test]
fn a_mention_is_reported_once() {
    let text = "cat, cat; cat";
    let hits = vec![(0, 3), (5, 8), (10, 13)];
    assert_eq!(unlinked_mentions(text, &hits, &TermSet::new()).into_vec(), vec!["cat"]);
}

#[test]
fn term_between_alphanumeric_characters_is_not_reported() {
    let matcher = Matcher::new(&set_of(&["cat"]));
    for text in ["category", "bobcat", "acatb", "1cat2", "écaté", "東cat京"] {
        let found = find_unlinked(&matcher, text, &TermSet::new());
        assert_eq!(found.into_vec(), Vec::<&str>::new(), "in {}", text);
    }
}

#[test]
fn term_between_punctuation_or_at_the_ends_is_reported() {
    let matcher = Matcher::new(&set_of(&["cat"]));
    for text in ["cat", "(cat)", "a cat.", "cat!", " cat", "«cat»", "—cat—", "the cat, the category"] {
        let found = find_unlinked(&matcher, text, &TermSet::new());
        assert_eq!(found.into_vec(), vec!["cat"], "in {}", text);
    }
}

#[test]
fn declared_term_is_not_reported() {
    let matcher = Matcher::new(&set_of(&["cat"]));
    let found = find_unlinked(&matcher, "a cat and [[cat]]", &set_of(&["cat"]));
    assert_eq!(found.into_vec(), Vec::<&str>::new());
}

#[test]
fn longer_term_hides_the_shorter_one_at_its_place() {
    let matcher = Matcher::new(&set_of(&["cat", "cat flap"]));
    let found = find_unlinked(&matcher, "the cat flap and the cat", &TermSet::new());
    assert_eq!(found.into_vec(), vec!["cat", "cat flap"]);
    let found = find_unlinked(&matcher, "the cat flap", &TermSet::new());
    assert_eq!(found.into_vec(), vec!["cat flap"]);
}

#[test]
fn vocabulary_is_the_union_without_the_empty_term() {
    let sets = vec![set_of(&["b", "a", ""]), TermSet::new(), set_of(&["c", "a"]), set_of(&[""])];
    assert_eq!(vocabulary(&sets).into_vec(), vec!["a", "b", "c"]);
    assert_eq!(vocabulary(&Vec::new()).into_vec(), Vec::<&str>::new());
}

#[test]
fn vocabulary_of_extracted_links() {
    let a = "See [[Cat]] for details.";
    let b = "Cats are cool. [[Cat]] is a cat.";
    let sets = vec![wikilinks(a), wikilinks(b)];
    assert_eq!(vocabulary(&sets).into_vec(), vec!["Cat"]);
}

#[test]
fn single_document_with_one_link_has_no_findings() {
    let documents = vec![document("a.md", "hello [[world]]")];
    assert_eq!(findings(&documents), Vec::<(String, Vec<String>)>::new());
}

#[test]
fn linked_occurrence_is_no_finding() {
    let documents = vec![
        document("a.md", "See [[Cat]] for details."),
        document("b.md", "Cats are cool. [[Cat]] is a cat."),
    ];
    assert_eq!(findings(&documents), Vec::<(String, Vec<String>)>::new());
}

#[test]
fn target_of_a_piped_link_is_found_in_another_document() {
    let documents = vec![document("a.md", "[[Foo|Bar]]"), document("b.md", "Is it (Foo)? Bar.")];
    assert_eq!(findings(&documents), vec![("b.md".to_string(), vec!["Foo".to_string()])]);
}

#[test]
fn empty_document_has_no_findings() {
    let documents = vec![document("a.md", "[[Foo]]"), document("b.md", "")];
    assert_eq!(findings(&documents), Vec::<(String, Vec<String>)>::new());
}

#[test]
fn empty_corpus_has_no_findings() {
    assert_eq!(findings(&Vec::new()), Vec::<(String, Vec<String>)>::new());
}

#[test]
fn reports_follow_the_order_of_the_documents() {
    let documents = vec![
        document("notes/a.md", "[[Rust]] and Verus and [[東京]]"),
        document("notes/b.md", "nothing here"),
        document("notes/c.md", "[[Verus]] proves Rust code. Rusty? No: Rust! 東京, Verus."),
        document("notes/d.md", "東京 is far from [[Rust]]; Verus is not."),
    ];
    assert_eq!(
        findings(&documents),
        vec![
            ("notes/a.md".to_string(), vec!["Verus".to_string()]),
            ("notes/c.md".to_string(), vec!["Rust".to_string(), "東京".to_string()]),
            ("notes/d.md".to_string(), vec!["Verus".to_string(), "東京".to_string()]),
        ]
    );
}

#[test]
fn findings_do_not_depend_on_the_order_of_the_documents() {
    let first = document("1.md", "[[alpha]] beta");
    let second = document("2.md", "[[beta]] alpha, gamma");
    let third = document("3.md", "[[gamma]] (alpha) beta");
    let forward = findings(&vec![first, second, third]);
    let mut backward = findings(&vec![
        document("3.md", "[[gamma]] (alpha) beta"),
        document("2.md", "[[beta]] alpha, gamma"),
        document("1.md", "[[alpha]] beta"),
    ]);
    backward.reverse();
    assert_eq!(forward, backward);
    assert_eq!(forward.len(), 3);
}
