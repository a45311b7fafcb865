use unlinked::term_set::TermSet;
use unlinked::text::{rank, slice, Rank};

#[test]
fn new_set_is_empty() {
    let set = TermSet::new();
    assert!(set.is_empty());
    assert_eq!(set.len(), 0);
    assert!(!set.contains("a"));
    assert_eq!(set.into_vec(), Vec::<&str>::new());
}

#[test]
fn insert_keeps_order_and_drops_repeats() {
    let mut set = TermSet::new();
    for term in ["pear", "apple", "fig", "apple", "", "zebra", "fig", "Apple", "東"] {
        set.insert(term);
    }
    assert_eq!(set.len(), 7);
    assert!(!set.is_empty());
    assert_eq!(set.terms(), &vec!["", "Apple", "apple", "fig", "pear", "zebra", "東"]);
    assert!(set.contains("fig"));
    assert!(set.contains(""));
    assert!(!set.contains("figs"));
    assert!(!set.contains("fi"));
}

#[test]
fn order_is_that_of_a_sorted_vector() {
    let words = ["b", "ab", "a", "abc", "B", "é", "e", "z", "東", "€", "aa", "ba"];
    let mut set = TermSet::new();
    for word in words {
        set.insert(word);
    }
    let mut sorted = words.to_vec();
    sorted.sort();
    assert_eq!(set.into_vec(), sorted);
}

#[test]
fn difference_takes_out_the_terms_of_the_other_set() {
    let mut a = TermSet::new();
    for term in ["one", "two", "three", "four"] {
        a.insert(term);
    }
    let mut b = TermSet::new();
    for term in ["two", "five", "four"] {
        b.insert(term);
    }
    assert_eq!(a.difference(&b).into_vec(), vec!["one", "three"]);
    assert_eq!(b.difference(&a).into_vec(), vec!["five"]);
    assert_eq!(a.difference(&a).into_vec(), Vec::<&str>::new());
    assert_eq!(a.difference(&TermSet::new()).into_vec(), vec!["four", "one", "three", "two"]);
}

#[test]
fn rank_is_the_order_of_str() {
    assert_eq!(rank("a", "b"), Rank::Before);
    assert_eq!(rank("b", "a"), Rank::After);
    assert_eq!(rank("a", "a"), Rank::Same);
    assert_eq!(rank("", ""), Rank::Same);
    assert_eq!(rank("", "a"), Rank::Before);
    assert_eq!(rank("ab", "a"), Rank::After);
    assert_eq!(rank("wtf", "東"), Rank::Before);
    assert_eq!(rank("Z", "a"), Rank::Before);
}

#[test]
fn slice_cuts_on_character_boundaries_only() {
    assert_eq!(slice("10€ now", 0, 2), Some("10"));
    assert_eq!(slice("10€ now", 2, 5), Some("€"));
    assert_eq!(slice("10€ now", 5, 5), Some(""));
    assert_eq!(slice("10€ now", 6, 9), Some("now"));
    assert_eq!(slice("10€ now", 2, 4), None);
    assert_eq!(slice("10€ now", 3, 5), None);
    assert_eq!(slice("10€ now", 5, 2), None);
    assert_eq!(slice("10€ now", 0, 10), None);
    assert_eq!(slice("10€ now", 10, 10), None);
}
