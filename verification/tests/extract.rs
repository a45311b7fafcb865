use unlinked::extract::wikilinks;

fn links(s: &str) -> Vec<&str> {
    wikilinks(s).into_vec()
}

#[test]
fn one_link_after_plain_text() {
    assert_eq!(links("hello [[world]]"), vec!["world"]);
}

#[test]
fn two_links() {
    assert_eq!(links("[[hello]] [[world]]"), vec!["hello", "world"]);
}

#[test]
fn piped_links_keep_the_target() {
    assert_eq!(links("[[hello|what]] [[world|what]]"), vec!["hello", "world"]);
}

#[test]
fn link_over_a_line_break() {
    assert_eq!(links("[[hello\nworld]]"), vec!["hello\nworld"]);
}

#[test]
fn plain_text_has_no_link() {
    assert_eq!(links("hello world 2"), Vec::<&str>::new());
}

#[test]
fn empty_text_has_no_link() {
    assert_eq!(links(""), Vec::<&str>::new());
}

#[test]
fn unclosed_link_is_no_link() {
    assert_eq!(links("[["), Vec::<&str>::new());
}

#[test]
fn closing_brackets_alone_are_no_link() {
    assert_eq!(links("]]"), Vec::<&str>::new());
}

#[test]
fn hyperlink_is_no_wikilink() {
    assert_eq!(links("[hello](there)"), Vec::<&str>::new());
}

#[test]
fn target_outside_ascii() {
    assert_eq!(links("[[東]]"), vec!["東"]);
}

#[test]
fn ascii_target_then_target_outside_ascii() {
    assert_eq!(links("[[wtf]][[東]]"), vec!["wtf", "東"]);
}

#[test]
fn targets_come_out_in_order() {
    assert_eq!(links("[[東]][[wtf]]"), vec!["wtf", "東"]);
}

#[test]
fn mixed_target() {
    assert_eq!(links("[[東 hello]][[wtf]]"), vec!["wtf", "東 hello"]);
}

#[test]
fn hyperlink_with_a_dash_outside_ascii() {
    assert_eq!(
        links("[Senior Backend Engineer – Standard](https://standard.tv/pages/senior-engineer)"),
        Vec::<&str>::new()
    );
}

#[test]
fn empty_target_is_left_out() {
    assert_eq!(links("[[]]"), Vec::<&str>::new());
    assert_eq!(links("[[|alias]]"), Vec::<&str>::new());
}

#[test]
fn empty_alias_keeps_the_target() {
    assert_eq!(links("[[Foo|]]"), vec!["Foo"]);
}

#[test]
fn only_the_first_pipe_counts() {
    assert_eq!(links("[[Foo|Bar|Baz]]"), vec!["Foo"]);
}

#[test]
fn a_target_is_listed_once() {
    assert_eq!(links("[[b]] [[a]] [[b|x]] [[a]]"), vec!["a", "b"]);
}

#[test]
fn target_ends_before_the_character_that_precedes_the_closing_bracket() {
    assert_eq!(links("[[a]b]"), vec!["a]"]);
    assert_eq!(links("[[a]東]"), vec!["a]"]);
    assert_eq!(links("[[a]東東]"), vec!["a]東"]);
}

#[test]
fn a_link_may_open_with_brackets_apart() {
    assert_eq!(links("[a[b]]"), vec!["b"]);
}

#[test]
fn a_pipe_before_a_reopened_link_does_not_end_its_target() {
    assert_eq!(links("[[a|b][c]]"), vec!["c"]);
    assert_eq!(links("[[a|b][c|d]]"), vec!["c|d"]);
}

#[test]
fn extraction_is_repeatable() {
    let text = "[[one]] and [[two|2]] and [[東京]] and [[one]]";
    assert_eq!(links(text), links(text));
    assert_eq!(links(text), vec!["one", "two", "東京"]);
}

#[test]
fn text_outside_ascii_has_no_link() {
    assert_eq!(links("東京都は日本の首都"), Vec::<&str>::new());
}
