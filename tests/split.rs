use expandable_string::split_expandable_string;
use expandable_string::ExpandableStrEntry::{Substr, Var};
use expandable_string::{ExpandableStrEntry, ExpandableStrSplitError, ExpandableStrSplitResult};

fn all_items(src: &str) -> Vec<ExpandableStrSplitResult<'_>> {
    let mut split = split_expandable_string(src);
    let mut items = Vec::new();
    while let Some(item) = split.next() {
        items.push(item);
    }
    items
}

fn entries(src: &str) -> Vec<ExpandableStrEntry<'_>> {
    all_items(src).into_iter().filter_map(Result::ok).collect()
}

#[test]
fn splits_string() {
    let src = "foo%bar%";
    let x: Vec<_> = entries(src);
    assert_eq!(x, vec![Substr("foo"), Var("bar")]);
}

#[test]
fn splits_string_starting_with_var() {
    let src = "%foo%bar";
    let x: Vec<_> = entries(src);
    assert_eq!(x, vec![Var("foo"), Substr("bar")]);
}

#[test]
fn splits_string_with_two_adjacent_vars() {
    let src = "%foo%%bar%";
    let x: Vec<_> = entries(src);
    assert_eq!(x, vec![Var("foo"), Var("bar")]);
}

#[test]
fn empty_string_gives_no_items() {
    assert!(all_items("").is_empty());
}

#[test]
fn string_without_delimiters_is_one_substr() {
    assert_eq!(all_items("plain text"), vec![Ok(Substr("plain text"))]);
    assert_eq!(all_items("żółw ü"), vec![Ok(Substr("żółw ü"))]);
}

#[test]
fn even_delimiters_alternate() {
    assert_eq!(
        all_items("a%b%c%d%e"),
        vec![
            Ok(Substr("a")),
            Ok(Var("b")),
            Ok(Substr("c")),
            Ok(Var("d")),
            Ok(Substr("e"))
        ]
    );
    assert_eq!(all_items("%x%y"), vec![Ok(Var("x")), Ok(Substr("y"))]);
}

#[test]
fn unterminated_variable_ends_with_error() {
    assert_eq!(
        all_items("abc%missing"),
        vec![Ok(Substr("abc")), Err(ExpandableStrSplitError::InvalidFormat)]
    );
    assert_eq!(all_items("%"), vec![Err(ExpandableStrSplitError::InvalidFormat)]);
}

#[test]
fn nothing_follows_the_error() {
    let mut split = split_expandable_string("a%b%c%d");
    assert_eq!(split.next(), Some(Ok(Substr("a"))));
    assert_eq!(split.next(), Some(Ok(Var("b"))));
    assert_eq!(split.next(), Some(Ok(Substr("c"))));
    assert_eq!(split.next(), Some(Err(ExpandableStrSplitError::InvalidFormat)));
    assert_eq!(split.next(), None);
    assert_eq!(split.next(), None);
}

#[test]
fn exhausted_split_stays_exhausted() {
    let mut split = split_expandable_string("x%y%");
    assert_eq!(split.next(), Some(Ok(Substr("x"))));
    assert_eq!(split.next(), Some(Ok(Var("y"))));
    assert_eq!(split.next(), None);
    assert_eq!(split.next(), None);
}

#[test]
fn adjacent_delimiters_give_no_empty_item() {
    assert_eq!(all_items("ab%%cd"), vec![Ok(Substr("ab")), Ok(Substr("cd"))]);
    assert_eq!(all_items("%%"), vec![]);
    assert_eq!(all_items("%%%%x"), vec![Ok(Substr("x"))]);
}

#[test]
fn multibyte_text_is_split_by_characters() {
    assert_eq!(
        all_items("é%ñame%ü"),
        vec![Ok(Substr("é")), Ok(Var("ñame")), Ok(Substr("ü"))]
    );
}
