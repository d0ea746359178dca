use expandable_string::{expand_string, split_expandable_string, ExpandStringError};
use expandable_string::{ExpandableStrSplitError, NamedValues, NamedValuesSource};

fn values(pairs: &[(&str, &str)]) -> NamedValues {
    let mut v = NamedValues::new();
    for (name, value) in pairs {
        v.set(name, value);
    }
    v
}

#[test]
fn expands_trailing_variable() {
    let v = values(&[("bar", "X")]);
    assert_eq!(expand_string("foo%bar%", &v), Ok("fooX".to_string()));
}

#[test]
fn expands_leading_variable() {
    let v = values(&[("foo", "Y")]);
    assert_eq!(expand_string("%foo%bar", &v), Ok("Ybar".to_string()));
}

#[test]
fn expands_adjacent_variables() {
    let v = values(&[("foo", "1"), ("bar", "2")]);
    assert_eq!(expand_string("%foo%%bar%", &v), Ok("12".to_string()));
}

#[test]
fn unterminated_variable_is_invalid_format() {
    let v = values(&[("missing", "m")]);
    assert_eq!(expand_string("abc%missing", &v), Err(ExpandStringError::InvalidFormat));
    assert_eq!(expand_string("abc%missing", &NamedValues::new()), Err(ExpandStringError::InvalidFormat));
}

#[test]
fn unknown_variable_is_missing() {
    let v = values(&[("other", "o")]);
    let mut split = split_expandable_string("%nope%");
    assert_eq!(split.next(), Some(Ok(expandable_string::ExpandableStrEntry::Var("nope"))));
    assert_eq!(split.next(), None);
    assert_eq!(expand_string("%nope%", &v), Err(ExpandStringError::MissingVariable));
}

#[test]
fn empty_string_expands_to_empty() {
    assert_eq!(expand_string("", &NamedValues::new()), Ok(String::new()));
}

#[test]
fn string_without_delimiters_expands_to_itself() {
    let v = values(&[("plain", "changed"), ("text", "changed")]);
    assert_eq!(expand_string("plain text", &v), Ok("plain text".to_string()));
    assert_eq!(expand_string("plain text", &NamedValues::new()), Ok("plain text".to_string()));
}

#[test]
fn first_error_wins() {
    let v = NamedValues::new();
    assert_eq!(expand_string("%nope%abc%x", &v), Err(ExpandStringError::MissingVariable));
}

#[test]
fn later_binding_replaces_earlier() {
    let v = values(&[("a", "1"), ("b", "2"), ("a", "3")]);
    assert_eq!(v.get("a"), Some("3"));
    assert_eq!(v.get("b"), Some("2"));
    assert_eq!(v.get("c"), None);
    assert_eq!(expand_string("%a%-%b%", &v), Ok("3-2".to_string()));
}

#[test]
fn split_error_converts_to_invalid_format() {
    assert_eq!(
        ExpandStringError::from(ExpandableStrSplitError::InvalidFormat),
        ExpandStringError::InvalidFormat
    );
}
