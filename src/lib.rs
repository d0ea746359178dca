//! Splitting of `%`-delimited template strings into literal text and variable
//! names, and expansion of such strings against a source of named values.

pub mod expand;
pub mod split;

pub use expand::{expand_string, ExpandStringError, NamedValues, NamedValuesSource};
pub use split::{
    split_expandable_string, EntryView, ExpandableStrEntry, ExpandableStrSplitError,
    ExpandableStrSplitResult, ExpandableStringSplit,
};
