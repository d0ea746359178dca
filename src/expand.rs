use vstd::prelude::*;

use crate::split::{
    delimiter_count, lemma_no_delimiters, split_expandable_string, split_spec, EntryView,
    ExpandableStrEntry, ExpandableStrSplitError, ItemView,
};

verus! {

/// A read-only lookup from variable names to their values.
pub trait NamedValuesSource {
    /// The value that `key` names, if any.
    spec fn value_of(&self, key: Seq<char>) -> Option<Seq<char>>;

    /// Looks `key` up.
    fn get(&self, key: &str) -> (r: Option<&str>)
        ensures
            self.value_of(key@) == opt_str_view(r),
    ;
}

/// An optional string, as characters.
pub open spec fn opt_str_view(r: Option<&str>) -> Option<Seq<char>> {
    match r {
        Some(v) => Some(v@),
        None => None,
    }
}

/// The value bound last to `key` among `pairs`.
pub open spec fn last_binding(pairs: Seq<(Seq<char>, Seq<char>)>, key: Seq<char>) -> Option<
    Seq<char>,
>
    decreases pairs.len(),
{
    if pairs.len() == 0 {
        None
    } else if pairs.last().0 == key {
        Some(pairs.last().1)
    } else {
        last_binding(pairs.drop_last(), key)
    }
}

/// An in-memory table of named values; a later binding of a name replaces
/// an earlier one.
pub struct NamedValues {
    entries: Vec<(String, String)>,
}

impl NamedValues {
    /// The bindings, in the order they were made.
    pub closed spec fn pairs(&self) -> Seq<(Seq<char>, Seq<char>)> {
        self.entries@.map_values(|p: (String, String)| (p.0@, p.1@))
    }

    /// A table that binds no name.
    pub fn new() -> (r: NamedValues)
        ensures
            forall|k: Seq<char>| #[trigger] r.value_of(k) is None,
    {
        NamedValues { entries: Vec::new() }
    }

    /// Binds `name` to `value`.
    pub fn set(&mut self, name: &str, value: &str)
        ensures
            forall|k: Seq<char>|
                #[trigger] final(self).value_of(k) == if k == name@ {
                    Some(value@)
                } else {
                    old(self).value_of(k)
                },
    {
        self.entries.push((name.to_owned(), value.to_owned()));
        assert(self.pairs().drop_last() =~= old(self).pairs());
    }
}

impl NamedValuesSource for NamedValues {
    open spec fn value_of(&self, key: Seq<char>) -> Option<Seq<char>> {
        last_binding(self.pairs(), key)
    }

    /// Looks `key` up.
    fn get(&self, key: &str) -> (r: Option<&str>) {
        let wanted = key.to_owned();
        let mut i: usize = self.entries.len();
        assert(self.pairs().subrange(0, i as int) =~= self.pairs());
        while i > 0
            invariant
                i <= self.entries@.len(),
                wanted@ == key@,
                self.value_of(key@) == last_binding(self.pairs().subrange(0, i as int), key@),
            decreases i,
        {
            let ghost prefix = self.pairs().subrange(0, i as int);
            assert(prefix.last() == (self.entries@[i - 1].0@, self.entries@[i - 1].1@));
            if self.entries[i - 1].0 == wanted {
                return Some(self.entries[i - 1].1.as_str());
            }
            assert(prefix.drop_last() =~= self.pairs().subrange(0, i - 1));
            i = i - 1;
        }
        None
    }
}

/// Errors of expansion.
#[derive(Debug, Clone, Copy, PartialEq, Eq, Structural)]
pub enum ExpandStringError {
    /// The string ends inside a variable reference.
    InvalidFormat,
    /// A variable reference names no value.
    MissingVariable,
}

impl From<ExpandableStrSplitError> for ExpandStringError {
    fn from(x: ExpandableStrSplitError) -> Self {
        match x {
            ExpandableStrSplitError::InvalidFormat => ExpandStringError::InvalidFormat,
        }
    }
}

impl vstd::std_specs::convert::FromSpecImpl<ExpandableStrSplitError> for ExpandStringError {
    open spec fn obeys_from_spec() -> bool {
        true
    }

    open spec fn from_spec(x: ExpandableStrSplitError) -> Self {
        match x {
            ExpandableStrSplitError::InvalidFormat => ExpandStringError::InvalidFormat,
        }
    }
}

/// Puts `prefix` before the text of a successful expansion.
pub open spec fn prepend(
    prefix: Seq<char>,
    r: Result<Seq<char>, ExpandStringError>,
) -> Result<Seq<char>, ExpandStringError> {
    match r {
        Ok(t) => Ok(prefix + t),
        Err(e) => Err(e),
    }
}

proof fn lemma_prepend_twice(a: Seq<char>, b: Seq<char>, r: Result<Seq<char>, ExpandStringError>)
    ensures
        prepend(a, prepend(b, r)) == prepend(a + b, r),
{
    if let Ok(t) = r {
        assert(a + (b + t) =~= (a + b) + t);
    }
}

/// The expansion of a sequence of tokenizer items: literal text kept, each
/// variable replaced by its value; the first error, in order, wins.
pub open spec fn expand_items<V: NamedValuesSource>(
    items: Seq<ItemView>,
    values: &V,
) -> Result<Seq<char>, ExpandStringError>
    decreases items.len(),
{
    if items.len() == 0 {
        Ok(Seq::empty())
    } else {
        match items[0] {
            Err(_) => Err(ExpandStringError::InvalidFormat),
            Ok(EntryView::Substr(t)) => prepend(t, expand_items(items.drop_first(), values)),
            Ok(EntryView::Var(name)) => match values.value_of(name) {
                Some(v) => prepend(v, expand_items(items.drop_first(), values)),
                None => Err(ExpandStringError::MissingVariable),
            },
        }
    }
}

/// The expansion of a template string.
pub open spec fn expand_spec<V: NamedValuesSource>(s: Seq<char>, values: &V) -> Result<
    Seq<char>,
    ExpandStringError,
> {
    expand_items(split_spec(s), values)
}

/// The outcome of an expansion, as characters.
pub open spec fn result_view(r: Result<String, ExpandStringError>) -> Result<
    Seq<char>,
    ExpandStringError,
> {
    match r {
        Ok(t) => Ok(t@),
        Err(e) => Err(e),
    }
}

/// Replaces each variable reference of `s` by its value in `values`.
pub fn expand_string<V: NamedValuesSource>(s: &str, values: &V) -> (r: Result<
    String,
    ExpandStringError,
>)
    ensures
        result_view(r) == expand_spec(s@, values),
{
    let mut tokens = split_expandable_string(s);
    let mut out = String::new();
    loop
        invariant
            tokens.wf(),
            expand_spec(s@, values) == prepend(out@, expand_items(tokens.remaining(), values)),
        decreases tokens.remaining().len(),
    {
        let ghost items = tokens.remaining();
        let ghost before = out@;
        match tokens.next() {
            None => {
                assert(out@ + Seq::<char>::empty() =~= out@);
                return Ok(out);
            },
            Some(Err(e)) => {
                return Err(ExpandStringError::from(e));
            },
            Some(Ok(ExpandableStrEntry::Substr(t))) => {
                out.append(t);
                proof {
                    lemma_prepend_twice(before, t@, expand_items(tokens.remaining(), values));
                }
            },
            Some(Ok(ExpandableStrEntry::Var(name))) => {
                match values.get(name) {
                    Some(v) => {
                        out.append(v);
                        proof {
                            lemma_prepend_twice(before, v@, expand_items(tokens.remaining(), values));
                        }
                    },
                    None => {
                        return Err(ExpandStringError::MissingVariable);
                    },
                }
            },
        }
    }
}

/// Expanding a string without delimiters gives it back unchanged, whatever
/// the values hold.
pub proof fn lemma_expand_without_delimiters<V: NamedValuesSource>(s: Seq<char>, values: &V)
    requires
        delimiter_count(s) == 0,
    ensures
        expand_spec(s, values) == Ok::<Seq<char>, ExpandStringError>(s),
{
    lemma_no_delimiters(s);
    let items = split_spec(s);
    if s.len() > 0 {
        assert(items.drop_first() =~= Seq::<ItemView>::empty());
        assert(expand_items(items.drop_first(), values) == Ok::<Seq<char>, ExpandStringError>(
            Seq::empty(),
        ));
        assert(items[0] == Ok::<EntryView, ExpandableStrSplitError>(EntryView::Substr(s)));
        assert(s + Seq::<char>::empty() =~= s);
        assert(expand_items(items, values) == prepend(s, Ok(Seq::empty())));
    } else {
        assert(s =~= Seq::<char>::empty());
    }
}

} // verus!
