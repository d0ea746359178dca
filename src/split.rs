use vstd::prelude::*;
use vstd::string::StrSliceExecFns;

verus! {

/// The character that opens and closes a variable reference.
pub const DELIMITER: char = '%';

/// Errors the tokenizer reports.
#[derive(Debug, Clone, Copy, PartialEq, Eq, Structural)]
pub enum ExpandableStrSplitError {
    /// The string ends inside a variable reference.
    InvalidFormat,
}

/// One piece of a template string, borrowed from it.
#[derive(Debug, PartialEq, Eq)]
pub enum ExpandableStrEntry<'a> {
    /// Literal text, outside any variable reference.
    Substr(&'a str),
    /// The name between two delimiters.
    Var(&'a str),
}

/// What an entry holds, as characters.
pub enum EntryView {
    /// Literal text.
    Substr(Seq<char>),
    /// A variable name.
    Var(Seq<char>),
}

impl<'a> View for ExpandableStrEntry<'a> {
    type V = EntryView;

    open spec fn view(&self) -> EntryView {
        match self {
            ExpandableStrEntry::Substr(t) => EntryView::Substr(t@),
            ExpandableStrEntry::Var(t) => EntryView::Var(t@),
        }
    }
}

pub type ExpandableStrSplitResult<'a> = Result<ExpandableStrEntry<'a>, ExpandableStrSplitError>;

/// The meaning of one item of the tokenizer's output.
pub type ItemView = Result<EntryView, ExpandableStrSplitError>;

/// An item of the tokenizer's output, as characters.
pub open spec fn item_view(r: ExpandableStrSplitResult) -> ItemView {
    match r {
        Ok(e) => Ok(e@),
        Err(e) => Err(e),
    }
}

/// The item a finished region gives: none when it is empty, else a `Var` for
/// a region inside delimiters and a `Substr` for one outside.
pub open spec fn emit(region: Seq<char>, in_var: bool) -> Seq<ItemView> {
    if region.len() == 0 {
        Seq::empty()
    } else if in_var {
        seq![Ok(EntryView::Var(region))]
    } else {
        seq![Ok(EntryView::Substr(region))]
    }
}

/// The items that remain when `rest` is still to be read, `pending` has been
/// read since the last delimiter, and `in_var` tells whether that region is
/// a variable reference.
pub open spec fn scan(rest: Seq<char>, pending: Seq<char>, in_var: bool) -> Seq<ItemView>
    decreases rest.len(),
{
    if rest.len() == 0 {
        if in_var {
            seq![Err(ExpandableStrSplitError::InvalidFormat)]
        } else {
            emit(pending, false)
        }
    } else if rest[0] == DELIMITER {
        emit(pending, in_var) + scan(rest.drop_first(), Seq::empty(), !in_var)
    } else {
        scan(rest.drop_first(), pending.push(rest[0]), in_var)
    }
}

/// All items that a template string splits into.
pub open spec fn split_spec(s: Seq<char>) -> Seq<ItemView> {
    scan(s, Seq::empty(), false)
}

/// A lazy tokenizer over a borrowed template string.
#[derive(Debug)]
pub struct ExpandableStringSplit<'a> {
    src: &'a str,
    len: usize,
    pos: usize,
    token_start: usize,
    reading_var: bool,
    finished: bool,
}

impl<'a> ExpandableStringSplit<'a> {
    /// The scan positions lie within the string, the region start not past
    /// the cursor.
    pub closed spec fn wf(&self) -> bool {
        &&& self.len == self.src@.len()
        &&& self.token_start <= self.pos <= self.len
    }

    /// The string being split.
    pub closed spec fn source(&self) -> Seq<char> {
        self.src@
    }

    /// The items that the following calls of `next` return, in order.
    pub closed spec fn remaining(&self) -> Seq<ItemView> {
        if self.finished {
            Seq::empty()
        } else {
            scan(
                self.src@.subrange(self.pos as int, self.len as int),
                self.src@.subrange(self.token_start as int, self.pos as int),
                self.reading_var,
            )
        }
    }

    /// Returns the next item, or `None` once the items are exhausted.
    pub fn next(&mut self) -> (r: Option<ExpandableStrSplitResult<'a>>)
        requires
            old(self).wf(),
        ensures
            final(self).wf(),
            final(self).source() == old(self).source(),
            old(self).remaining().len() == 0 ==> r is None && final(self).remaining().len() == 0,
            old(self).remaining().len() > 0 ==> {
                &&& r is Some
                &&& item_view(r->0) == old(self).remaining()[0]
                &&& final(self).remaining() == old(self).remaining().drop_first()
            },
    {
        if self.finished {
            return None;
        }
        let ghost items = self.remaining();
        while self.pos < self.len
            invariant
                self.wf(),
                !self.finished,
                self.src == old(self).src,
                self.remaining() == items,
                items == old(self).remaining(),
            decreases self.len - self.pos,
        {
            let n = self.pos;
            let c = self.src.get_char(n);
            let ghost rest = self.src@.subrange(n as int, self.len as int);
            let ghost pending = self.src@.subrange(self.token_start as int, n as int);
            assert(rest.drop_first() =~= self.src@.subrange(n + 1, self.len as int));
            self.pos = n + 1;
            if c == DELIMITER {
                assert(items == emit(pending, self.reading_var) + scan(
                    rest.drop_first(),
                    Seq::empty(),
                    !self.reading_var,
                ));
                let reading_var = self.reading_var;
                let start = self.token_start;
                self.reading_var = !reading_var;
                self.token_start = n + 1;
                assert(self.src@.subrange(n + 1, n + 1) =~= Seq::<char>::empty());
                if start < n {
                    let token = self.src.substring_char(start, n);
                    let entry = if reading_var {
                        ExpandableStrEntry::Var(token)
                    } else {
                        ExpandableStrEntry::Substr(token)
                    };
                    assert(token@ == pending);
                    assert(items.drop_first() =~= self.remaining());
                    assert(item_view(Ok(entry)) == items[0]);
                    return Some(Ok(entry));
                }
                assert(items =~= self.remaining());
            } else {
                assert(pending.push(c) =~= self.src@.subrange(self.token_start as int, n + 1));
            }
        }
        self.finished = true;
        assert(self.src@.subrange(self.pos as int, self.len as int) =~= Seq::<char>::empty());
        if !self.reading_var {
            if self.token_start < self.len {
                let token = self.src.substring_char(self.token_start, self.len);
                Some(Ok(ExpandableStrEntry::Substr(token)))
            } else {
                None
            }
        } else {
            Some(Err(ExpandableStrSplitError::InvalidFormat))
        }
    }
}

/// Starts splitting `s`.
pub fn split_expandable_string(s: &str) -> (r: ExpandableStringSplit)
    ensures
        r.wf(),
        r.source() == s@,
        r.remaining() == split_spec(s@),
{
    let len = s.unicode_len();
    let r = ExpandableStringSplit {
        src: s,
        len,
        pos: 0,
        token_start: 0,
        reading_var: false,
        finished: false,
    };
    assert(s@.subrange(0, len as int) =~= s@);
    assert(s@.subrange(0, 0) =~= Seq::<char>::empty());
    r
}

/// How many delimiters `s` holds.
pub open spec fn delimiter_count(s: Seq<char>) -> nat
    decreases s.len(),
{
    if s.len() == 0 {
        0
    } else {
        (if s[0] == DELIMITER {
            1nat
        } else {
            0nat
        }) + delimiter_count(s.drop_first())
    }
}

/// Whether two delimiters stand next to each other somewhere in `s`.
pub open spec fn has_adjacent_delimiters(s: Seq<char>) -> bool
    decreases s.len(),
{
    if s.len() < 2 {
        false
    } else {
        (s[0] == DELIMITER && s[1] == DELIMITER) || has_adjacent_delimiters(s.drop_first())
    }
}

/// Whether an item is a variable name.
pub open spec fn is_var_item(item: ItemView) -> bool {
    item matches Ok(EntryView::Var(_))
}

/// The text an entry holds.
pub open spec fn entry_text(e: EntryView) -> Seq<char> {
    match e {
        EntryView::Substr(t) => t,
        EntryView::Var(t) => t,
    }
}

/// Reading text free of delimiters only extends the pending region.
proof fn lemma_scan_plain_prefix(x: Seq<char>, rest: Seq<char>, pending: Seq<char>, in_var: bool)
    requires
        delimiter_count(x) == 0,
    ensures
        scan(x + rest, pending, in_var) == scan(rest, pending + x, in_var),
    decreases x.len(),
{
    if x.len() == 0 {
        assert(x + rest =~= rest);
        assert(pending + x =~= pending);
    } else {
        assert((x + rest)[0] == x[0]);
        assert((x + rest).drop_first() =~= x.drop_first() + rest);
        lemma_scan_plain_prefix(x.drop_first(), rest, pending.push(x[0]), in_var);
        assert(pending.push(x[0]) + x.drop_first() =~= pending + x);
    }
}

/// A string without delimiters is one `Substr` holding all of it, or nothing
/// when it is empty.
pub proof fn lemma_no_delimiters(s: Seq<char>)
    requires
        delimiter_count(s) == 0,
    ensures
        split_spec(s) == if s.len() == 0 {
            Seq::<ItemView>::empty()
        } else {
            seq![Ok(EntryView::Substr(s))]
        },
{
    lemma_scan_plain_prefix(s, Seq::empty(), Seq::empty(), false);
    assert(s + Seq::<char>::empty() =~= s);
    assert(Seq::<char>::empty() + s =~= s);
}

proof fn lemma_scan_alternates(rest: Seq<char>, pending: Seq<char>, in_var: bool)
    requires
        !has_adjacent_delimiters(rest),
        pending.len() > 0 || (rest.len() > 0 && rest[0] != DELIMITER),
        in_var == (delimiter_count(rest) % 2 == 1),
    ensures
        ({
            let t = scan(rest, pending, in_var);
            &&& t.len() > 0
            &&& forall|i: int| 0 <= i < t.len() ==> t[i] is Ok
            &&& is_var_item(t[0]) == in_var
            &&& forall|i: int|
                0 <= i < t.len() - 1 ==> is_var_item(#[trigger] t[i]) != is_var_item(t[i + 1])
        }),
    decreases rest.len(),
{
    if rest.len() == 0 {
    } else if rest[0] == DELIMITER {
        let tail = rest.drop_first();
        let t = scan(rest, pending, in_var);
        if tail.len() == 0 {
            assert(delimiter_count(tail) == 0);
            assert(scan(tail, Seq::empty(), !in_var) =~= Seq::<ItemView>::empty());
            assert(t =~= emit(pending, in_var));
        } else {
            lemma_scan_alternates(tail, Seq::empty(), !in_var);
            let u = scan(tail, Seq::empty(), !in_var);
            assert(t == emit(pending, in_var) + u);
            assert forall|i: int| 0 <= i < t.len() - 1 implies is_var_item(#[trigger] t[i])
                != is_var_item(t[i + 1]) by {
                if i > 0 {
                    assert(t[i] == u[i - 1]);
                    assert(t[i + 1] == u[i]);
                }
            }
            assert forall|i: int| 0 <= i < t.len() implies t[i] is Ok by {
                if i > 0 {
                    assert(t[i] == u[i - 1]);
                }
            }
        }
    } else {
        lemma_scan_alternates(rest.drop_first(), pending.push(rest[0]), in_var);
    }
}

/// A string with an even, nonzero number of delimiters, none of them next to
/// another, splits into entries whose kinds alternate, starting with a `Var`
/// exactly when the string starts with a delimiter.
pub proof fn lemma_alternating_entries(s: Seq<char>)
    requires
        delimiter_count(s) % 2 == 0,
        delimiter_count(s) > 0,
        !has_adjacent_delimiters(s),
    ensures
        ({
            let t = split_spec(s);
            &&& t.len() > 0
            &&& forall|i: int| 0 <= i < t.len() ==> t[i] is Ok
            &&& is_var_item(t[0]) == (s[0] == DELIMITER)
            &&& forall|i: int|
                0 <= i < t.len() - 1 ==> is_var_item(#[trigger] t[i]) != is_var_item(t[i + 1])
        }),
{
    if s[0] == DELIMITER {
        let tail = s.drop_first();
        assert(split_spec(s) =~= scan(tail, Seq::empty(), true));
        assert(delimiter_count(tail) % 2 == 1);
        if tail.len() == 0 {
            assert(delimiter_count(tail) == 0);
        }
        assert(tail[0] == s[1]);
        lemma_scan_alternates(tail, Seq::empty(), true);
    } else {
        lemma_scan_alternates(s, Seq::empty(), false);
    }
}

proof fn lemma_scan_errors(rest: Seq<char>, pending: Seq<char>, in_var: bool)
    ensures
        ({
            let t = scan(rest, pending, in_var);
            if in_var != (delimiter_count(rest) % 2 == 1) {
                &&& t.len() > 0
                &&& t.last() == Err::<EntryView, _>(ExpandableStrSplitError::InvalidFormat)
                &&& forall|i: int| 0 <= i < t.len() - 1 ==> t[i] is Ok
            } else {
                forall|i: int| 0 <= i < t.len() ==> t[i] is Ok
            }
        }),
    decreases rest.len(),
{
    if rest.len() == 0 {
    } else if rest[0] == DELIMITER {
        let t = scan(rest, pending, in_var);
        let e = emit(pending, in_var);
        let u = scan(rest.drop_first(), Seq::empty(), !in_var);
        lemma_scan_errors(rest.drop_first(), Seq::empty(), !in_var);
        assert(t == e + u);
        assert forall|i: int| 0 <= i < t.len() && i != t.len() - 1 implies t[i] is Ok by {
            if i >= e.len() {
                assert(t[i] == u[i - e.len()]);
            }
        }
        if u.len() > 0 {
            assert(t.last() == u.last());
        }
    } else {
        lemma_scan_errors(rest.drop_first(), pending.push(rest[0]), in_var);
    }
}

/// A string with an odd number of delimiters splits into entries followed by
/// one `InvalidFormat`, which is the last item.
pub proof fn lemma_unterminated_variable(s: Seq<char>)
    requires
        delimiter_count(s) % 2 == 1,
    ensures
        ({
            let t = split_spec(s);
            &&& t.len() > 0
            &&& t.last() == Err::<EntryView, _>(ExpandableStrSplitError::InvalidFormat)
            &&& forall|i: int| 0 <= i < t.len() - 1 ==> t[i] is Ok
        }),
{
    lemma_scan_errors(s, Seq::empty(), false);
}

/// A string with an even number of delimiters splits into entries alone.
pub proof fn lemma_terminated_variables(s: Seq<char>)
    requires
        delimiter_count(s) % 2 == 0,
    ensures
        forall|i: int| 0 <= i < split_spec(s).len() ==> split_spec(s)[i] is Ok,
{
    lemma_scan_errors(s, Seq::empty(), false);
}

proof fn lemma_scan_entries_nonempty(rest: Seq<char>, pending: Seq<char>, in_var: bool)
    ensures
        forall|i: int|
            0 <= i < scan(rest, pending, in_var).len() && (#[trigger] scan(
                rest,
                pending,
                in_var,
            )[i]) is Ok ==> entry_text(scan(rest, pending, in_var)[i]->Ok_0).len() > 0,
    decreases rest.len(),
{
    if rest.len() == 0 {
    } else if rest[0] == DELIMITER {
        let t = scan(rest, pending, in_var);
        let e = emit(pending, in_var);
        let u = scan(rest.drop_first(), Seq::empty(), !in_var);
        lemma_scan_entries_nonempty(rest.drop_first(), Seq::empty(), !in_var);
        assert(t == e + u);
        assert forall|i: int| 0 <= i < t.len() && (#[trigger] t[i]) is Ok implies entry_text(
            t[i]->Ok_0,
        ).len() > 0 by {
            if i >= e.len() {
                assert(t[i] == u[i - e.len()]);
            }
        }
    } else {
        lemma_scan_entries_nonempty(rest.drop_first(), pending.push(rest[0]), in_var);
    }
}

/// No entry is empty: an empty region, such as the one between two adjacent
/// delimiters, gives no item.
pub proof fn lemma_entries_nonempty(s: Seq<char>)
    ensures
        forall|i: int|
            0 <= i < split_spec(s).len() && (#[trigger] split_spec(s)[i]) is Ok ==> entry_text(
                split_spec(s)[i]->Ok_0,
            ).len() > 0,
{
    lemma_scan_entries_nonempty(s, Seq::empty(), false);
}

/// Two adjacent delimiters after delimiter-free text `x` end the region of
/// `x` and leave the rest of the string split as it would be on its own.
pub proof fn lemma_adjacent_delimiters(x: Seq<char>, s: Seq<char>)
    requires
        delimiter_count(x) == 0,
    ensures
        split_spec(x + seq![DELIMITER, DELIMITER] + s) == emit(x, false) + split_spec(s),
{
    let pair = seq![DELIMITER, DELIMITER] + s;
    assert(x + seq![DELIMITER, DELIMITER] + s =~= x + pair);
    lemma_scan_plain_prefix(x, pair, Seq::empty(), false);
    assert(Seq::<char>::empty() + x =~= x);
    assert(pair[0] == DELIMITER);
    let one = pair.drop_first();
    assert(one[0] == DELIMITER);
    assert(one.drop_first() =~= s);
    assert(scan(one, Seq::empty(), true) =~= scan(s, Seq::empty(), false));
}

} // verus!
