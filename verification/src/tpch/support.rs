//! What the evaluators share: access to tables, and the building of results.

use crate::error::Error;
use crate::float_bits::{descending, reversed, sort_rank, total_rank};
use crate::group_index::{row_of_key, RowIndex};
use crate::order::{is_stable_order, key_rows};
use crate::table::{column_view, Catalog, QueryResult, ResultColumn, Table};
use crate::text::{append_text, chars_of, string_of};
use vstd::prelude::*;

verus! {

/// The cells of a column.
pub open spec fn col(t: Table, c: int) -> Seq<u64> {
    t.columns@[c]@
}

/// A table that holds at least `n` columns, all of them whole.
pub open spec fn has_columns(t: Table, n: int) -> bool {
    t.wf() && t.columns.len() >= n
}

/// Where the catalog has a table of that name, it holds at least `n` columns.
pub open spec fn table_ok(c: Catalog, name: Seq<char>, n: int) -> bool {
    c.lookup(name) matches Some(t) ==> has_columns(t, n)
}

pub open spec fn found(c: Catalog, name: Seq<char>) -> bool {
    c.lookup(name) is Some
}

/// The table of a name that the catalog is known to have.
pub open spec fn table_of(c: Catalog, name: Seq<char>) -> Table {
    c.lookup(name)->0
}

/// The error for a table that is missing.
pub open spec fn no_table_text(name: Seq<char>) -> Seq<char> {
    "table '"@ + name + "'"@
}

/// The query is refused because something is not there.
pub open spec fn not_found(r: Result<QueryResult, Error>, text: Seq<char>) -> bool {
    r matches Err(e) && e is NotFound && e->NotFound_0@ == text
}

/// The query gives these columns, with so many rows.
pub open spec fn answers(r: Result<QueryResult, Error>, columns: Seq<(Seq<char>, Seq<u64>)>, rows: int) -> bool {
    r matches Ok(q) && q@ == columns && q.row_count == rows && q.bare()
}

/// A table that a query cannot do without.
pub fn need<'a>(catalog: &'a Catalog, name: &str) -> (r: Result<&'a Table, Error>)
    ensures
        match r {
            Ok(t) => catalog.lookup(name@) == Some(*t),
            Err(e) => catalog.lookup(name@) is None && e is NotFound && e->NotFound_0@ == no_table_text(name@),
        },
{
    match catalog.get(name) {
        Some(t) => Ok(t),
        None => {
            let mut text: Vec<char> = Vec::new();
            append_text(&mut text, "table '");
            append_text(&mut text, name);
            append_text(&mut text, "'");
            proof {
                assert(text@ =~= no_table_text(name@));
            }
            Err(Error::NotFound(string_of(&text)))
        },
    }
}

/// The error for something that is not there.
pub fn missing(text: &str) -> (e: Error)
    ensures
        e is NotFound,
        e->NotFound_0@ == text@,
{
    Error::NotFound(text.to_owned())
}

/// The first row that holds `name` gives the key beside it.
pub open spec fn first_key(names: Seq<u64>, keys: Seq<u64>, n: int, name: u64) -> Option<u64>
    decreases n,
{
    if n <= 0 {
        None
    } else {
        match first_key(names, keys, n - 1, name) {
            Some(k) => Some(k),
            None => if names[n - 1] == name {
                Some(keys[n - 1])
            } else {
                None
            },
        }
    }
}

/// Finds the key beside the first row that holds a name.
pub fn find_key(names: &Vec<u64>, keys: &Vec<u64>, name: u64) -> (r: Option<u64>)
    requires
        names.len() == keys.len(),
    ensures
        r == first_key(names@, keys@, names@.len() as int, name),
{
    let mut r: Option<u64> = None;
    let mut i: usize = 0;
    while i < names.len()
        invariant
            names.len() == keys.len(),
            i <= names.len(),
            r == first_key(names@, keys@, i as int, name),
        decreases names.len() - i,
    {
        if r.is_none() && names[i] == name {
            r = Some(keys[i]);
        }
        i = i + 1;
    }
    r
}

/// Marks for the rows whose cell lies from `lo` up to but not including `hi`.
pub open spec fn marks_between(cells: Seq<u64>, lo: u64, hi: u64) -> Seq<bool> {
    Seq::new(cells.len(), |i: int| lo <= cells[i] < hi)
}

pub fn mark_between(cells: &Vec<u64>, lo: u64, hi: u64) -> (m: Vec<bool>)
    ensures
        m@ == marks_between(cells@, lo, hi),
{
    let mut m: Vec<bool> = Vec::new();
    let mut i: usize = 0;
    while i < cells.len()
        invariant
            i <= cells.len(),
            m.len() == i,
            forall|k: int| 0 <= k < i ==> #[trigger] m@[k] == (lo <= cells@[k] < hi),
        decreases cells.len() - i,
    {
        m.push(lo <= cells[i] && cells[i] < hi);
        i = i + 1;
    }
    proof {
        assert(m@ =~= marks_between(cells@, lo, hi));
    }
    m
}

/// Marks for the rows whose cell is `value`.
pub open spec fn marks_equal(cells: Seq<u64>, value: u64) -> Seq<bool> {
    Seq::new(cells.len(), |i: int| cells[i] == value)
}

pub fn mark_equal(cells: &Vec<u64>, value: u64) -> (m: Vec<bool>)
    ensures
        m@ == marks_equal(cells@, value),
{
    let mut m: Vec<bool> = Vec::new();
    let mut i: usize = 0;
    while i < cells.len()
        invariant
            i <= cells.len(),
            m.len() == i,
            forall|k: int| 0 <= k < i ==> #[trigger] m@[k] == (cells@[k] == value),
        decreases cells.len() - i,
    {
        m.push(cells[i] == value);
        i = i + 1;
    }
    proof {
        assert(m@ =~= marks_equal(cells@, value));
    }
    m
}

/// Marks for all of `n` rows.
pub open spec fn all_marked(n: nat) -> Seq<bool> {
    Seq::new(n, |i: int| true)
}

pub fn mark_all(n: usize) -> (m: Vec<bool>)
    ensures
        m@ == all_marked(n as nat),
{
    let mut m: Vec<bool> = Vec::new();
    while m.len() < n
        invariant
            m.len() <= n,
            forall|k: int| 0 <= k < m.len() ==> #[trigger] m@[k],
        decreases n - m.len(),
    {
        m.push(true);
    }
    proof {
        assert(m@ =~= all_marked(n as nat));
    }
    m
}

/// The text begins with `head`.
pub open spec fn begins_with(text: Seq<char>, head: Seq<char>) -> bool {
    text.len() >= head.len() && text.take(head.len() as int) == head
}

/// The text ends with `tail`.
pub open spec fn ends_with(text: Seq<char>, tail: Seq<char>) -> bool {
    text.len() >= tail.len() && text.skip(text.len() - tail.len()) == tail
}

/// Whether `part` stands in `text` at a place.
pub fn stands_here(text: &Vec<char>, part: &Vec<char>, at: usize) -> (b: bool)
    requires
        at + part.len() <= text.len(),
    ensures
        b == (text@.subrange(at as int, at + part@.len()) == part@),
{
    let mut i: usize = 0;
    while i < part.len()
        invariant
            at + part.len() <= text.len(),
            i <= part.len(),
            forall|k: int| 0 <= k < i ==> text@[at + k] == part@[k],
        decreases part.len() - i,
    {
        if text[at + i] != part[i] {
            proof {
                assert(text@.subrange(at as int, at + part@.len())[i as int] != part@[i as int]);
            }
            return false;
        }
        i = i + 1;
    }
    proof {
        assert(text@.subrange(at as int, at + part@.len()) =~= part@);
    }
    true
}

pub fn text_begins_with(text: &str, head: &str) -> (b: bool)
    ensures
        b == begins_with(text@, head@),
{
    let t: Vec<char> = chars_of(text);
    let h: Vec<char> = chars_of(head);
    if t.len() < h.len() {
        return false;
    }
    proof {
        assert(t@.subrange(0, h@.len() as int) =~= t@.take(h@.len() as int));
    }
    stands_here(&t, &h, 0)
}

pub fn text_ends_with(text: &str, tail: &str) -> (b: bool)
    ensures
        b == ends_with(text@, tail@),
{
    let t: Vec<char> = chars_of(text);
    let h: Vec<char> = chars_of(tail);
    if t.len() < h.len() {
        return false;
    }
    let at: usize = t.len() - h.len();
    proof {
        assert(t@.subrange(at as int, at + h@.len()) =~= t@.skip(at as int));
    }
    stands_here(&t, &h, at)
}

/// The first place, from `from` on, where `part` stands in `text`.
pub open spec fn is_first_place(text: Seq<char>, part: Seq<char>, from: int, r: Option<usize>) -> bool {
    match r {
        Some(p) => from <= p && p + part.len() <= text.len() && text.subrange(p as int, p + part.len()) == part
            && forall|q: int|
            #![trigger text.subrange(q, q + part.len())]
            from <= q < p ==> text.subrange(q, q + part.len()) != part,
        None => forall|q: int|
            #![trigger text.subrange(q, q + part.len())]
            from <= q && q + part.len() <= text.len() ==> text.subrange(q, q + part.len()) != part,
    }
}

pub fn find_text(text: &Vec<char>, part: &Vec<char>, from: usize) -> (r: Option<usize>)
    requires
        from <= text.len(),
    ensures
        is_first_place(text@, part@, from as int, r),
{
    let mut at: usize = from;
    while at <= text.len() && part.len() <= text.len() - at
        invariant
            from <= at <= text.len() + 1,
            from <= text.len(),
            forall|q: int|
                #![trigger text@.subrange(q, q + part@.len())]
                from <= q < at && q + part@.len() <= text@.len() ==> text@.subrange(q, q + part@.len()) != part@,
        decreases text.len() + 1 - at,
    {
        if stands_here(text, part, at) {
            return Some(at);
        }
        if at == text.len() {
            return None;
        }
        at = at + 1;
    }
    None
}

/// `part` stands somewhere in `text`.
pub open spec fn has_part(text: Seq<char>, part: Seq<char>) -> bool {
    exists|q: int| #![trigger text.subrange(q, q + part.len())]
        0 <= q && q + part.len() <= text.len() && text.subrange(q, q + part.len()) == part
}

pub fn text_has(text: &str, part: &str) -> (b: bool)
    ensures
        b == has_part(text@, part@),
{
    let t: Vec<char> = chars_of(text);
    let p: Vec<char> = chars_of(part);
    match find_text(&t, &p, 0) {
        Some(q) => {
            proof {
                assert(t@.subrange(q as int, q + p@.len()) == p@);
            }
            true
        },
        None => false,
    }
}

/// Cells taken from `values` in the order of the first `n` entries of `order`.
pub open spec fn picked(values: Seq<u64>, order: Seq<usize>, n: int) -> Seq<u64> {
    Seq::new(n as nat, |i: int| values[order[i] as int])
}

/// The number of rows that a limit leaves.
pub open spec fn limited(n: int, limit: int) -> int {
    if n < limit {
        n
    } else {
        limit
    }
}

/// Takes cells in the order of the first `n` entries of `order`.
pub fn pick(values: &Vec<u64>, order: &Vec<usize>, n: usize) -> (out: Vec<u64>)
    requires
        n <= order.len(),
        forall|i: int| 0 <= i < order.len() ==> #[trigger] order@[i] < values.len(),
    ensures
        out@ == picked(values@, order@, n as int),
{
    let mut out: Vec<u64> = Vec::new();
    let mut i: usize = 0;
    while i < n
        invariant
            i <= n <= order.len(),
            forall|k: int| 0 <= k < order.len() ==> #[trigger] order@[k] < values.len(),
            out.len() == i,
            forall|k: int| 0 <= k < i ==> #[trigger] out@[k] == values@[order@[k] as int],
        decreases n - i,
    {
        out.push(values[order[i]]);
        i = i + 1;
    }
    proof {
        assert(out@ =~= picked(values@, order@, n as int));
    }
    out
}

/// The entries of a stable order are row numbers.
pub proof fn lemma_order_bounds(keys: Seq<Seq<u64>>, order: Seq<usize>)
    requires
        is_stable_order(keys, order),
    ensures
        order.len() == keys.len(),
        forall|i: int| 0 <= i < order.len() ==> #[trigger] order[i] < keys.len(),
{
    assert forall|i: int| 0 <= i < order.len() implies #[trigger] order[i] < keys.len() by {
        assert(order.contains(order[i]));
    }
}

/// Sorting by doubles, the greatest first.
pub open spec fn greatest_first(values: Seq<u64>) -> Seq<Seq<u64>> {
    Seq::new(values.len(), |i: int| seq![descending(total_rank(values[i]))])
}

/// Keys that sort by doubles, the greatest first.
pub fn keys_greatest_first(values: &Vec<u64>) -> (keys: Vec<Vec<u64>>)
    ensures
        key_rows(keys@) == greatest_first(values@),
{
    let mut keys: Vec<Vec<u64>> = Vec::new();
    let mut i: usize = 0;
    while i < values.len()
        invariant
            i <= values.len(),
            keys.len() == i,
            forall|k: int| 0 <= k < i ==> (#[trigger] keys@[k])@ == seq![descending(total_rank(values@[k]))],
        decreases values.len() - i,
    {
        let mut key: Vec<u64> = Vec::new();
        key.push(reversed(sort_rank(values[i])));
        proof {
            assert(key@ =~= seq![descending(total_rank(values@[i as int]))]);
        }
        keys.push(key);
        i = i + 1;
    }
    proof {
        assert(key_rows(keys@) =~= greatest_first(values@));
    }
    keys
}

/// The cells of listed rows.
pub open spec fn cells_of_rows(cells: Seq<u64>, rows: Seq<usize>) -> Seq<u64> {
    Seq::new(rows.len(), |i: int| cells[rows[i] as int])
}

/// Takes the cells of listed rows.
pub fn take_rows(cells: &Vec<u64>, rows: &Vec<usize>) -> (out: Vec<u64>)
    requires
        forall|i: int| 0 <= i < rows.len() ==> #[trigger] rows@[i] < cells.len(),
    ensures
        out@ == cells_of_rows(cells@, rows@),
{
    let mut out: Vec<u64> = Vec::new();
    let mut i: usize = 0;
    while i < rows.len()
        invariant
            forall|k: int| 0 <= k < rows.len() ==> #[trigger] rows@[k] < cells.len(),
            i <= rows.len(),
            out.len() == i,
            forall|k: int| 0 <= k < i ==> #[trigger] out@[k] == cells@[rows@[k] as int],
        decreases rows.len() - i,
    {
        out.push(cells[rows[i]]);
        i = i + 1;
    }
    proof {
        assert(out@ =~= cells_of_rows(cells@, rows@));
    }
    out
}

/// Sorting by doubles, the least first.
pub open spec fn least_first(values: Seq<u64>) -> Seq<Seq<u64>> {
    Seq::new(values.len(), |i: int| seq![total_rank(values[i])])
}

/// Keys that sort by doubles, the least first.
pub fn keys_least_first(values: &Vec<u64>) -> (keys: Vec<Vec<u64>>)
    ensures
        key_rows(keys@) == least_first(values@),
{
    let mut keys: Vec<Vec<u64>> = Vec::new();
    let mut i: usize = 0;
    while i < values.len()
        invariant
            i <= values.len(),
            keys.len() == i,
            forall|k: int| 0 <= k < i ==> (#[trigger] keys@[k])@ == seq![total_rank(values@[k])],
        decreases values.len() - i,
    {
        let mut key: Vec<u64> = Vec::new();
        key.push(sort_rank(values[i]));
        proof {
            assert(key@ =~= seq![total_rank(values@[i as int])]);
        }
        keys.push(key);
        i = i + 1;
    }
    proof {
        assert(key_rows(keys@) =~= least_first(values@));
    }
    keys
}

/// A result column without strings.
pub fn column(name: &str, values: Vec<u64>) -> (c: ResultColumn)
    ensures
        column_view(c) == (name@, values@),
        c.string_values is None,
{
    ResultColumn { name: name.to_owned(), values, string_values: None }
}

/// How many of the first `n` rows are marked.
pub open spec fn marked_before(marks: Seq<bool>, n: int) -> int
    decreases n,
{
    if n <= 0 {
        0
    } else {
        marked_before(marks, n - 1) + (if marks[n - 1] {
            1int
        } else {
            0
        })
    }
}

/// The cells of the marked rows among the first `n`, in order.
pub open spec fn marked_cells(cells: Seq<u64>, marks: Seq<bool>, n: int) -> Seq<u64>
    decreases n,
{
    if n <= 0 {
        Seq::empty()
    } else if marks[n - 1] {
        marked_cells(cells, marks, n - 1).push(cells[n - 1])
    } else {
        marked_cells(cells, marks, n - 1)
    }
}

pub proof fn lemma_marked_cells_len(cells: Seq<u64>, marks: Seq<bool>, n: int)
    requires
        0 <= n,
    ensures
        marked_cells(cells, marks, n).len() == marked_before(marks, n),
        0 <= marked_before(marks, n) <= n,
    decreases n,
{
    if n > 0 {
        lemma_marked_cells_len(cells, marks, n - 1);
    }
}

/// The cells of the marked rows, and for every row how many marked rows come
/// before it.
pub fn take_marked(cells: &Vec<u64>, marks: &Vec<bool>) -> (r: (Vec<u64>, Vec<usize>))
    requires
        cells.len() == marks.len(),
    ensures
        r.0@ == marked_cells(cells@, marks@, marks@.len() as int),
        r.1.len() == marks.len(),
        forall|i: int| 0 <= i < marks.len() ==> #[trigger] r.1@[i] == marked_before(marks@, i),
{
    let mut taken: Vec<u64> = Vec::new();
    let mut before: Vec<usize> = Vec::new();
    let mut i: usize = 0;
    while i < marks.len()
        invariant
            cells.len() == marks.len(),
            i <= marks.len(),
            taken@ == marked_cells(cells@, marks@, i as int),
            before.len() == i,
            forall|k: int| 0 <= k < i ==> #[trigger] before@[k] == marked_before(marks@, k),
        decreases marks.len() - i,
    {
        proof {
            lemma_marked_cells_len(cells@, marks@, i as int);
        }
        before.push(taken.len());
        if marks[i] {
            taken.push(cells[i]);
        }
        i = i + 1;
    }
    (taken, before)
}

/// The cell beside the row of a key, or `other` where the key has no row.
pub open spec fn cell_by_key(keys: Seq<u64>, marks: Seq<bool>, cells: Seq<u64>, k: u64, other: u64) -> u64 {
    match row_of_key(keys, marks, k) {
        Some(r) => cells[r as int],
        None => other,
    }
}

/// The cell of a table beside the row of a key in its first column.
pub open spec fn table_cell(t: Table, c: int, k: u64, other: u64) -> u64 {
    cell_by_key(col(t, 0), all_marked(t.row_count as nat), col(t, c), k, other)
}

/// The cells beside the rows of keys.
pub open spec fn cells_by_key(
    keys: Seq<u64>,
    marks: Seq<bool>,
    cells: Seq<u64>,
    wanted: Seq<u64>,
    other: u64,
) -> Seq<u64> {
    Seq::new(wanted.len(), |i: int| cell_by_key(keys, marks, cells, wanted[i], other))
}

/// The cells of a table beside the rows of keys in its first column.
pub open spec fn table_cells(t: Table, c: int, wanted: Seq<u64>, other: u64) -> Seq<u64> {
    cells_by_key(col(t, 0), all_marked(t.row_count as nat), col(t, c), wanted, other)
}

pub fn look_up(ix: &RowIndex, cells: &Vec<u64>, wanted: &Vec<u64>, other: u64) -> (out: Vec<u64>)
    requires
        ix.wf(),
        ix.marks().len() <= cells.len(),
    ensures
        out@ == cells_by_key(ix.keys(), ix.marks(), cells@, wanted@, other),
{
    let mut out: Vec<u64> = Vec::new();
    let mut i: usize = 0;
    while i < wanted.len()
        invariant
            ix.wf(),
            ix.marks().len() <= cells.len(),
            i <= wanted.len(),
            out.len() == i,
            forall|k: int|
                0 <= k < i ==> #[trigger] out@[k] == cell_by_key(ix.keys(), ix.marks(), cells@, wanted@[k], other),
        decreases wanted.len() - i,
    {
        out.push(
            match ix.find(wanted[i]) {
                Some(r) => cells[r],
                None => other,
            },
        );
        i = i + 1;
    }
    proof {
        assert(out@ =~= cells_by_key(ix.keys(), ix.marks(), cells@, wanted@, other));
    }
    out
}

/// The numbers of the marked rows among the first `n`, in order.
pub open spec fn marked_rows(marks: Seq<bool>, n: int) -> Seq<usize>
    decreases n,
{
    if n <= 0 {
        Seq::empty()
    } else if marks[n - 1] {
        marked_rows(marks, n - 1).push((n - 1) as usize)
    } else {
        marked_rows(marks, n - 1)
    }
}

/// The marked rows are listed, each once and in order, and no others.
pub proof fn marked_rows_are_marked(marks: Seq<bool>, n: int)
    requires
        0 <= n <= marks.len(),
        n <= usize::MAX,
    ensures
        forall|i: int| 0 <= i < marked_rows(marks, n).len() ==> #[trigger] marked_rows(marks, n)[i] < n,
        forall|i: int| 0 <= i < marked_rows(marks, n).len() ==> marks[#[trigger] marked_rows(marks, n)[i] as int],
        forall|i: int, j: int|
            0 <= i < j < marked_rows(marks, n).len() ==> #[trigger] marked_rows(marks, n)[i]
                < #[trigger] marked_rows(marks, n)[j],
        forall|r: usize| r < n && #[trigger] marks[r as int] ==> marked_rows(marks, n).contains(r),
    decreases n,
{
    if n > 0 {
        marked_rows_are_marked(marks, n - 1);
        let before = marked_rows(marks, n - 1);
        let now = marked_rows(marks, n);
        assert forall|r: usize| r < n && #[trigger] marks[r as int] implies now.contains(r) by {
            if r < n - 1 {
                assert(before.contains(r));
                let w = choose|w: int| 0 <= w < before.len() && before[w] == r;
                assert(now[w] == r);
            } else {
                assert(now[before.len() as int] == r);
            }
        }
    }
}

pub fn list_marked(marks: &Vec<bool>) -> (rows: Vec<usize>)
    ensures
        rows@ == marked_rows(marks@, marks@.len() as int),
        forall|i: int| 0 <= i < rows.len() ==> #[trigger] rows@[i] < marks.len(),
{
    let mut rows: Vec<usize> = Vec::new();
    let mut i: usize = 0;
    while i < marks.len()
        invariant
            i <= marks.len(),
            rows@ == marked_rows(marks@, i as int),
            forall|k: int| 0 <= k < rows.len() ==> #[trigger] rows@[k] < marks.len(),
        decreases marks.len() - i,
    {
        if marks[i] {
            rows.push(i);
        }
        i = i + 1;
    }
    rows
}

/// The string of a row of a string column; nothing where the column holds none.
pub open spec fn string_at(t: Table, c: int, i: int) -> Seq<char> {
    match t.string_columns@[c] {
        Some(s) => s.strings@[i]@,
        None => Seq::empty(),
    }
}

/// A key that was found, and is not the one that stands for none.
pub open spec fn is_known(key: Option<u64>) -> bool {
    key matches Some(k) && k != u64::MAX
}

/// Makes a result of its columns.
pub fn result(columns: Vec<ResultColumn>, row_count: usize) -> (r: Result<QueryResult, Error>)
    requires
        forall|c: int| 0 <= c < columns@.len() ==> (#[trigger] columns@[c]).string_values is None,
    ensures
        answers(r, columns@.map_values(|c: ResultColumn| column_view(c)), row_count as int),
{
    Ok(QueryResult { columns, row_count, elapsed_us: 0 })
}

} // verus!
