//! MERGE statements and conversions that give nothing instead of failing.

use crate::float_bits::{is_reader, reads_as};
use crate::hashing::{hash_text, text_hash};
use crate::table::{column_view, QueryResult, ResultColumn};
use crate::text::{
    decimal, decimal_chars, decimal_is_read_back, lowercase, parse_i64, parse_u64, read_i64, read_u64, same_text,
    slice_chars, string_of, to_lowercase, to_uppercase, trim_chars, trimmed, uppercase,
};
use crate::word::{signed_word, word_of};
use vstd::prelude::*;

verus! {

/// What to do with a row.
#[derive(Debug)]
pub enum MergeAction {
    /// Sets columns to values.
    Update(Vec<(String, String)>),
    /// Adds a row with the given columns and values.
    Insert(Vec<String>, Vec<String>),
    /// Drops the row.
    Delete,
}

/// A MERGE statement.
#[derive(Debug)]
pub struct Merge {
    pub target: String,
    /// The source rows: the value of the join column, and the row.
    pub source_rows: Vec<(String, Vec<String>)>,
    pub join_target_col: String,
    pub join_source_col: String,
    pub when_matched: Option<MergeAction>,
    pub when_not_matched_by_source: Option<MergeAction>,
    pub when_not_matched_by_target: Option<MergeAction>,
}

/// How many rows a MERGE touched.
#[derive(Debug, Clone, Copy, PartialEq, Eq, Structural)]
pub struct MergeResult {
    pub inserted: usize,
    pub updated: usize,
    pub deleted: usize,
}

impl Default for MergeResult {
    fn default() -> (r: Self)
        ensures
            r == (MergeResult { inserted: 0, updated: 0, deleted: 0 }),
    {
        MergeResult { inserted: 0, updated: 0, deleted: 0 }
    }
}

/// Reads an unsigned number; white space around it does not matter.
pub fn try_convert_to_u64(s: &str) -> (r: Option<u64>)
    ensures
        r == read_u64(trimmed(s@)),
{
    let word: Vec<char> = trim_chars(s);
    parse_u64(&word)
}

/// Reads a double, as a bit pattern; white space around it does not matter.
pub fn try_convert_to_f64<P: Fn(&str) -> Option<u64>>(s: &str, reader: &P) -> (r: Option<u64>)
    requires
        is_reader(*reader),
    ensures
        r == reads_as(*reader, trimmed(s@)),
{
    let word: String = string_of(&trim_chars(s));
    reader(word.as_str())
}

/// The truth value of a word in lower case.
pub open spec fn word_truth(word: Seq<char>) -> Option<bool> {
    if word == "true"@ || word == "1"@ || word == "yes"@ || word == "on"@ {
        Some(true)
    } else if word == "false"@ || word == "0"@ || word == "no"@ || word == "off"@ {
        Some(false)
    } else {
        None
    }
}

/// Reads a truth value from a word in lower case.
pub fn truth_of_word(word: &str) -> (r: Option<bool>)
    ensures
        r == word_truth(word@),
{
    if same_text(word, "true") || same_text(word, "1") || same_text(word, "yes") || same_text(word, "on") {
        Some(true)
    } else if same_text(word, "false") || same_text(word, "0") || same_text(word, "no") || same_text(word, "off") {
        Some(false)
    } else {
        None
    }
}

/// Reads a truth value; case and white space around it do not matter.
pub fn try_convert_to_bool(s: &str) -> (r: Option<bool>)
    ensures
        r == word_truth(lowercase(trimmed(s@))),
{
    let word: String = string_of(&trim_chars(s));
    let lower: String = to_lowercase(word.as_str());
    truth_of_word(lower.as_str())
}

/// The kinds of values that a text can be cast to.
#[derive(Clone, Copy, Debug, PartialEq, Eq, Structural)]
pub enum CastType {
    Integer,
    Float,
    Boolean,
    Text,
    Unknown,
}

/// The kind of value that a type name in upper case stands for.
pub open spec fn cast_type(name: Seq<char>) -> CastType {
    if name == "INT"@ || name == "INTEGER"@ || name == "BIGINT"@ || name == "SMALLINT"@ || name == "TINYINT"@ {
        CastType::Integer
    } else if name == "FLOAT"@ || name == "REAL"@ || name == "DOUBLE"@ || name == "DECIMAL"@ || name == "NUMERIC"@ {
        CastType::Float
    } else if name == "BIT"@ || name == "BOOLEAN"@ || name == "BOOL"@ {
        CastType::Boolean
    } else if name == "VARCHAR"@ || name == "NVARCHAR"@ || name == "TEXT"@ {
        CastType::Text
    } else {
        CastType::Unknown
    }
}

/// Reads a type name in upper case.
pub fn cast_type_of(name: &str) -> (t: CastType)
    ensures
        t == cast_type(name@),
{
    if same_text(name, "INT") || same_text(name, "INTEGER") || same_text(name, "BIGINT") || same_text(
        name,
        "SMALLINT",
    ) || same_text(name, "TINYINT") {
        CastType::Integer
    } else if same_text(name, "FLOAT") || same_text(name, "REAL") || same_text(name, "DOUBLE") || same_text(
        name,
        "DECIMAL",
    ) || same_text(name, "NUMERIC") {
        CastType::Float
    } else if same_text(name, "BIT") || same_text(name, "BOOLEAN") || same_text(name, "BOOL") {
        CastType::Boolean
    } else if same_text(name, "VARCHAR") || same_text(name, "NVARCHAR") || same_text(name, "TEXT") {
        CastType::Text
    } else {
        CastType::Unknown
    }
}

/// What the caller's writer `w` may give for a text.
pub open spec fn may_write<W: Fn(&str) -> Option<String>>(w: W, text: Seq<char>, r: Option<Seq<char>>) -> bool {
    exists|s: &str, o: Option<String>|
        s@ == text && #[trigger] call_ensures(w, (s,), o) && (match o {
            Some(t) => r == Some(t@),
            None => r is None,
        })
}

/// The double that a text writes, written again by the caller's writer `w`.
pub open spec fn rewritten<W: Fn(&str) -> Option<String>>(w: W, text: Seq<char>) -> Option<Seq<char>> {
    choose|r: Option<Seq<char>>| may_write(w, text, r)
}

/// `w` is a total function of the text it is given.
pub open spec fn is_writer<W: Fn(&str) -> Option<String>>(w: W) -> bool {
    &&& forall|s: &str| #[trigger] call_requires(w, (s,))
    &&& forall|s: &str, o: Option<String>| #[trigger]
        call_ensures(w, (s,), o) ==> (match o {
            Some(t) => rewritten(w, s@) == Some(t@),
            None => rewritten(w, s@) is None,
        })
}

/// A text cast to a kind of value and written again; nothing where it cannot be.
pub open spec fn cast_text<W: Fn(&str) -> Option<String>>(w: W, text: Seq<char>, t: CastType) -> Option<Seq<char>> {
    match t {
        CastType::Integer => match read_u64(trimmed(text)) {
            Some(n) => Some(decimal(n as nat)),
            None => None,
        },
        CastType::Float => rewritten(w, trimmed(text)),
        CastType::Boolean => match word_truth(lowercase(trimmed(text))) {
            Some(b) => Some(if b {
                "1"@
            } else {
                "0"@
            }),
            None => None,
        },
        CastType::Text => Some(text),
        CastType::Unknown => None,
    }
}

/// Casts a text to a kind of value.
pub fn cast_to<W: Fn(&str) -> Option<String>>(s: &str, t: CastType, writer: &W) -> (r: Option<String>)
    requires
        is_writer(*writer),
    ensures
        match r {
            Some(x) => cast_text(*writer, s@, t) == Some(x@),
            None => cast_text(*writer, s@, t) is None,
        },
{
    match t {
        CastType::Integer => match try_convert_to_u64(s) {
            Some(n) => Some(string_of(&decimal_chars(n))),
            None => None,
        },
        CastType::Float => {
            let word: String = string_of(&trim_chars(s));
            writer(word.as_str())
        },
        CastType::Boolean => match try_convert_to_bool(s) {
            Some(b) => if b {
                Some("1".to_owned())
            } else {
                Some("0".to_owned())
            },
            None => None,
        },
        CastType::Text => Some(s.to_owned()),
        CastType::Unknown => None,
    }
}

/// Casts a text to a type given by name; the case of the name does not matter.
/// The caller's writer reads a double and writes it again.
pub fn try_cast<W: Fn(&str) -> Option<String>>(s: &str, target_type: &str, writer: &W) -> (r: Option<String>)
    requires
        is_writer(*writer),
    ensures
        match r {
            Some(x) => cast_text(*writer, s@, cast_type(uppercase(target_type@))) == Some(x@),
            None => cast_text(*writer, s@, cast_type(uppercase(target_type@))) is None,
        },
{
    let name: String = to_uppercase(target_type);
    let t: CastType = cast_type_of(name.as_str());
    cast_to(s, t, writer)
}

/// The first text if the condition holds, else the second.
pub fn iif<'a>(condition: bool, true_val: &'a str, false_val: &'a str) -> (r: &'a str)
    ensures
        r == (if condition {
            true_val
        } else {
            false_val
        }),
{
    if condition {
        true_val
    } else {
        false_val
    }
}

/// The cell that a literal stands for: the hash of a quoted string, else a
/// number, else zero.
pub open spec fn cell_of<P: Fn(&str) -> Option<u64>>(p: P, literal: Seq<char>) -> u64 {
    let t = trimmed(literal);
    if t.len() >= 2 && t[0] == '\'' && t.last() == '\'' {
        text_hash(t.subrange(1, t.len() - 1))
    } else {
        match read_i64(t) {
            Some(n) => signed_word(n),
            None => match read_u64(t) {
                Some(n) => n,
                None => match reads_as(p, t) {
                    Some(bits) => bits,
                    None => 0,
                },
            },
        }
    }
}

/// Turns a literal into a cell.
pub fn parse_cell<P: Fn(&str) -> Option<u64>>(s: &str, reader: &P) -> (c: u64)
    requires
        is_reader(*reader),
    ensures
        c == cell_of(*reader, s@),
{
    let t: Vec<char> = trim_chars(s);
    let n: usize = t.len();
    if n >= 2 && t[0] == '\'' && t[n - 1] == '\'' {
        let inner: String = string_of(&slice_chars(&t, 1, n - 1));
        return hash_text(inner.as_str());
    }
    match parse_i64(&t) {
        Some(v) => {
            return word_of(v);
        },
        None => {},
    }
    match parse_u64(&t) {
        Some(v) => {
            return v;
        },
        None => {},
    }
    let text: String = string_of(&t);
    match reader(text.as_str()) {
        Some(bits) => bits,
        None => 0,
    }
}

/// Columns as names and cells.
pub type Columns = Seq<(Seq<char>, Seq<u64>)>;

/// The place of the first column with a name.
pub open spec fn column_place(cols: Columns, name: Seq<char>) -> Option<int>
    decreases cols.len(),
{
    if cols.len() == 0 {
        None
    } else {
        match column_place(cols.drop_last(), name) {
            Some(i) => Some(i),
            None => if cols.last().0 == name {
                Some(cols.len() - 1)
            } else {
                None
            },
        }
    }
}

/// The cell of a row; zero where the column is too short.
pub open spec fn cell_or_zero(values: Seq<u64>, row: int) -> u64 {
    if row < values.len() {
        values[row]
    } else {
        0
    }
}

/// The first of the first `rows` rows whose cell is `value`.
pub open spec fn matching_row(values: Seq<u64>, rows: int, value: u64) -> Option<int>
    decreases rows,
{
    if rows <= 0 {
        None
    } else {
        match matching_row(values, rows - 1, value) {
            Some(r) => Some(r),
            None => if cell_or_zero(values, rows - 1) == value {
                Some(rows - 1)
            } else {
                None
            },
        }
    }
}

/// The columns after the first `n` assignments have been made to a row.
pub open spec fn assigned<P: Fn(&str) -> Option<u64>>(
    p: P,
    cols: Columns,
    assigns: Seq<(String, String)>,
    row: int,
    n: int,
) -> Columns
    decreases n,
{
    if n <= 0 {
        cols
    } else {
        let before = assigned(p, cols, assigns, row, n - 1);
        match column_place(before, assigns[n - 1].0@) {
            Some(c) => if row < before[c].1.len() {
                before.update(c, (before[c].0, before[c].1.update(row, cell_of(p, assigns[n - 1].1@))))
            } else {
                before
            },
            None => before,
        }
    }
}

/// The places of the first `n` named columns, of those that exist.
pub open spec fn named_places(cols: Columns, names: Seq<String>, n: int) -> Seq<int>
    decreases n,
{
    if n <= 0 {
        Seq::empty()
    } else {
        match column_place(cols, names[n - 1]@) {
            Some(c) => named_places(cols, names, n - 1).push(c),
            None => named_places(cols, names, n - 1),
        }
    }
}

/// The columns that an insertion fills: those named, or all where none is.
pub open spec fn insert_places(cols: Columns, names: Seq<String>) -> Seq<int> {
    if names.len() == 0 {
        Seq::new(cols.len(), |i: int| i)
    } else {
        named_places(cols, names, names.len() as int)
    }
}

/// The columns after the first `n` places have got a new cell at their end: the
/// value given for the place, or zero.
pub open spec fn extended<P: Fn(&str) -> Option<u64>>(
    p: P,
    cols: Columns,
    places: Seq<int>,
    vals: Seq<String>,
    n: int,
) -> Columns
    decreases n,
{
    if n <= 0 {
        cols
    } else {
        let before = extended(p, cols, places, vals, n - 1);
        let c = places[n - 1];
        let v = if n - 1 < vals.len() {
            cell_of(p, vals[n - 1]@)
        } else {
            0
        };
        before.update(c, (before[c].0, before[c].1.push(v)))
    }
}

/// A MERGE in progress.
pub struct MergeState {
    pub cols: Columns,
    pub rows: int,
    /// The rows that have a source row: those matched, and those inserted.
    pub matched: Seq<bool>,
    /// The rows that a match is to delete.
    pub dropped: Seq<bool>,
    pub inserted: int,
    pub updated: int,
}

/// The state after one source row whose join value is `value`.
pub open spec fn merge_step<P: Fn(&str) -> Option<u64>>(
    p: P,
    merge: Merge,
    join: int,
    s: MergeState,
    value: u64,
) -> MergeState {
    match matching_row(s.cols[join].1, s.rows, value) {
        Some(row) => {
            let hit = MergeState { matched: s.matched.update(row, true), ..s };
            match merge.when_matched {
                Some(MergeAction::Update(assigns)) => MergeState {
                    cols: assigned(p, s.cols, assigns@, row, assigns@.len() as int),
                    updated: s.updated + 1,
                    ..hit
                },
                Some(MergeAction::Delete) => MergeState { dropped: s.dropped.update(row, true), ..hit },
                _ => hit,
            }
        },
        None => match merge.when_not_matched_by_target {
            Some(MergeAction::Insert(names, vals)) => {
                let places = insert_places(s.cols, names@);
                MergeState {
                    cols: extended(p, s.cols, places, vals@, places.len() as int),
                    rows: s.rows + 1,
                    matched: s.matched.push(true),
                    dropped: s.dropped.push(false),
                    inserted: s.inserted + 1,
                    ..s
                }
            },
            _ => s,
        },
    }
}

/// The state after the first `n` source rows.
pub open spec fn merged<P: Fn(&str) -> Option<u64>>(
    p: P,
    merge: Merge,
    join: int,
    start: MergeState,
    n: int,
) -> MergeState
    decreases n,
{
    if n <= 0 {
        start
    } else {
        merge_step(
            p,
            merge,
            join,
            merged(p, merge, join, start, n - 1),
            cell_of(p, merge.source_rows@[n - 1].0@),
        )
    }
}

pub open spec fn none_marked(rows: int) -> Seq<bool> {
    Seq::new(rows as nat, |i: int| false)
}

/// The state before the first source row.
pub open spec fn merge_start(cols: Columns, rows: int) -> MergeState {
    MergeState { cols, rows, matched: none_marked(rows), dropped: none_marked(rows), inserted: 0, updated: 0 }
}

/// An action deletes rows.
pub open spec fn deletes(action: Option<MergeAction>) -> bool {
    action matches Some(MergeAction::Delete)
}

/// The rows that stay: those that no match deletes and that have a source row,
/// where the others are to go.
pub open spec fn staying(merge: Merge, matched: Seq<bool>, dropped: Seq<bool>) -> Seq<bool> {
    Seq::new(matched.len(), |i: int| !dropped[i] && (matched[i] || !deletes(merge.when_not_matched_by_source)))
}

/// The cells of the marked rows, among the first `n`.
pub open spec fn kept_cells(values: Seq<u64>, keep: Seq<bool>, n: int) -> Seq<u64>
    decreases n,
{
    if n <= 0 {
        Seq::empty()
    } else if keep[n - 1] && n - 1 < values.len() {
        kept_cells(values, keep, n - 1).push(values[n - 1])
    } else {
        kept_cells(values, keep, n - 1)
    }
}

/// How many of the first `n` rows are not marked.
pub open spec fn unmarked(marks: Seq<bool>, n: int) -> int
    decreases n,
{
    if n <= 0 {
        0
    } else {
        unmarked(marks, n - 1) + (if marks[n - 1] {
            0int
        } else {
            1
        })
    }
}

/// The columns with only the marked rows.
pub open spec fn only_kept(cols: Columns, keep: Seq<bool>) -> Columns {
    Seq::new(cols.len(), |c: int| (cols[c].0, kept_cells(cols[c].1, keep, keep.len() as int)))
}

/// What a MERGE makes of columns and a row count.
pub open spec fn merge_outcome<P: Fn(&str) -> Option<u64>>(
    p: P,
    merge: Merge,
    cols: Columns,
    rows: int,
) -> (Columns, int, int, int, int) {
    match column_place(cols, merge.join_target_col@) {
        None => (cols, rows, 0, 0, 0),
        Some(join) => {
            let end = merged(p, merge, join, merge_start(cols, rows), merge.source_rows@.len() as int);
            if deletes(merge.when_matched) || deletes(merge.when_not_matched_by_source) {
                let keep = staying(merge, end.matched, end.dropped);
                let deleted = unmarked(keep, keep.len() as int);
                (only_kept(end.cols, keep), end.rows - deleted, end.inserted, end.updated, deleted)
            } else {
                (end.cols, end.rows, end.inserted, end.updated, 0)
            }
        },
    }
}

fn find_column(columns: &Vec<ResultColumn>, name: &str) -> (r: Option<usize>)
    ensures
        match r {
            Some(i) => i < columns.len() && column_place(columns_view(columns@), name@) == Some(i as int),
            None => column_place(columns_view(columns@), name@) is None,
        },
{
    let ghost cv = columns_view(columns@);
    let mut i: usize = 0;
    while i < columns.len()
        invariant
            i <= columns.len(),
            cv == columns_view(columns@),
            column_place(cv.take(i as int), name@) is None,
        decreases columns.len() - i,
    {
        proof {
            assert(cv.take(i + 1).drop_last() =~= cv.take(i as int));
            assert(cv.take(i + 1).last() == cv[i as int]);
        }
        if same_text(columns[i].name.as_str(), name) {
            proof {
                lemma_column_place_extends(cv, name@, i + 1);
            }
            return Some(i);
        }
        i = i + 1;
    }
    proof {
        assert(cv.take(i as int) =~= cv);
    }
    None
}

/// Result columns as names and cells.
pub open spec fn columns_view(columns: Seq<ResultColumn>) -> Columns {
    columns.map_values(|c: ResultColumn| column_view(c))
}

proof fn lemma_column_place_extends(cols: Columns, name: Seq<char>, n: int)
    requires
        0 <= n <= cols.len(),
        column_place(cols.take(n), name) is Some,
    ensures
        column_place(cols, name) == column_place(cols.take(n), name),
    decreases cols.len() - n,
{
    if n < cols.len() {
        assert(cols.take(n + 1).drop_last() =~= cols.take(n));
        lemma_column_place_extends(cols, name, n + 1);
    } else {
        assert(cols.take(n) =~= cols);
    }
}

/// The columns have the same names and strings.
pub open spec fn same_frame(a: Seq<ResultColumn>, b: Seq<ResultColumn>) -> bool {
    &&& a.len() == b.len()
    &&& forall|c: int|
        0 <= c < a.len() ==> (#[trigger] a[c]).name == b[c].name && a[c].string_values == b[c].string_values
}

fn find_row(target: &QueryResult, join: usize, value: u64) -> (r: Option<usize>)
    requires
        join < target.columns.len(),
    ensures
        match r {
            Some(row) => row < target.row_count && matching_row(
                target.columns@[join as int].values@,
                target.row_count as int,
                value,
            ) == Some(row as int),
            None => matching_row(target.columns@[join as int].values@, target.row_count as int, value) is None,
        },
{
    let ghost values = target.columns@[join as int].values@;
    let mut row: usize = 0;
    while row < target.row_count
        invariant
            join < target.columns.len(),
            values == target.columns@[join as int].values@,
            row <= target.row_count,
            matching_row(values, row as int, value) is None,
        decreases target.row_count - row,
    {
        let column: &Vec<u64> = &target.columns[join].values;
        let cell: u64 = if row < column.len() {
            column[row]
        } else {
            0
        };
        if cell == value {
            proof {
                lemma_matching_row_extends(values, row + 1, target.row_count as int, value);
            }
            return Some(row);
        }
        row = row + 1;
    }
    None
}

proof fn lemma_matching_row_extends(values: Seq<u64>, n: int, rows: int, value: u64)
    requires
        0 <= n <= rows,
        matching_row(values, n, value) is Some,
    ensures
        matching_row(values, rows, value) == matching_row(values, n, value),
    decreases rows - n,
{
    if n < rows {
        lemma_matching_row_extends(values, n + 1, rows, value);
    }
}

fn assign_row<P: Fn(&str) -> Option<u64>>(
    target: &mut QueryResult,
    assigns: &Vec<(String, String)>,
    row: usize,
    reader: &P,
)
    requires
        is_reader(*reader),
    ensures
        same_frame(final(target).columns@, old(target).columns@),
        final(target).row_count == old(target).row_count,
        final(target).elapsed_us == old(target).elapsed_us,
        columns_view(final(target).columns@) == assigned(
            *reader,
            columns_view(old(target).columns@),
            assigns@,
            row as int,
            assigns@.len() as int,
        ),
{
    let ghost start = columns_view(target.columns@);
    let mut i: usize = 0;
    while i < assigns.len()
        invariant
            is_reader(*reader),
            i <= assigns.len(),
            same_frame(target.columns@, old(target).columns@),
            target.row_count == old(target).row_count,
            target.elapsed_us == old(target).elapsed_us,
            columns_view(target.columns@) == assigned(*reader, start, assigns@, row as int, i as int),
        decreases assigns.len() - i,
    {
        let ghost before = columns_view(target.columns@);
        match find_column(&target.columns, assigns[i].0.as_str()) {
            Some(c) => {
                if row < target.columns[c].values.len() {
                    let v: u64 = parse_cell(assigns[i].1.as_str(), reader);
                    target.columns[c].values[row] = v;
                    proof {
                        assert(columns_view(target.columns@) =~= before.update(
                            c as int,
                            (before[c as int].0, before[c as int].1.update(row as int, v)),
                        ));
                    }
                }
            },
            None => {},
        }
        i = i + 1;
    }
}

fn places_to_fill(target: &QueryResult, names: &Vec<String>) -> (places: Vec<usize>)
    ensures
        places@.map_values(|c: usize| c as int) == insert_places(columns_view(target.columns@), names@),
        forall|i: int| 0 <= i < places.len() ==> #[trigger] places@[i] < target.columns.len(),
{
    let ghost cv = columns_view(target.columns@);
    let mut places: Vec<usize> = Vec::new();
    let mut i: usize = 0;
    if names.len() == 0 {
        while i < target.columns.len()
            invariant
                i <= target.columns.len(),
                places.len() == i,
                forall|k: int| 0 <= k < i ==> #[trigger] places@[k] == k,
            decreases target.columns.len() - i,
        {
            places.push(i);
            i = i + 1;
        }
        proof {
            assert(places@.map_values(|c: usize| c as int) =~= insert_places(cv, names@));
        }
    } else {
        proof {
            assert(places@.map_values(|c: usize| c as int) =~= named_places(cv, names@, 0));
        }
        while i < names.len()
            invariant
                i <= names.len(),
                cv == columns_view(target.columns@),
                places@.map_values(|c: usize| c as int) == named_places(cv, names@, i as int),
                forall|k: int| 0 <= k < places.len() ==> #[trigger] places@[k] < target.columns.len(),
            decreases names.len() - i,
        {
            let ghost before = places@;
            match find_column(&target.columns, names[i].as_str()) {
                Some(c) => {
                    places.push(c);
                    proof {
                        assert(places@.map_values(|c: usize| c as int) =~= before.map_values(
                            |c: usize| c as int,
                        ).push(c as int));
                    }
                },
                None => {},
            }
            i = i + 1;
        }
    }
    places
}

fn insert_row<P: Fn(&str) -> Option<u64>>(
    target: &mut QueryResult,
    names: &Vec<String>,
    vals: &Vec<String>,
    reader: &P,
)
    requires
        is_reader(*reader),
    ensures
        same_frame(final(target).columns@, old(target).columns@),
        final(target).row_count == old(target).row_count,
        final(target).elapsed_us == old(target).elapsed_us,
        ({
            let cv = columns_view(old(target).columns@);
            let places = insert_places(cv, names@);
            columns_view(final(target).columns@) == extended(*reader, cv, places, vals@, places.len() as int)
        }),
{
    let ghost start = columns_view(target.columns@);
    let places: Vec<usize> = places_to_fill(target, names);
    let ghost pv = places@.map_values(|c: usize| c as int);
    let mut i: usize = 0;
    while i < places.len()
        invariant
            is_reader(*reader),
            i <= places.len(),
            pv == places@.map_values(|c: usize| c as int),
            forall|k: int| 0 <= k < places.len() ==> #[trigger] places@[k] < target.columns.len(),
            same_frame(target.columns@, old(target).columns@),
            target.row_count == old(target).row_count,
            target.elapsed_us == old(target).elapsed_us,
            columns_view(target.columns@) == extended(*reader, start, pv, vals@, i as int),
        decreases places.len() - i,
    {
        let ghost before = columns_view(target.columns@);
        let c: usize = places[i];
        let v: u64 = if i < vals.len() {
            parse_cell(vals[i].as_str(), reader)
        } else {
            0
        };
        target.columns[c].values.push(v);
        proof {
            assert(pv[i as int] == c);
            assert(columns_view(target.columns@) =~= before.update(
                c as int,
                (before[c as int].0, before[c as int].1.push(v)),
            ));
        }
        i = i + 1;
    }
}

fn keep_marked(target: &mut QueryResult, keep: &Vec<bool>)
    ensures
        same_frame(final(target).columns@, old(target).columns@),
        final(target).row_count == old(target).row_count,
        final(target).elapsed_us == old(target).elapsed_us,
        columns_view(final(target).columns@) == only_kept(columns_view(old(target).columns@), keep@),
{
    let mut c: usize = 0;
    while c < target.columns.len()
        invariant
            c <= target.columns.len(),
            same_frame(target.columns@, old(target).columns@),
            target.row_count == old(target).row_count,
            target.elapsed_us == old(target).elapsed_us,
            forall|k: int|
                0 <= k < c ==> (#[trigger] target.columns@[k]).values@ == kept_cells(
                    old(target).columns@[k].values@,
                    keep@,
                    keep@.len() as int,
                ),
            forall|k: int| c <= k < target.columns.len() ==> #[trigger] target.columns@[k] == old(target).columns@[k],
        decreases target.columns.len() - c,
    {
        let ghost values = target.columns@[c as int].values@;
        let mut kept: Vec<u64> = Vec::new();
        let mut i: usize = 0;
        while i < keep.len()
            invariant
                c < target.columns.len(),
                values == target.columns@[c as int].values@,
                i <= keep.len(),
                kept@ == kept_cells(values, keep@, i as int),
            decreases keep.len() - i,
        {
            if keep[i] && i < target.columns[c].values.len() {
                kept.push(target.columns[c].values[i]);
            }
            i = i + 1;
        }
        target.columns[c].values = kept;
        c = c + 1;
    }
    proof {
        assert(columns_view(target.columns@) =~= only_kept(columns_view(old(target).columns@), keep@));
    }
}

fn count_unmarked(marks: &Vec<bool>) -> (n: usize)
    ensures
        n == unmarked(marks@, marks@.len() as int),
        n <= marks.len(),
{
    let mut n: usize = 0;
    let mut i: usize = 0;
    while i < marks.len()
        invariant
            i <= marks.len(),
            n <= i,
            n == unmarked(marks@, i as int),
        decreases marks.len() - i,
    {
        if !marks[i] {
            n = n + 1;
        }
        i = i + 1;
    }
    n
}

/// Goes through the source rows. Gives the rows that have a source row, those
/// that a match deletes, and the counts so far.
fn merge_rows<P: Fn(&str) -> Option<u64>>(
    target: &mut QueryResult,
    merge: &Merge,
    join: usize,
    reader: &P,
) -> (r: (Vec<bool>, Vec<bool>, MergeResult))
    requires
        is_reader(*reader),
        join < old(target).columns.len(),
        old(target).row_count + merge.source_rows@.len() <= usize::MAX,
    ensures
        same_frame(final(target).columns@, old(target).columns@),
        final(target).elapsed_us == old(target).elapsed_us,
        r.0.len() == final(target).row_count,
        r.1.len() == final(target).row_count,
        merged(
            *reader,
            *merge,
            join as int,
            merge_start(columns_view(old(target).columns@), old(target).row_count as int),
            merge.source_rows@.len() as int,
        ) == (MergeState {
            cols: columns_view(final(target).columns@),
            rows: final(target).row_count as int,
            matched: r.0@,
            dropped: r.1@,
            inserted: r.2.inserted as int,
            updated: r.2.updated as int,
        }),
{
    let mut result: MergeResult = MergeResult::default();
    let rows: usize = target.row_count;
    let ghost start = merge_start(columns_view(target.columns@), rows as int);
    let mut matched: Vec<bool> = Vec::new();
    let mut dropped: Vec<bool> = Vec::new();
    while matched.len() < rows
        invariant
            matched.len() <= rows,
            dropped.len() == matched.len(),
            forall|k: int| 0 <= k < matched.len() ==> !#[trigger] matched@[k],
            forall|k: int| 0 <= k < dropped.len() ==> !#[trigger] dropped@[k],
        decreases rows - matched.len(),
    {
        matched.push(false);
        dropped.push(false);
    }
    proof {
        assert(matched@ =~= start.matched);
        assert(dropped@ =~= start.dropped);
    }
    let mut k: usize = 0;
    while k < merge.source_rows.len()
        invariant
            is_reader(*reader),
            k <= merge.source_rows.len(),
            join < target.columns.len(),
            same_frame(target.columns@, old(target).columns@),
            target.elapsed_us == old(target).elapsed_us,
            rows + merge.source_rows@.len() <= usize::MAX,
            matched.len() == target.row_count,
            dropped.len() == target.row_count,
            rows <= target.row_count <= rows + k,
            result.inserted == target.row_count - rows,
            result.updated <= k,
            merged(*reader, *merge, join as int, start, k as int) == (MergeState {
                cols: columns_view(target.columns@),
                rows: target.row_count as int,
                matched: matched@,
                dropped: dropped@,
                inserted: result.inserted as int,
                updated: result.updated as int,
            }),
        decreases merge.source_rows.len() - k,
    {
        let value: u64 = parse_cell(merge.source_rows[k].0.as_str(), reader);
        proof {
            let s = merged(*reader, *merge, join as int, start, k as int);
            assert(s.cols[join as int].1 == target.columns@[join as int].values@);
        }
        match find_row(target, join, value) {
            Some(row) => {
                matched.set(row, true);
                match &merge.when_matched {
                    Some(MergeAction::Update(assigns)) => {
                        assign_row(target, assigns, row, reader);
                        result.updated = result.updated + 1;
                    },
                    Some(MergeAction::Delete) => {
                        dropped.set(row, true);
                    },
                    _ => {},
                }
            },
            None => {
                match &merge.when_not_matched_by_target {
                    Some(MergeAction::Insert(names, vals)) => {
                        insert_row(target, names, vals, reader);
                        target.row_count = target.row_count + 1;
                        matched.push(true);
                        dropped.push(false);
                        result.inserted = result.inserted + 1;
                    },
                    _ => {},
                }
            },
        }
        k = k + 1;
    }
    (matched, dropped, result)
}

fn is_delete(action: &Option<MergeAction>) -> (b: bool)
    ensures
        b == deletes(*action),
{
    match action {
        Some(MergeAction::Delete) => true,
        _ => false,
    }
}

/// The rows that stay.
fn mark_staying(merge: &Merge, matched: &Vec<bool>, dropped: &Vec<bool>) -> (keep: Vec<bool>)
    requires
        matched.len() == dropped.len(),
    ensures
        keep@ == staying(*merge, matched@, dropped@),
{
    let all: bool = !is_delete(&merge.when_not_matched_by_source);
    let mut keep: Vec<bool> = Vec::new();
    while keep.len() < matched.len()
        invariant
            matched.len() == dropped.len(),
            keep.len() <= matched.len(),
            all == !deletes(merge.when_not_matched_by_source),
            forall|i: int|
                0 <= i < keep.len() ==> #[trigger] keep@[i] == (!dropped@[i] && (matched@[i] || all)),
        decreases matched.len() - keep.len(),
    {
        let i: usize = keep.len();
        keep.push(!dropped[i] && (matched[i] || all));
    }
    proof {
        assert(keep@ =~= staying(*merge, matched@, dropped@));
    }
    keep
}

/// Carries out a MERGE on a result.
///
/// Each source row acts on the first target row whose join cell equals its
/// value: the row is updated or deleted, as the statement says. Where there is
/// none, a row is inserted. Afterwards the rows without a source row are
/// dropped, if the statement says so.
pub fn execute_merge<P: Fn(&str) -> Option<u64>>(target: &mut QueryResult, merge: &Merge, reader: &P) -> (r: MergeResult)
    requires
        is_reader(*reader),
        old(target).row_count + merge.source_rows@.len() <= usize::MAX,
    ensures
        same_frame(final(target).columns@, old(target).columns@),
        final(target).elapsed_us == old(target).elapsed_us,
        (
            columns_view(final(target).columns@),
            final(target).row_count as int,
            r.inserted as int,
            r.updated as int,
            r.deleted as int,
        ) == merge_outcome(*reader, *merge, columns_view(old(target).columns@), old(target).row_count as int),
{
    match find_column(&target.columns, merge.join_target_col.as_str()) {
        Some(join) => {
            let (matched, dropped, mut result) = merge_rows(target, merge, join, reader);
            result.deleted = 0;
            if is_delete(&merge.when_matched) || is_delete(&merge.when_not_matched_by_source) {
                let keep: Vec<bool> = mark_staying(merge, &matched, &dropped);
                let deleted: usize = count_unmarked(&keep);
                keep_marked(target, &keep);
                target.row_count = target.row_count - deleted;
                result.deleted = deleted;
            }
            result
        },
        None => MergeResult::default(),
    }
}

proof fn lemma_matching_row_within(values: Seq<u64>, rows: int, value: u64)
    ensures
        matching_row(values, rows, value) matches Some(r) ==> 0 <= r < rows && cell_or_zero(values, r) == value
            && forall|q: int| 0 <= q < r ==> cell_or_zero(values, q) != value,
        matching_row(values, rows, value) is None ==> forall|q: int|
            0 <= q < rows ==> #[trigger] cell_or_zero(values, q) != value,
    decreases rows,
{
    if rows > 0 {
        lemma_matching_row_within(values, rows - 1, value);
    }
}

/// A source row updates or inserts at most one row, never both. Rows are
/// accounted for: what there is afterwards is what there was, plus the
/// inserted, less the deleted.
pub proof fn merge_accounts_for_rows<P: Fn(&str) -> Option<u64>>(p: P, merge: Merge, cols: Columns, rows: int)
    requires
        rows >= 0,
    ensures
        ({
            let (_, after, inserted, updated, deleted) = merge_outcome(p, merge, cols, rows);
            &&& after == rows + inserted - deleted
            &&& inserted >= 0
            &&& updated >= 0
            &&& inserted + updated <= merge.source_rows@.len()
            &&& 0 <= deleted <= rows + inserted
        }),
{
    if let Some(join) = column_place(cols, merge.join_target_col@) {
        lemma_merged_counts(p, merge, join, merge_start(cols, rows), merge.source_rows@.len() as int);
        let end = merged(p, merge, join, merge_start(cols, rows), merge.source_rows@.len() as int);
        let keep = staying(merge, end.matched, end.dropped);
        lemma_unmarked_bounds(keep, keep.len() as int);
    }
}

proof fn lemma_merged_counts<P: Fn(&str) -> Option<u64>>(p: P, merge: Merge, join: int, start: MergeState, n: int)
    requires
        0 <= n <= merge.source_rows@.len(),
        start.inserted == 0,
        start.updated == 0,
        start.matched.len() == start.rows,
        start.dropped.len() == start.rows,
    ensures
        ({
            let s = merged(p, merge, join, start, n);
            &&& s.rows == start.rows + s.inserted
            &&& s.inserted >= 0
            &&& s.updated >= 0
            &&& s.inserted + s.updated <= n
            &&& s.matched.len() == s.rows
            &&& s.dropped.len() == s.rows
        }),
    decreases n,
{
    if n > 0 {
        lemma_merged_counts(p, merge, join, start, n - 1);
        let s = merged(p, merge, join, start, n - 1);
        lemma_matching_row_within(s.cols[join].1, s.rows, cell_of(p, merge.source_rows@[n - 1].0@));
    }
}

/// How often a place stands among the first `n`.
pub open spec fn times(places: Seq<int>, c: int, n: int) -> nat
    decreases n,
{
    if n <= 0 {
        0
    } else {
        times(places, c, n - 1) + (if places[n - 1] == c {
            1nat
        } else {
            0nat
        })
    }
}

/// An insertion gives every column one cell: it names none, or each one once.
pub open spec fn fills_every_column(cols: Columns, action: Option<MergeAction>) -> bool {
    action matches Some(MergeAction::Insert(names, _)) ==> (names@.len() == 0 || forall|c: int|
        0 <= c < cols.len() ==> #[trigger] times(
            named_places(cols, names@, names@.len() as int),
            c,
            named_places(cols, names@, names@.len() as int).len() as int,
        ) == 1)
}

/// Every column has a cell for each row.
pub open spec fn is_whole(cols: Columns, rows: int) -> bool {
    forall|c: int| 0 <= c < cols.len() ==> (#[trigger] cols[c]).1.len() == rows
}

/// The columns have the same names, in the same order.
pub open spec fn same_names(a: Columns, b: Columns) -> bool {
    a.len() == b.len() && forall|c: int| 0 <= c < a.len() ==> (#[trigger] a[c]).0 == b[c].0
}

proof fn lemma_place_by_name(a: Columns, b: Columns, name: Seq<char>)
    requires
        same_names(a, b),
    ensures
        column_place(a, name) == column_place(b, name),
        column_place(a, name) matches Some(c) ==> 0 <= c < a.len(),
    decreases a.len(),
{
    if a.len() > 0 {
        lemma_place_by_name(a.drop_last(), b.drop_last(), name);
    }
}

proof fn lemma_places_by_name(a: Columns, b: Columns, names: Seq<String>, n: int)
    requires
        same_names(a, b),
        0 <= n <= names.len(),
    ensures
        named_places(a, names, n) == named_places(b, names, n),
        forall|i: int| 0 <= i < named_places(a, names, n).len() ==> 0 <= #[trigger] named_places(a, names, n)[i] < a.len(),
    decreases n,
{
    if n > 0 {
        lemma_places_by_name(a, b, names, n - 1);
        lemma_place_by_name(a, b, names[n - 1]@);
    }
}

proof fn lemma_assigned_frame<P: Fn(&str) -> Option<u64>>(
    p: P,
    cols: Columns,
    assigns: Seq<(String, String)>,
    row: int,
    n: int,
)
    requires
        0 <= n <= assigns.len(),
        row >= 0,
    ensures
        same_names(assigned(p, cols, assigns, row, n), cols),
        forall|c: int| 0 <= c < cols.len() ==> (#[trigger] assigned(p, cols, assigns, row, n)[c]).1.len() == cols[c].1.len(),
    decreases n,
{
    if n > 0 {
        lemma_assigned_frame(p, cols, assigns, row, n - 1);
        let before = assigned(p, cols, assigns, row, n - 1);
        lemma_place_by_name(before, before, assigns[n - 1].0@);
    }
}

proof fn lemma_extended_frame<P: Fn(&str) -> Option<u64>>(p: P, cols: Columns, places: Seq<int>, vals: Seq<String>, n: int)
    requires
        0 <= n <= places.len(),
        forall|i: int| 0 <= i < places.len() ==> 0 <= #[trigger] places[i] < cols.len(),
    ensures
        same_names(extended(p, cols, places, vals, n), cols),
        forall|c: int|
            0 <= c < cols.len() ==> (#[trigger] extended(p, cols, places, vals, n)[c]).1.len() == cols[c].1.len() + times(
                places,
                c,
                n,
            ),
    decreases n,
{
    if n > 0 {
        lemma_extended_frame(p, cols, places, vals, n - 1);
    }
}

proof fn lemma_times_in_order(len: nat, c: int, n: int)
    requires
        0 <= n <= len,
    ensures
        times(Seq::new(len, |i: int| i), c, n) == (if 0 <= c < n {
            1nat
        } else {
            0nat
        }),
    decreases n,
{
    if n > 0 {
        lemma_times_in_order(len, c, n - 1);
    }
}

proof fn lemma_kept_len(values: Seq<u64>, keep: Seq<bool>, n: int)
    requires
        0 <= n <= keep.len(),
        n <= values.len(),
    ensures
        kept_cells(values, keep, n).len() == n - unmarked(keep, n),
    decreases n,
{
    if n > 0 {
        lemma_kept_len(values, keep, n - 1);
    }
}

proof fn lemma_merged_whole<P: Fn(&str) -> Option<u64>>(p: P, merge: Merge, join: int, cols: Columns, rows: int, n: int)
    requires
        0 <= n <= merge.source_rows@.len(),
        rows >= 0,
        0 <= join < cols.len(),
        is_whole(cols, rows),
        fills_every_column(cols, merge.when_not_matched_by_target),
    ensures
        ({
            let s = merged(p, merge, join, merge_start(cols, rows), n);
            same_names(s.cols, cols) && is_whole(s.cols, s.rows)
        }),
    decreases n,
{
    if n > 0 {
        lemma_merged_whole(p, merge, join, cols, rows, n - 1);
        let s = merged(p, merge, join, merge_start(cols, rows), n - 1);
        let value = cell_of(p, merge.source_rows@[n - 1].0@);
        lemma_matching_row_within(s.cols[join].1, s.rows, value);
        match matching_row(s.cols[join].1, s.rows, value) {
            Some(row) => {
                if let Some(MergeAction::Update(assigns)) = merge.when_matched {
                    lemma_assigned_frame(p, s.cols, assigns@, row, assigns@.len() as int);
                }
            },
            None => {
                if let Some(MergeAction::Insert(names, vals)) = merge.when_not_matched_by_target {
                    let places = insert_places(s.cols, names@);
                    lemma_places_by_name(s.cols, cols, names@, names@.len() as int);
                    lemma_extended_frame(p, s.cols, places, vals@, places.len() as int);
                    assert forall|c: int| 0 <= c < s.cols.len() implies #[trigger] times(places, c, places.len() as int)
                        == 1 by {
                        if names@.len() == 0 {
                            lemma_times_in_order(s.cols.len(), c, s.cols.len() as int);
                        }
                    }
                }
            },
        }
    }
}

/// A MERGE keeps the columns, their names and their order, and leaves every
/// column with a cell for each row.
pub proof fn merge_keeps_columns_whole<P: Fn(&str) -> Option<u64>>(p: P, merge: Merge, cols: Columns, rows: int)
    requires
        rows >= 0,
        is_whole(cols, rows),
        fills_every_column(cols, merge.when_not_matched_by_target),
    ensures
        same_names(merge_outcome(p, merge, cols, rows).0, cols),
        is_whole(merge_outcome(p, merge, cols, rows).0, merge_outcome(p, merge, cols, rows).1),
{
    lemma_place_by_name(cols, cols, merge.join_target_col@);
    if let Some(join) = column_place(cols, merge.join_target_col@) {
        let n = merge.source_rows@.len() as int;
        lemma_merged_whole(p, merge, join, cols, rows, n);
        lemma_merged_counts(p, merge, join, merge_start(cols, rows), n);
        let end = merged(p, merge, join, merge_start(cols, rows), n);
        let keep = staying(merge, end.matched, end.dropped);
        assert forall|c: int| 0 <= c < cols.len() implies (#[trigger] only_kept(end.cols, keep)[c]).1.len() == end.rows
            - unmarked(keep, keep.len() as int) by {
            lemma_kept_len(end.cols[c].1, keep, keep.len() as int);
        }
    }
}

/// A row that a MERGE has inserted has a source row, and so it is not among
/// those that are dropped for want of one.
pub proof fn inserted_rows_have_a_source<P: Fn(&str) -> Option<u64>>(p: P, merge: Merge, join: int, cols: Columns, rows: int, n: int)
    requires
        0 <= n <= merge.source_rows@.len(),
        rows >= 0,
    ensures
        forall|i: int|
            rows <= i < merged(p, merge, join, merge_start(cols, rows), n).rows
                ==> #[trigger] merged(p, merge, join, merge_start(cols, rows), n).matched[i],
    decreases n,
{
    lemma_merged_counts(p, merge, join, merge_start(cols, rows), n);
    if n > 0 {
        inserted_rows_have_a_source(p, merge, join, cols, rows, n - 1);
        lemma_merged_counts(p, merge, join, merge_start(cols, rows), n - 1);
        let s = merged(p, merge, join, merge_start(cols, rows), n - 1);
        lemma_matching_row_within(s.cols[join].1, s.rows, cell_of(p, merge.source_rows@[n - 1].0@));
    }
}

proof fn lemma_unmarked_bounds(marks: Seq<bool>, n: int)
    requires
        0 <= n <= marks.len(),
    ensures
        0 <= unmarked(marks, n) <= n,
    decreases n,
{
    if n > 0 {
        lemma_unmarked_bounds(marks, n - 1);
    }
}

/// The row that a source value matches is the first one that holds it.
pub proof fn first_match_wins(values: Seq<u64>, rows: int, value: u64, row: int)
    requires
        0 <= row < rows,
        cell_or_zero(values, row) == value,
    ensures
        matching_row(values, rows, value) matches Some(r) && r <= row && cell_or_zero(values, r) == value,
{
    lemma_matching_row_within(values, rows, value);
}

/// What the caller's writer gives for a text, it gives again for what it gave.
pub open spec fn writes_stably<W: Fn(&str) -> Option<String>>(w: W) -> bool {
    forall|x: Seq<char>|
        (#[trigger] rewritten(w, x)) matches Some(v) ==> trimmed(v) == v && rewritten(w, v) == Some(v)
}

/// A value that has been cast casts to itself: an integer or a text in any case, a
/// truth value where the lower case of a digit is the digit, a double where the
/// caller's writer gives again what it gave.
pub proof fn casts_are_stable<W: Fn(&str) -> Option<String>>(w: W, text: Seq<char>, t: CastType)
    requires
        t == CastType::Boolean ==> lowercase("0"@) == "0"@ && lowercase("1"@) == "1"@,
        t == CastType::Float ==> writes_stably(w),
    ensures
        cast_text(w, text, t) matches Some(v) ==> cast_text(w, v, t) == Some(v),
{
    match t {
        CastType::Integer => {
            if let Some(n) = read_u64(trimmed(text)) {
                decimal_is_read_back(n);
            }
        },
        CastType::Boolean => {
            reveal_strlit("0");
            reveal_strlit("1");
            reveal_strlit("true");
            reveal_strlit("yes");
            reveal_strlit("on");
            assert("0"@[0] == '0' && "1"@[0] == '1' && "true"@[0] == 't' && "yes"@[0] == 'y' && "on"@[0] == 'o');
            decimal_is_read_back(0);
            decimal_is_read_back(1);
            assert(decimal(0) =~= "0"@);
            assert(decimal(1) =~= "1"@);
        },
        _ => {},
    }
}

/// A type name in lower case stands for the same kind of value, where changing the
/// case back gives the same name.
pub proof fn case_of_type_names_does_not_matter<W: Fn(&str) -> Option<String>>(w: W, text: Seq<char>, name: Seq<char>)
    requires
        uppercase(lowercase(name)) == uppercase(name),
    ensures
        cast_text(w, text, cast_type(uppercase(lowercase(name)))) == cast_text(w, text, cast_type(uppercase(name))),
{
}

} // verus!
