//! What a MERGE does to the rows of its target.

use crate::hashing::text_hash;
use crate::merge::{
    assigned, cell_of, column_place, extended, insert_places, kept_cells, matching_row, merge_step,
    named_places, staying, unmarked, Columns, Merge, MergeAction, MergeState,
};
use crate::text::{trim_end, trim_start};
use vstd::prelude::*;

verus! {

/// The first column of a name.
pub open spec fn first_named(cols: Columns, name: Seq<char>, c: int) -> bool {
    &&& 0 <= c < cols.len() && cols[c].0 == name
    &&& forall|j: int| 0 <= j < c ==> (#[trigger] cols[j]).0 != name
}

/// Columns are found by name: the first one of that name.
pub proof fn columns_are_found_by_name(cols: Columns, name: Seq<char>)
    ensures
        match column_place(cols, name) {
            Some(c) => first_named(cols, name, c),
            None => forall|c: int| 0 <= c < cols.len() ==> (#[trigger] cols[c]).0 != name,
        },
        forall|c: int| #[trigger] first_named(cols, name, c) ==> column_place(cols, name) == Some(c),
    decreases cols.len(),
{
    if cols.len() > 0 {
        let rest = cols.drop_last();
        columns_are_found_by_name(rest, name);
        assert forall|c: int| 0 <= c < rest.len() implies #[trigger] cols[c] == rest[c] by {}
        match column_place(rest, name) {
            Some(c) => {
                assert(rest[c].0 == name);
            },
            None => {
                assert forall|c: int| 0 <= c < rest.len() implies (#[trigger] cols[c]).0 != name by {
                    assert(rest[c].0 != name);
                }
            },
        }
        assert forall|c: int| #[trigger] first_named(cols, name, c) implies column_place(cols, name) == Some(c) by {
            match column_place(cols, name) {
                Some(d) => {
                    if d < c {
                        assert(cols[d].0 != name);
                    }
                    if c < d {
                        assert(cols[c].0 != name);
                    }
                },
                None => {
                    assert(cols[c].0 != name);
                },
            }
        }
    }
}

/// The columns have the same names and numbers of cells.
pub open spec fn same_shape(a: Columns, b: Columns) -> bool {
    &&& a.len() == b.len()
    &&& forall|c: int| 0 <= c < a.len() ==> (#[trigger] a[c]).0 == b[c].0 && a[c].1.len() == b[c].1.len()
}

proof fn lemma_same_place(a: Columns, b: Columns, name: Seq<char>)
    requires
        same_shape(a, b),
    ensures
        column_place(a, name) == column_place(b, name),
    decreases a.len(),
{
    if a.len() > 0 {
        assert(a[a.len() - 1].0 == b[b.len() - 1].0);
        assert(same_shape(a.drop_last(), b.drop_last())) by {
            assert forall|c: int| 0 <= c < a.len() - 1 implies (#[trigger] a.drop_last()[c]).0 == b.drop_last()[c].0
                && a.drop_last()[c].1.len() == b.drop_last()[c].1.len() by {
                assert(a[c].0 == b[c].0);
            }
        }
        lemma_same_place(a.drop_last(), b.drop_last(), name);
    }
}

/// An assignment is the last of the first `n` that sets a column.
pub open spec fn last_setting(cols: Columns, assigns: Seq<(String, String)>, n: int, c: int, k: int) -> bool {
    &&& 0 <= k < n && first_named(cols, assigns[k].0@, c)
    &&& forall|j: int| k < j < n ==> !first_named(cols, (#[trigger] assigns[j]).0@, c)
}

/// Assignments set the named columns of their row to the values, the last assignment to a column last, and change
/// no other cell.
pub proof fn assignments_set_their_cells<P: Fn(&str) -> Option<u64>>(
    p: P,
    cols: Columns,
    assigns: Seq<(String, String)>,
    row: int,
    n: int,
    c: int,
    r: int,
)
    requires
        0 <= n <= assigns.len(),
        0 <= row,
        0 <= c < cols.len(),
        0 <= r < cols[c].1.len(),
    ensures
        same_shape(cols, assigned(p, cols, assigns, row, n)),
        r != row || (forall|k: int| 0 <= k < n ==> !first_named(cols, (#[trigger] assigns[k]).0@, c)) ==> assigned(
            p,
            cols,
            assigns,
            row,
            n,
        )[c].1[r] == cols[c].1[r],
        forall|k: int| #[trigger]
            last_setting(cols, assigns, n, c, k) && r == row ==> assigned(p, cols, assigns, row, n)[c].1[r] == cell_of(
                p,
                assigns[k].1@,
            ),
    decreases n,
{
    if n > 0 {
        assignments_set_their_cells(p, cols, assigns, row, n - 1, c, r);
        let before = assigned(p, cols, assigns, row, n - 1);
        let now = assigned(p, cols, assigns, row, n);
        let name = assigns[n - 1].0@;
        lemma_same_place(cols, before, name);
        columns_are_found_by_name(cols, name);
        assert forall|d: int| 0 <= d < cols.len() implies (#[trigger] cols[d]).0 == now[d].0 && cols[d].1.len()
            == now[d].1.len() by {
            assert(cols[d].0 == before[d].0);
        }
        assert(cols[c].1.len() == before[c].1.len());
        let hit = first_named(cols, name, c);
        if hit {
            assert(column_place(before, name) == Some(c));
        }
        assert forall|k: int| #[trigger] last_setting(cols, assigns, n, c, k) && r == row implies now[c].1[r] == cell_of(
            p,
            assigns[k].1@,
        ) by {
            if k < n - 1 {
                let m = n - 1;
                assert(!first_named(cols, assigns[m].0@, c));
                assert(last_setting(cols, assigns, n - 1, c, k));
            }
        }
        if forall|k: int| 0 <= k < n ==> !first_named(cols, (#[trigger] assigns[k]).0@, c) {
            let m = n - 1;
            assert(!first_named(cols, assigns[m].0@, c));
        }
    }
}

/// A value given for a place, or zero.
pub open spec fn value_at<P: Fn(&str) -> Option<u64>>(p: P, vals: Seq<String>, k: int) -> u64 {
    if k < vals.len() {
        cell_of(p, vals[k]@)
    } else {
        0
    }
}

/// A new row gives each of its columns, where they differ, the value given for it at the end, and no other column.
pub proof fn insertions_add_one_cell_to_each_column<P: Fn(&str) -> Option<u64>>(
    p: P,
    cols: Columns,
    places: Seq<int>,
    vals: Seq<String>,
    n: int,
    c: int,
)
    requires
        0 <= n <= places.len(),
        0 <= c < cols.len(),
        forall|k: int| 0 <= k < places.len() ==> 0 <= #[trigger] places[k] < cols.len(),
        places.no_duplicates(),
    ensures
        extended(p, cols, places, vals, n).len() == cols.len(),
        extended(p, cols, places, vals, n)[c].0 == cols[c].0,
        (forall|k: int| 0 <= k < n ==> #[trigger] places[k] != c) ==> extended(p, cols, places, vals, n)[c].1
            == cols[c].1,
        forall|k: int|
            0 <= k < n && #[trigger] places[k] == c ==> extended(p, cols, places, vals, n)[c].1 == cols[c].1.push(
                value_at(p, vals, k),
            ),
    decreases n,
{
    if n > 0 {
        insertions_add_one_cell_to_each_column(p, cols, places, vals, n - 1, c);
        let m = n - 1;
        assert(0 <= places[m] < cols.len());
        if places[m] == c {
            assert forall|k: int| 0 <= k < m implies #[trigger] places[k] != c by {}
        }
    }
}

/// Where no columns are named, a new row fills all columns in their order.
pub proof fn insertions_fill_all_columns_by_default(cols: Columns, names: Seq<String>)
    requires
        names.len() == 0,
    ensures
        insert_places(cols, names).len() == cols.len(),
        forall|c: int| 0 <= c < cols.len() ==> #[trigger] insert_places(cols, names)[c] == c,
{
}

/// Where every name is that of a column, a new row fills the named columns in the order of the names.
pub proof fn insertions_fill_the_named_columns(cols: Columns, names: Seq<String>, n: int)
    requires
        0 <= n <= names.len(),
        forall|k: int| 0 <= k < names.len() ==> column_place(cols, (#[trigger] names[k])@) is Some,
    ensures
        named_places(cols, names, n).len() == n,
        forall|k: int| 0 <= k < n ==> first_named(cols, (#[trigger] names[k])@, named_places(cols, names, n)[k]),
    decreases n,
{
    if n > 0 {
        insertions_fill_the_named_columns(cols, names, n - 1);
        let m = n - 1;
        assert(column_place(cols, names[m]@) is Some);
        columns_are_found_by_name(cols, names[m]@);
    }
}

/// The first row whose cell is a value.
pub open spec fn first_match(values: Seq<u64>, rows: int, value: u64, row: int) -> bool {
    &&& 0 <= row < rows && values[row] == value
    &&& forall|r: int| 0 <= r < row ==> #[trigger] values[r] != value
}

proof fn lemma_match(values: Seq<u64>, rows: int, value: u64)
    requires
        0 <= rows <= values.len(),
    ensures
        match matching_row(values, rows, value) {
            Some(row) => first_match(values, rows, value, row),
            None => forall|r: int| 0 <= r < rows ==> #[trigger] values[r] != value,
        },
        forall|row: int| #[trigger] first_match(values, rows, value, row) ==> matching_row(values, rows, value) == Some(row),
    decreases rows,
{
    if rows > 0 {
        lemma_match(values, rows - 1, value);
        assert forall|row: int| #[trigger] first_match(values, rows, value, row) implies matching_row(
            values,
            rows,
            value,
        ) == Some(row) by {
            if row < rows - 1 {
                assert(first_match(values, rows - 1, value, row));
            } else {
                match matching_row(values, rows - 1, value) {
                    Some(r) => {
                        assert(values[r] != value);
                    },
                    None => {},
                }
            }
        }
    }
}

/// A source row that matches marks the first row with its value and is carried out on that row alone: an update
/// counts and sets its cells, a deletion marks it to go. No row is added.
pub proof fn matched_rows_are_changed<P: Fn(&str) -> Option<u64>>(p: P, merge: Merge, join: int, s: MergeState, value: u64, row: int)
    requires
        0 <= join < s.cols.len(),
        0 <= s.rows <= s.cols[join].1.len(),
        s.matched.len() == s.rows,
        s.dropped.len() == s.rows,
        first_match(s.cols[join].1, s.rows, value, row),
    ensures
        ({
            let t = merge_step(p, merge, join, s, value);
            &&& t.rows == s.rows
            &&& t.inserted == s.inserted
            &&& t.matched == s.matched.update(row, true)
            &&& match merge.when_matched {
                Some(MergeAction::Update(assigns)) => t.updated == s.updated + 1 && t.dropped == s.dropped && t.cols
                    == assigned(p, s.cols, assigns@, row, assigns@.len() as int),
                Some(MergeAction::Delete) => t.updated == s.updated && t.dropped == s.dropped.update(row, true)
                    && t.cols == s.cols,
                _ => t.updated == s.updated && t.dropped == s.dropped && t.cols == s.cols,
            }
        }),
{
    lemma_match(s.cols[join].1, s.rows, value);
}

/// A source row without a match adds a row if that is asked for, and otherwise changes nothing.
pub proof fn unmatched_rows_are_added<P: Fn(&str) -> Option<u64>>(p: P, merge: Merge, join: int, s: MergeState, value: u64)
    requires
        0 <= join < s.cols.len(),
        0 <= s.rows <= s.cols[join].1.len(),
        forall|r: int| 0 <= r < s.rows ==> #[trigger] s.cols[join].1[r] != value,
    ensures
        ({
            let t = merge_step(p, merge, join, s, value);
            match merge.when_not_matched_by_target {
                Some(MergeAction::Insert(names, vals)) => {
                    let places = insert_places(s.cols, names@);
                    &&& t.rows == s.rows + 1 && t.inserted == s.inserted + 1 && t.updated == s.updated
                    &&& t.matched == s.matched.push(true) && t.dropped == s.dropped.push(false)
                    &&& t.cols == extended(p, s.cols, places, vals@, places.len() as int)
                },
                _ => t == s,
            }
        }),
{
    lemma_match(s.cols[join].1, s.rows, value);
}

/// A row stays if no match deletes it and, where rows without a source row are to go, it has one. The others are
/// those that are counted as deleted.
pub proof fn deleted_rows_are_those_asked_for(merge: Merge, matched: Seq<bool>, dropped: Seq<bool>, r: int)
    requires
        matched.len() == dropped.len(),
        0 <= r < matched.len(),
    ensures
        staying(merge, matched, dropped).len() == matched.len(),
        staying(merge, matched, dropped)[r] <==> !dropped[r] && (merge.when_not_matched_by_source
            == Some(MergeAction::Delete) ==> matched[r]),
{
}

/// The cells that stay are those of the marked rows, in their order; with those that go they make up all cells.
pub proof fn kept_cells_are_those_of_marked_rows(values: Seq<u64>, keep: Seq<bool>, n: int, r: int)
    requires
        0 <= r < n <= keep.len(),
        keep.len() <= values.len(),
        keep[r],
    ensures
        kept_cells(values, keep, n).len() + unmarked(keep, n) == n,
        r - unmarked(keep, r) < kept_cells(values, keep, n).len(),
        kept_cells(values, keep, n)[r - unmarked(keep, r)] == values[r],
        0 <= unmarked(keep, r) <= r,
    decreases n,
{
    lemma_kept(values, keep, n);
    lemma_kept(values, keep, r);
    if r < n - 1 {
        kept_cells_are_those_of_marked_rows(values, keep, n - 1, r);
    }
}

proof fn lemma_kept(values: Seq<u64>, keep: Seq<bool>, n: int)
    requires
        0 <= n <= keep.len(),
        keep.len() <= values.len(),
    ensures
        kept_cells(values, keep, n).len() + unmarked(keep, n) == n,
        0 <= unmarked(keep, n) <= n,
    decreases n,
{
    if n > 0 {
        lemma_kept(values, keep, n - 1);
    }
}

/// A text in single quotes stands for its hash.
pub proof fn quoted_texts_stand_for_their_hashes<P: Fn(&str) -> Option<u64>>(p: P, text: Seq<char>)
    ensures
        cell_of(p, seq!['\''] + text + seq!['\'']) == text_hash(text),
{
    let t = seq!['\''] + text + seq!['\''];
    assert(t[0] == '\'' && t.last() == '\'');
    assert(trim_start(t) == t);
    assert(trim_end(t) == t);
    assert(t.subrange(1, t.len() - 1) =~= text);
}

} // verus!
