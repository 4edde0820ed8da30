//! Where the tables of a query come from.

use crate::error::{Error, Fail};
use crate::sql::ast::ColType;
use crate::sql::exec_table::{
    catalog_table, copy_cells, qualified, table_outcome, with_new, write_qualified, ExecTable, Held,
};
use crate::sql::names::NameMap;
use crate::sql::value::{Val, Value2};
use crate::table::{Catalog, QueryResult, StringSearchColumn};
use crate::text::{append_text, lowercase, same_text, string_of, to_lowercase};
use crate::tpch::support::{has_part, text_has};
use crate::word::{signed_of, word_signed};
use vstd::prelude::*;

verus! {

/// Names of columns that hold text.
pub open spec fn names_text(l: Seq<char>) -> bool {
    ||| l == "n_name"@
    ||| l == "supp_nation"@
    ||| l == "cust_nation"@
    ||| l == "nation"@
    ||| l == "s_name"@
    ||| l == "c_name"@
    ||| l == "p_mfgr"@
    ||| l == "p_brand"@
    ||| l == "p_type"@
    ||| l == "p_container"@
    ||| l == "l_returnflag"@
    ||| l == "l_linestatus"@
    ||| l == "l_shipmode"@
    ||| l == "l_shipinstruct"@
    ||| l == "o_orderpriority"@
    ||| l == "o_orderstatus"@
    ||| l == "cntrycode"@
}

/// Names of columns that hold keys, counts, years or codes.
pub open spec fn names_number(l: Seq<char>) -> bool {
    ||| has_part(l, "year"@)
    ||| has_part(l, "count"@)
    ||| has_part(l, "custdist"@)
    ||| has_part(l, "partkey"@)
    ||| has_part(l, "suppkey"@)
    ||| has_part(l, "custkey"@)
    ||| has_part(l, "nationkey"@)
    ||| has_part(l, "regionkey"@)
    ||| has_part(l, "numwait"@)
    ||| has_part(l, "numcust"@)
    ||| has_part(l, "supplier_cnt"@)
    ||| has_part(l, "availqty"@)
    ||| has_part(l, "size"@)
    ||| l == "supplier_no"@
}

/// Whether a column looks as if it held integers: among the first sixteen cells
/// one is not zero, and none is as large as any double but the tiniest.
pub open spec fn looks_whole(values: Seq<u64>) -> bool {
    &&& exists|i: int| 0 <= i < values.len() && i < 16 && #[trigger] values[i] != 0
    &&& forall|i: int| 0 <= i < values.len() && i < 16 ==> #[trigger] values[i] < 0x1_0000_0000
}

/// The type of a result column, told by its name or, failing that, its cells.
pub open spec fn result_type(name: Seq<char>, values: Seq<u64>) -> ColType {
    let l = lowercase(name);
    if has_part(l, "date"@) {
        ColType::Date
    } else if names_text(l) {
        ColType::String
    } else if names_number(l) || looks_whole(values) {
        ColType::Int
    } else {
        ColType::Float
    }
}

fn is_text_name(l: &str) -> (b: bool)
    ensures
        b == names_text(l@),
{
    same_text(l, "n_name") || same_text(l, "supp_nation") || same_text(l, "cust_nation") || same_text(l, "nation")
        || same_text(l, "s_name") || same_text(l, "c_name") || same_text(l, "p_mfgr") || same_text(l, "p_brand")
        || same_text(l, "p_type") || same_text(l, "p_container") || same_text(l, "l_returnflag") || same_text(
        l,
        "l_linestatus",
    ) || same_text(l, "l_shipmode") || same_text(l, "l_shipinstruct") || same_text(l, "o_orderpriority") || same_text(
        l,
        "o_orderstatus",
    ) || same_text(l, "cntrycode")
}

fn is_number_name(l: &str) -> (b: bool)
    ensures
        b == names_number(l@),
{
    text_has(l, "year") || text_has(l, "count") || text_has(l, "custdist") || text_has(l, "partkey") || text_has(
        l,
        "suppkey",
    ) || text_has(l, "custkey") || text_has(l, "nationkey") || text_has(l, "regionkey") || text_has(l, "numwait")
        || text_has(l, "numcust") || text_has(l, "supplier_cnt") || text_has(l, "availqty") || text_has(l, "size")
        || same_text(l, "supplier_no")
}

fn seems_whole(values: &Vec<u64>) -> (b: bool)
    ensures
        b == looks_whole(values@),
{
    let mut found: bool = false;
    let mut i: usize = 0;
    while i < values.len() && i < 16
        invariant
            i <= values.len(),
            i <= 16,
            found == (exists|k: int| 0 <= k < i && #[trigger] values@[k] != 0),
            forall|k: int| 0 <= k < i ==> #[trigger] values@[k] < 0x1_0000_0000,
        decreases values.len() - i,
    {
        if values[i] >= 0x1_0000_0000 {
            return false;
        }
        if values[i] != 0 {
            found = true;
        }
        i = i + 1;
    }
    found
}

/// Tells the type of a result column.
pub fn infer_result_type(name: &str, values: &Vec<u64>) -> (kind: ColType)
    ensures
        kind == result_type(name@, values@),
{
    let l: String = to_lowercase(name);
    if text_has(l.as_str(), "date") {
        ColType::Date
    } else if is_text_name(l.as_str()) {
        ColType::String
    } else if is_number_name(l.as_str()) || seems_whole(values) {
        ColType::Int
    } else {
        ColType::Float
    }
}

/// The numbers that the columns of a result go by: under their names, and under
/// these behind the alias.
pub open spec fn result_numbers(columns: Seq<(Seq<char>, Seq<u64>)>, alias: Seq<char>, n: nat) -> Map<Seq<char>, usize>
    decreases n,
{
    if n == 0 {
        Map::empty()
    } else {
        let i = (n - 1) as nat;
        let name = lowercase(columns[i as int].0);
        let m = with_new(result_numbers(columns, alias, i), name, i as usize);
        with_new(m, qualified(lowercase(alias), name), i as usize)
    }
}

/// What an answer says: its columns, and how many rows it has.
#[verifier::ext_equal]
pub struct Rows {
    pub columns: Seq<(Seq<char>, Seq<u64>)>,
    pub row_count: int,
}

pub open spec fn rows_of(r: QueryResult) -> Rows {
    Rows { columns: r@, row_count: r.row_count as int }
}

/// What answering came to.
pub open spec fn answer_outcome(r: Result<QueryResult, Error>) -> Result<Rows, Fail> {
    match r {
        Ok(q) => Ok(rows_of(q)),
        Err(e) => Err(e@),
    }
}

/// An answer as a table.
pub open spec fn result_table(r: Rows, alias: Seq<char>) -> Held {
    Held {
        row_count: r.row_count,
        columns: r.columns.map_values(|c: (Seq<char>, Seq<u64>)| c.1),
        column_names: r.columns.map_values(|c: (Seq<char>, Seq<u64>)| c.0),
        col_types: r.columns.map_values(|c: (Seq<char>, Seq<u64>)| result_type(c.0, c.1)),
        strings: r.columns.map_values(|c: (Seq<char>, Seq<u64>)| None::<Seq<Seq<char>>>),
        numbers: result_numbers(r.columns, alias, r.columns.len()),
    }
}

/// Makes a table of a result.
pub fn result_to_exec_table(result: &QueryResult, alias: &str) -> (t: ExecTable)
    requires
        result.wf(),
    ensures
        t@ == result_table(rows_of(*result), alias@),
        t.wf(),
{
    let mut columns: Vec<Vec<u64>> = Vec::new();
    let mut column_names: Vec<String> = Vec::new();
    let mut col_types: Vec<ColType> = Vec::new();
    let mut string_columns: Vec<Option<StringSearchColumn>> = Vec::new();
    let mut col_map: NameMap = NameMap::new();
    let alias_lower: String = to_lowercase(alias);
    let mut i: usize = 0;
    while i < result.columns.len()
        invariant
            result.wf(),
            result@.len() == result.columns.len(),
            i <= result.columns.len(),
            alias_lower@ == lowercase(alias@),
            columns.len() == i,
            column_names.len() == i,
            col_types.len() == i,
            string_columns.len() == i,
            forall|c: int| 0 <= c < i ==> (#[trigger] columns@[c])@ == result@[c].1,
            forall|c: int| 0 <= c < i ==> (#[trigger] column_names@[c])@ == result@[c].0,
            forall|c: int| 0 <= c < i ==> #[trigger] col_types@[c] == result_type(result@[c].0, result@[c].1),
            forall|c: int| 0 <= c < i ==> #[trigger] string_columns@[c] is None,
            col_map@ == result_numbers(result@, alias@, i as nat),
            forall|k: Seq<char>| #[trigger] col_map@.dom().contains(k) ==> col_map@[k] < i,
        decreases result.columns.len() - i,
    {
        proof {
            assert(result@[i as int] == (result.columns@[i as int].name@, result.columns@[i as int].values@));
        }
        let name: String = to_lowercase(result.columns[i].name.as_str());
        let under_alias: String = write_qualified(alias_lower.as_str(), name.as_str());
        columns.push(copy_cells(&result.columns[i].values));
        column_names.push(result.columns[i].name.clone());
        col_types.push(infer_result_type(result.columns[i].name.as_str(), &result.columns[i].values));
        string_columns.push(None);
        col_map.insert_new(name, i);
        col_map.insert_new(under_alias, i);
        i = i + 1;
    }
    let t: ExecTable = ExecTable {
        columns,
        column_names,
        col_types,
        string_columns,
        row_count: result.row_count,
        col_map,
    };
    proof {
        let u = result_table(rows_of(*result), alias@);
        assert(t@.columns =~= u.columns);
        assert(t@.column_names =~= u.column_names);
        assert(t@.col_types =~= u.col_types);
        assert(t@.strings =~= u.strings);
    }
    t
}

/// What is said of a table that the catalog does not have.
pub open spec fn no_such_table(name: Seq<char>) -> Seq<char> {
    "table '"@ + name + "'"@
}

/// What a table of a query comes to: the table of that name in the catalog,
/// unless there is none.
pub open spec fn resolved(catalog: Catalog, name: Seq<char>, alias: Seq<char>) -> Result<Held, Fail> {
    match catalog.lookup(name) {
        None => Err(Fail::NotFound(no_such_table(name))),
        Some(s) => Ok(catalog_table(s, alias)),
    }
}

fn named(before: &str, name: &str, after: &str) -> (s: String)
    ensures
        s@ == before@ + name@ + after@,
{
    let mut text: Vec<char> = Vec::new();
    append_text(&mut text, before);
    append_text(&mut text, name);
    append_text(&mut text, after);
    proof {
        assert(text@ =~= before@ + name@ + after@);
    }
    string_of(&text)
}

/// Finds a table of a query in the catalog.
pub fn resolve_table(catalog: &Catalog, name: &str, alias: &str) -> (r: Result<ExecTable, Error>)
    requires
        catalog.lookup(name@) matches Some(s) ==> s.wf(),
    ensures
        table_outcome(r) == resolved(*catalog, name@, alias@),
        r matches Ok(t) ==> t.wf(),
{
    match catalog.get(name) {
        None => Err(Error::NotFound(named("table '", name, "'"))),
        Some(s) => Ok(ExecTable::from_catalog(s, alias)),
    }
}

/// The value of a query in an expression: the first cell of its first column,
/// zero where there is none.
pub open spec fn scalar_of(columns: Seq<(Seq<char>, Seq<u64>)>) -> Val {
    let (name, values) = if columns.len() > 0 {
        columns[0]
    } else {
        (""@, Seq::empty())
    };
    let cell = if values.len() > 0 {
        values[0]
    } else {
        0
    };
    match result_type(name, values) {
        ColType::Float => Val::Float(cell),
        _ => Val::Int(word_signed(cell)),
    }
}

/// The value of a query in an expression.
pub fn scalar_value(result: &QueryResult) -> (v: Value2)
    ensures
        v@ == scalar_of(result@),
{
    if result.columns.len() == 0 {
        let none: Vec<u64> = Vec::new();
        return match infer_result_type("", &none) {
            ColType::Float => Value2::Float(0),
            _ => Value2::Int(signed_of(0)),
        };
    }
    proof {
        assert(result@[0] == (result.columns@[0].name@, result.columns@[0].values@));
    }
    let cell: u64 = if result.columns[0].values.len() > 0 {
        result.columns[0].values[0]
    } else {
        0
    };
    match infer_result_type(result.columns[0].name.as_str(), &result.columns[0].values) {
        ColType::Float => Value2::Float(cell),
        _ => Value2::Int(signed_of(cell)),
    }
}

} // verus!
