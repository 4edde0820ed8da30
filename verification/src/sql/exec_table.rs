//! Tables as the interpreter works on them.

use crate::error::{Error, Fail};
use crate::sql::ast::ColType;
use crate::sql::names::NameMap;
use crate::sql::value::{date_of_half, half_date, Val, Value2};
use crate::table::{StringSearchColumn, Table};
use crate::text::{append_text, chars_of, lowercase, same_text, slice_chars, string_of, to_lowercase};
use crate::word::{signed_of, word_signed};
use vstd::prelude::*;

verus! {

/// A table whose columns have types, and numbers by name.
pub struct ExecTable {
    pub columns: Vec<Vec<u64>>,
    pub column_names: Vec<String>,
    pub col_types: Vec<ColType>,
    pub string_columns: Vec<Option<StringSearchColumn>>,
    pub row_count: usize,
    pub col_map: NameMap,
}

/// The column types of a table of the benchmark schema; none for other tables.
pub open spec fn schema_types(name: Seq<char>) -> Seq<ColType> {
    let i = ColType::Int;
    let f = ColType::Float;
    let d = ColType::Date;
    let s = ColType::String;
    if name == "region"@ {
        seq![i, s, s]
    } else if name == "nation"@ {
        seq![i, s, i, s]
    } else if name == "supplier"@ {
        seq![i, s, s, i, s, f, s]
    } else if name == "customer"@ {
        seq![i, s, s, i, s, f, s, s]
    } else if name == "part"@ {
        seq![i, s, s, s, s, i, s, f, s]
    } else if name == "partsupp"@ {
        seq![i, i, i, f, s]
    } else if name == "orders"@ {
        seq![i, i, s, f, d, s, s, i, s]
    } else if name == "lineitem"@ {
        seq![i, i, i, i, f, f, f, f, s, s, d, d, d, s, s, s]
    } else {
        Seq::empty()
    }
}

/// The column types of a table by its name.
pub fn tpch_col_types(table_name: &str) -> (types: Vec<ColType>)
    ensures
        types@ == schema_types(table_name@),
{
    let i: ColType = ColType::Int;
    let f: ColType = ColType::Float;
    let d: ColType = ColType::Date;
    let s: ColType = ColType::String;
    let types: Vec<ColType> = if same_text(table_name, "region") {
        vec![i, s, s]
    } else if same_text(table_name, "nation") {
        vec![i, s, i, s]
    } else if same_text(table_name, "supplier") {
        vec![i, s, s, i, s, f, s]
    } else if same_text(table_name, "customer") {
        vec![i, s, s, i, s, f, s, s]
    } else if same_text(table_name, "part") {
        vec![i, s, s, s, s, i, s, f, s]
    } else if same_text(table_name, "partsupp") {
        vec![i, i, i, f, s]
    } else if same_text(table_name, "orders") {
        vec![i, i, s, f, d, s, s, i, s]
    } else if same_text(table_name, "lineitem") {
        vec![i, i, i, i, f, f, f, f, s, s, d, d, d, s, s, s]
    } else {
        Vec::new()
    };
    proof {
        assert(types@ =~= schema_types(table_name@));
    }
    types
}

/// A name under a qualifier.
pub open spec fn qualified(qualifier: Seq<char>, name: Seq<char>) -> Seq<char> {
    qualifier + "."@ + name
}

/// The map with a number for a name, where it has none.
pub open spec fn with_new(m: Map<Seq<char>, usize>, name: Seq<char>, n: usize) -> Map<Seq<char>, usize> {
    if m.dom().contains(name) {
        m
    } else {
        m.insert(name, n)
    }
}

/// The numbers of the first `n` columns by name: by the plain name, by the name
/// under the alias and, where that differs, under the table's own name. Names go
/// by their lower case, and the first column of a name has it.
pub open spec fn catalog_numbers(names: Seq<String>, alias: Seq<char>, table: Seq<char>, n: int) -> Map<Seq<char>, usize>
    decreases n,
{
    if n <= 0 {
        Map::empty()
    } else {
        let before = catalog_numbers(names, alias, table, n - 1);
        let name = lowercase(names[n - 1]@);
        let i = (n - 1) as usize;
        let two = with_new(with_new(before, name, i), qualified(lowercase(alias), name), i);
        if alias == table {
            two
        } else {
            with_new(two, qualified(lowercase(table), name), i)
        }
    }
}

/// The types of the first `n` columns of a table. Those of which the schema says
/// nothing hold integers.
pub open spec fn column_types(name: Seq<char>, n: int) -> Seq<ColType> {
    Seq::new(
        n as nat,
        |c: int|
            if c < schema_types(name).len() {
                schema_types(name)[c]
            } else {
                ColType::Int
            },
    )
}

fn types_of_columns(name: &str, n: usize) -> (types: Vec<ColType>)
    ensures
        types@ == column_types(name@, n as int),
{
    let known: Vec<ColType> = tpch_col_types(name);
    let mut types: Vec<ColType> = Vec::new();
    while types.len() < n
        invariant
            known@ == schema_types(name@),
            types.len() <= n,
            forall|c: int| 0 <= c < types.len() ==> #[trigger] types@[c] == column_types(name@, n as int)[c],
        decreases n - types.len(),
    {
        let c: usize = types.len();
        if c < known.len() {
            types.push(known[c]);
        } else {
            types.push(ColType::Int);
        }
    }
    proof {
        assert(types@ =~= column_types(name@, n as int));
    }
    types
}

pub fn write_qualified(qualifier: &str, name: &str) -> (s: String)
    ensures
        s@ == qualified(qualifier@, name@),
{
    let mut text: Vec<char> = Vec::new();
    append_text(&mut text, qualifier);
    append_text(&mut text, ".");
    append_text(&mut text, name);
    proof {
        assert(text@ =~= qualified(qualifier@, name@));
    }
    string_of(&text)
}

/// Strings held in a column.
pub open spec fn strings_of(c: Option<StringSearchColumn>) -> Option<Seq<Seq<char>>> {
    match c {
        Some(s) => Some(s.strings@.map_values(|x: String| x@)),
        None => None,
    }
}

/// The rows of a column that are listed.
pub open spec fn at_rows<T>(cells: Seq<T>, rows: Seq<usize>) -> Seq<T> {
    Seq::new(rows.len(), |i: int| cells[rows[i] as int])
}

/// The place of the last dot of a name.
pub open spec fn last_dot(name: Seq<char>) -> Option<int>
    decreases name.len(),
{
    if name.len() == 0 {
        None
    } else if name.last() == '.' {
        Some(name.len() - 1)
    } else {
        last_dot(name.drop_last())
    }
}

/// The name behind its last dot.
pub open spec fn short_name(name: Seq<char>) -> Seq<char> {
    match last_dot(name) {
        Some(i) => name.skip(i + 1),
        None => name,
    }
}

/// Cuts a name behind its last dot; nothing where there is none.
pub fn behind_dot(name: &str) -> (s: Option<String>)
    ensures
        match s {
            Some(x) => last_dot(name@) is Some && x@ == short_name(name@),
            None => last_dot(name@) is None,
        },
{
    let v: Vec<char> = chars_of(name);
    let mut i: usize = v.len();
    proof {
        assert(v@.take(v@.len() as int) =~= v@);
    }
    while i > 0
        invariant
            v@ == name@,
            i <= v.len(),
            last_dot(v@) == last_dot(v@.take(i as int)),
        decreases i,
    {
        proof {
            assert(v@.take(i as int).drop_last() =~= v@.take(i - 1));
            assert(v@.take(i as int).last() == v@[i - 1]);
        }
        if v[i - 1] == '.' {
            let rest: Vec<char> = slice_chars(&v, i, v.len());
            proof {
                assert(v@.subrange(i as int, v@.len() as int) =~= v@.skip(i as int));
            }
            return Some(string_of(&rest));
        }
        i = i - 1;
    }
    None
}

impl ExecTable {
    /// Every column has a name, a type and a cell for each row, and names stand
    /// for columns that exist.
    pub open spec fn wf(&self) -> bool {
        &&& self.column_names.len() == self.columns.len()
        &&& self.col_types.len() == self.columns.len()
        &&& self.string_columns.len() == self.columns.len()
        &&& forall|c: int| 0 <= c < self.columns.len() ==> (#[trigger] self.columns@[c]).len() == self.row_count
        &&& forall|k: Seq<char>| #[trigger] self.col_map@.dom().contains(k) ==> self.col_map@[k] < self.columns.len()
    }

    /// Finds the column that a name stands for.
    pub fn lookup_col(&self, name: &str) -> (n: Option<usize>)
        ensures
            n == self@.number(name@),
            self.wf() ==> (n matches Some(i) ==> i < self.columns.len()),
    {
        match self.col_map.get(name) {
            Some(i) => Some(i),
            None => {
                let lower: String = to_lowercase(name);
                self.col_map.get(lower.as_str())
            },
        }
    }

    pub fn get_value(&self, c: usize, row: usize) -> (v: Value2)
        requires
            self.wf(),
            c < self.columns.len(),
        ensures
            v@ == self@.value(c as int, row as int),
    {
        let cell: u64 = if row < self.columns[c].len() {
            self.columns[c][row]
        } else {
            0
        };
        match self.col_types[c] {
            ColType::Int => Value2::Int(signed_of(cell)),
            ColType::Float => Value2::Float(cell),
            ColType::Date => Value2::Date(date_of_half(cell)),
            ColType::String => match &self.string_columns[c] {
                Some(s) => if row < s.len() {
                    Value2::Str(s.get(row).to_owned())
                } else {
                    Value2::Int(signed_of(cell))
                },
                None => Value2::Int(signed_of(cell)),
            },
        }
    }

    pub fn get_named(&self, name: &str, row: usize) -> (v: Option<Value2>)
        requires
            self.wf(),
        ensures
            match v {
                Some(x) => self@.named_value(name@, row as int) == Some(x@),
                None => self@.named_value(name@, row as int) is None,
            },
    {
        match self.lookup_col(name) {
            Some(c) => Some(self.get_value(c, row)),
            None => match behind_dot(name) {
                Some(short) => match self.lookup_col(short.as_str()) {
                    Some(c) => Some(self.get_value(c, row)),
                    None => None,
                },
                None => None,
            },
        }
    }

    /// A table of the catalog under an alias.
    pub fn from_catalog(table: &Table, alias: &str) -> (t: Self)
        requires
            table.wf(),
        ensures
            t@ == catalog_table(*table, alias@),
            t.wf(),
    {
        let mut col_map: NameMap = NameMap::new();
        let same_name: bool = same_text(alias, table.name.as_str());
        let alias_lower: String = to_lowercase(alias);
        let table_lower: String = to_lowercase(table.name.as_str());
        let mut column_names: Vec<String> = Vec::new();
        let mut columns: Vec<Vec<u64>> = Vec::new();
        let mut string_columns: Vec<Option<StringSearchColumn>> = Vec::new();
        let mut i: usize = 0;
        while i < table.column_names.len()
            invariant
                table.wf(),
                i <= table.column_names.len(),
                same_name == (alias@ == table.name@),
                alias_lower@ == lowercase(alias@),
                table_lower@ == lowercase(table.name@),
                col_map@ == catalog_numbers(table.column_names@, alias@, table.name@, i as int),
                forall|k: Seq<char>| #[trigger] col_map@.dom().contains(k) ==> col_map@[k] < i,
                column_names.len() == i,
                columns.len() == i,
                string_columns.len() == i,
                forall|c: int| 0 <= c < i ==> (#[trigger] column_names@[c])@ == table.column_names@[c]@,
                forall|c: int| 0 <= c < i ==> (#[trigger] columns@[c])@ == table.columns@[c]@,
                forall|c: int|
                    0 <= c < i ==> strings_of(#[trigger] string_columns@[c]) == strings_of(table.string_columns@[c]),
            decreases table.column_names.len() - i,
        {
            let name: String = to_lowercase(table.column_names[i].as_str());
            let under_alias: String = write_qualified(alias_lower.as_str(), name.as_str());
            let under_table: String = write_qualified(table_lower.as_str(), name.as_str());
            col_map.insert_new(name, i);
            col_map.insert_new(under_alias, i);
            if !same_name {
                col_map.insert_new(under_table, i);
            }
            column_names.push(table.column_names[i].clone());
            columns.push(copy_cells(&table.columns[i]));
            string_columns.push(copy_strings(&table.string_columns[i]));
            i = i + 1;
        }
        let t: ExecTable = ExecTable {
            columns,
            column_names,
            col_types: types_of_columns(table.name.as_str(), table.columns.len()),
            string_columns,
            row_count: table.row_count,
            col_map,
        };
        proof {
            let u = catalog_table(*table, alias@);
            assert(t@.columns =~= u.columns);
            assert(t@.column_names =~= u.column_names);
            assert(t@.strings =~= u.strings);
        }
        t
    }

    /// The table with only the listed rows.
    pub fn filter_table(&self, rows: &Vec<usize>) -> (t: Self)
        requires
            self.wf(),
            forall|i: int| 0 <= i < rows.len() ==> #[trigger] rows@[i] < self.row_count,
        ensures
            t.wf(),
            t@ == filtered(self@, rows@),
    {
        let mut columns: Vec<Vec<u64>> = Vec::new();
        let mut column_names: Vec<String> = Vec::new();
        let mut col_types: Vec<ColType> = Vec::new();
        let mut string_columns: Vec<Option<StringSearchColumn>> = Vec::new();
        let mut c: usize = 0;
        while c < self.columns.len()
            invariant
                self.wf(),
                forall|i: int| 0 <= i < rows.len() ==> #[trigger] rows@[i] < self.row_count,
                c <= self.columns.len(),
                columns.len() == c,
                column_names.len() == c,
                col_types.len() == c,
                string_columns.len() == c,
                forall|k: int| 0 <= k < c ==> (#[trigger] columns@[k])@ == at_rows(self.columns@[k]@, rows@),
                forall|k: int| 0 <= k < c ==> (#[trigger] column_names@[k])@ == self.column_names@[k]@,
                forall|k: int| 0 <= k < c ==> #[trigger] col_types@[k] == self.col_types@[k],
                forall|k: int|
                    0 <= k < c ==> strings_of(#[trigger] string_columns@[k]) == filtered_strings(
                        strings_of(self.string_columns@[k]),
                        rows@,
                    ),
            decreases self.columns.len() - c,
        {
            let source: &Vec<u64> = &self.columns[c];
            let mut cells: Vec<u64> = Vec::new();
            let mut i: usize = 0;
            while i < rows.len()
                invariant
                    source.len() == self.row_count,
                    forall|k: int| 0 <= k < rows.len() ==> #[trigger] rows@[k] < self.row_count,
                    i <= rows.len(),
                    cells.len() == i,
                    forall|k: int| 0 <= k < i ==> #[trigger] cells@[k] == source@[rows@[k] as int],
                decreases rows.len() - i,
            {
                cells.push(source[rows[i]]);
                i = i + 1;
            }
            proof {
                assert(cells@ =~= at_rows(source@, rows@));
            }
            columns.push(cells);
            column_names.push(self.column_names[c].clone());
            col_types.push(self.col_types[c]);
            string_columns.push(filter_strings(&self.string_columns[c], rows));
            c = c + 1;
        }
        proof {
            assert(col_types@ =~= self.col_types@);
        }
        let t: ExecTable = ExecTable {
            columns,
            column_names,
            col_types,
            string_columns,
            row_count: rows.len(),
            col_map: self.col_map.duplicate(),
        };
        proof {
            let u = filtered(self@, rows@);
            assert(t@.columns =~= u.columns);
            assert(t@.column_names =~= u.column_names);
            assert(t@.strings =~= u.strings);
        }
        t
    }
}

/// The text of a row; empty where none is kept.
pub open spec fn text_at(texts: Seq<Seq<char>>, row: int) -> Seq<char> {
    if row < texts.len() {
        texts[row]
    } else {
        Seq::empty()
    }
}

/// The listed strings of a column.
pub open spec fn filtered_strings(texts: Option<Seq<Seq<char>>>, rows: Seq<usize>) -> Option<Seq<Seq<char>>> {
    match texts {
        Some(s) => Some(Seq::new(rows.len(), |i: int| text_at(s, rows[i] as int))),
        None => None,
    }
}

/// What a table holds.
#[verifier::ext_equal]
pub struct Held {
    pub row_count: int,
    pub columns: Seq<Seq<u64>>,
    pub column_names: Seq<Seq<char>>,
    pub col_types: Seq<ColType>,
    pub strings: Seq<Option<Seq<Seq<char>>>>,
    pub numbers: Map<Seq<char>, usize>,
}

impl Held {
    /// Every column has a name, a type and a cell for each row, and names stand
    /// for columns that exist.
    pub open spec fn wf(&self) -> bool {
        &&& self.column_names.len() == self.columns.len()
        &&& self.col_types.len() == self.columns.len()
        &&& self.strings.len() == self.columns.len()
        &&& forall|c: int| 0 <= c < self.columns.len() ==> (#[trigger] self.columns[c]).len() == self.row_count
        &&& forall|k: Seq<char>| #[trigger] self.numbers.dom().contains(k) ==> self.numbers[k] < self.columns.len()
    }

    /// The number of the column that a name stands for.
    pub open spec fn number(&self, name: Seq<char>) -> Option<usize> {
        if self.numbers.dom().contains(name) {
            Some(self.numbers[name])
        } else if self.numbers.dom().contains(lowercase(name)) {
            Some(self.numbers[lowercase(name)])
        } else {
            None
        }
    }

    /// The cell in a column and row; zero where there is no such row.
    pub open spec fn cell(&self, c: int, row: int) -> u64 {
        if row < self.columns[c].len() {
            self.columns[c][row]
        } else {
            0
        }
    }

    /// The value in a column and row, by the type of the column. A string is
    /// given by its text where it is kept, else by its hash.
    pub open spec fn value(&self, c: int, row: int) -> Val {
        let cell = self.cell(c, row);
        match self.col_types[c] {
            ColType::Int => Val::Int(word_signed(cell)),
            ColType::Float => Val::Float(cell),
            ColType::Date => Val::Date(half_date(cell)),
            ColType::String => match self.strings[c] {
                Some(texts) => if row < texts.len() {
                    Val::Str(texts[row])
                } else {
                    Val::Int(word_signed(cell))
                },
                None => Val::Int(word_signed(cell)),
            },
        }
    }

    /// The value that a name stands for in a row: by the name or, failing that,
    /// by what is behind its last dot.
    pub open spec fn named_value(&self, name: Seq<char>, row: int) -> Option<Val> {
        match self.number(name) {
            Some(c) => Some(self.value(c as int, row)),
            None => if last_dot(name) is None {
                None
            } else {
                match self.number(short_name(name)) {
                    Some(c) => Some(self.value(c as int, row)),
                    None => None,
                }
            },
        }
    }
}

impl View for ExecTable {
    type V = Held;

    open spec fn view(&self) -> Held {
        Held {
            row_count: self.row_count as int,
            columns: self.columns@.map_values(|c: Vec<u64>| c@),
            column_names: self.column_names@.map_values(|n: String| n@),
            col_types: self.col_types@,
            strings: self.string_columns@.map_values(|s: Option<StringSearchColumn>| strings_of(s)),
            numbers: self.col_map@,
        }
    }
}

/// What finding or making a table came to.
pub open spec fn table_outcome(r: Result<ExecTable, Error>) -> Result<Held, Fail> {
    match r {
        Ok(t) => Ok(t@),
        Err(e) => Err(e@),
    }
}

/// What tables hold.
pub open spec fn all_held(ts: Seq<ExecTable>) -> Seq<Held> {
    ts.map_values(|t: ExecTable| t@)
}

/// A table of the catalog under an alias.
pub open spec fn catalog_table(s: Table, alias: Seq<char>) -> Held {
    Held {
        row_count: s.row_count as int,
        columns: s.columns@.map_values(|c: Vec<u64>| c@),
        column_names: s.column_names@.map_values(|n: String| n@),
        col_types: column_types(s.name@, s.columns.len() as int),
        strings: s.string_columns@.map_values(|x: Option<StringSearchColumn>| strings_of(x)),
        numbers: catalog_numbers(s.column_names@, alias, s.name@, s.column_names@.len() as int),
    }
}

/// A table with only the listed rows.
pub open spec fn filtered(s: Held, rows: Seq<usize>) -> Held {
    Held {
        row_count: rows.len() as int,
        columns: s.columns.map_values(|c: Seq<u64>| at_rows(c, rows)),
        column_names: s.column_names,
        col_types: s.col_types,
        strings: s.strings.map_values(|x: Option<Seq<Seq<char>>>| filtered_strings(x, rows)),
        numbers: s.numbers,
    }
}

/// A copy of a column.
pub fn copy_cells(cells: &Vec<u64>) -> (r: Vec<u64>)
    ensures
        r@ == cells@,
{
    let r: Vec<u64> = cells.clone();
    proof {
        assert(r@ =~= cells@);
    }
    r
}

fn copy_strings(c: &Option<StringSearchColumn>) -> (r: Option<StringSearchColumn>)
    ensures
        strings_of(r) == strings_of(*c),
{
    match c {
        Some(s) => {
            let mut strings: Vec<String> = Vec::new();
            let mut i: usize = 0;
            while i < s.strings.len()
                invariant
                    i <= s.strings.len(),
                    strings.len() == i,
                    forall|k: int| 0 <= k < i ==> (#[trigger] strings@[k])@ == s.strings@[k]@,
                decreases s.strings.len() - i,
            {
                strings.push(s.strings[i].clone());
                i = i + 1;
            }
            let r: Option<StringSearchColumn> = Some(StringSearchColumn::new(strings));
            proof {
                assert(strings_of(r)->0 =~= strings_of(*c)->0);
            }
            r
        },
        None => None,
    }
}

fn filter_strings(c: &Option<StringSearchColumn>, rows: &Vec<usize>) -> (r: Option<StringSearchColumn>)
    ensures
        strings_of(r) == filtered_strings(strings_of(*c), rows@),
{
    match c {
        Some(s) => {
            let ghost texts = s.strings@.map_values(|x: String| x@);
            let mut strings: Vec<String> = Vec::new();
            let mut i: usize = 0;
            while i < rows.len()
                invariant
                    texts == s.strings@.map_values(|x: String| x@),
                    i <= rows.len(),
                    strings.len() == i,
                    forall|k: int| 0 <= k < i ==> (#[trigger] strings@[k])@ == text_at(texts, rows@[k] as int),
                decreases rows.len() - i,
            {
                if rows[i] < s.strings.len() {
                    strings.push(s.strings[rows[i]].clone());
                } else {
                    let none: Vec<char> = Vec::new();
                    proof {
                        assert(none@ =~= Seq::<char>::empty());
                    }
                    strings.push(string_of(&none));
                }
                i = i + 1;
            }
            let r: Option<StringSearchColumn> = Some(StringSearchColumn::new(strings));
            proof {
                assert(strings_of(r)->0 =~= filtered_strings(strings_of(*c), rows@)->0);
            }
            r
        },
        None => None,
    }
}

} // verus!
