//! Tables, the catalog that holds them, and query results.

use crate::error::Error;
use crate::text::same_text;
use vstd::prelude::*;

verus! {

/// The place of the first name that equals `name`.
pub open spec fn name_index(names: Seq<String>, name: Seq<char>) -> Option<usize>
    decreases names.len(),
{
    if names.len() == 0 {
        None
    } else {
        match name_index(names.drop_last(), name) {
            Some(i) => Some(i),
            None => if names.last()@ == name {
                Some((names.len() - 1) as usize)
            } else {
                None
            },
        }
    }
}

/// The first place of a name is a place where it stands, and none before it is.
pub proof fn name_index_is_first(names: Seq<String>, name: Seq<char>)
    requires
        names.len() <= usize::MAX,
    ensures
        match name_index(names, name) {
            Some(i) => i < names.len() && names[i as int]@ == name && forall|j: int|
                0 <= j < i ==> (#[trigger] names[j])@ != name,
            None => forall|j: int| 0 <= j < names.len() ==> (#[trigger] names[j])@ != name,
        },
    decreases names.len(),
{
    if names.len() > 0 {
        let front = names.drop_last();
        name_index_is_first(front, name);
        assert forall|j: int| 0 <= j < front.len() implies #[trigger] names[j] == front[j] by {}
    }
}

/// Finds a name in a list.
pub fn find_name(names: &Vec<String>, name: &str) -> (r: Option<usize>)
    ensures
        r == name_index(names@, name@),
        r matches Some(i) ==> i < names.len() && names@[i as int]@ == name@,
{
    let mut i: usize = 0;
    while i < names.len()
        invariant
            i <= names.len(),
            name_index(names@.take(i as int), name@) is None,
        decreases names.len() - i,
    {
        proof {
            assert(names@.take(i + 1).drop_last() =~= names@.take(i as int));
            assert(names@.take(i + 1).last() == names@[i as int]);
        }
        if same_text(names[i].as_str(), name) {
            proof {
                lemma_name_index_extends(names@, name@, i + 1);
            }
            return Some(i);
        }
        i = i + 1;
    }
    proof {
        assert(names@.take(i as int) =~= names@);
    }
    None
}

proof fn lemma_name_index_extends(names: Seq<String>, name: Seq<char>, n: int)
    requires
        0 <= n <= names.len(),
        name_index(names.take(n), name) is Some,
    ensures
        name_index(names, name) == name_index(names.take(n), name),
    decreases names.len() - n,
{
    if n < names.len() {
        assert(names.take(n + 1).drop_last() =~= names.take(n));
        lemma_name_index_extends(names, name, n + 1);
    } else {
        assert(names.take(n) =~= names);
    }
}

/// The strings of a column, kept beside their hashes.
#[derive(Debug)]
pub struct StringSearchColumn {
    pub strings: Vec<String>,
}

impl StringSearchColumn {
    pub fn new(strings: Vec<String>) -> (c: Self)
        ensures
            c.strings == strings,
    {
        StringSearchColumn { strings }
    }

    pub fn len(&self) -> (n: usize)
        ensures
            n == self.strings.len(),
    {
        self.strings.len()
    }

    pub fn get(&self, i: usize) -> (s: &str)
        requires
            i < self.strings.len(),
        ensures
            s@ == self.strings@[i as int]@,
    {
        self.strings[i].as_str()
    }
}

/// A column as a loader hands it over.
#[derive(Debug)]
pub struct LoadedColumn {
    pub name: String,
    pub cells: Vec<u64>,
    pub row_count: usize,
    pub string_search: Option<StringSearchColumn>,
}

/// A table as a loader hands it over.
#[derive(Debug)]
pub struct LoadedTable {
    pub name: String,
    pub columns: Vec<LoadedColumn>,
    pub row_count: usize,
}

/// A table held by columns.
#[derive(Debug)]
pub struct Table {
    pub name: String,
    pub column_names: Vec<String>,
    pub columns: Vec<Vec<u64>>,
    pub string_columns: Vec<Option<StringSearchColumn>>,
    pub row_count: usize,
}

impl Table {
    /// Every column has a name, a cell for each row and, where it holds
    /// strings, a string for each row.
    pub open spec fn wf(&self) -> bool {
        &&& self.column_names.len() == self.columns.len()
        &&& self.string_columns.len() == self.columns.len()
        &&& forall|c: int| 0 <= c < self.columns.len() ==> (#[trigger] self.columns@[c]).len() == self.row_count
        &&& forall|c: int|
            0 <= c < self.string_columns.len() ==> ((#[trigger] self.string_columns@[c]) matches Some(s)
                ==> s.strings.len() == self.row_count)
    }

    /// The cell in column `c` and row `r`.
    pub open spec fn cell(&self, c: int, r: int) -> u64 {
        self.columns@[c]@[r]
    }

    /// Takes over the columns of a loaded table.
    pub fn from_loaded(loaded: LoadedTable) -> (t: Table)
        ensures
            t.name == loaded.name,
            t.row_count == loaded.row_count,
            t.columns.len() == loaded.columns.len(),
            t.column_names.len() == loaded.columns.len(),
            t.string_columns.len() == loaded.columns.len(),
            forall|c: int|
                #![trigger loaded.columns@[c]]
                0 <= c < loaded.columns.len() ==> t.column_names@[c] == loaded.columns@[c].name && t.columns@[c]
                    == loaded.columns@[c].cells && t.string_columns@[c] == loaded.columns@[c].string_search,
    {
        let name: String = loaded.name;
        let row_count: usize = loaded.row_count;
        let mut source: Vec<LoadedColumn> = loaded.columns;
        let ghost all = source@;
        let mut names_back: Vec<String> = Vec::new();
        let mut cells_back: Vec<Vec<u64>> = Vec::new();
        let mut strings_back: Vec<Option<StringSearchColumn>> = Vec::new();
        while source.len() > 0
            invariant
                source@ == all.take(source.len() as int),
                source.len() <= all.len(),
                names_back.len() == all.len() - source.len(),
                cells_back.len() == all.len() - source.len(),
                strings_back.len() == all.len() - source.len(),
                forall|k: int|
                    0 <= k < names_back.len() ==> #[trigger] names_back@[k] == all[all.len() - 1 - k].name
                        && cells_back@[k] == all[all.len() - 1 - k].cells && strings_back@[k] == all[all.len() - 1
                        - k].string_search,
            decreases source.len(),
        {
            let col: LoadedColumn = source.pop().unwrap();
            proof {
                assert(source@ =~= all.take(source.len() as int));
            }
            names_back.push(col.name);
            cells_back.push(col.cells);
            strings_back.push(col.string_search);
        }
        let mut column_names: Vec<String> = Vec::new();
        let mut columns: Vec<Vec<u64>> = Vec::new();
        let mut string_columns: Vec<Option<StringSearchColumn>> = Vec::new();
        let ghost names0 = names_back@;
        let ghost cells0 = cells_back@;
        let ghost strings0 = strings_back@;
        while names_back.len() > 0
            invariant
                names0.len() == all.len(),
                cells0.len() == all.len(),
                strings0.len() == all.len(),
                names_back.len() <= all.len(),
                names_back@ == names0.take(names_back.len() as int),
                cells_back@ == cells0.take(names_back.len() as int),
                strings_back@ == strings0.take(names_back.len() as int),
                column_names.len() == all.len() - names_back.len(),
                columns.len() == all.len() - names_back.len(),
                string_columns.len() == all.len() - names_back.len(),
                forall|k: int|
                    0 <= k < all.len() ==> #[trigger] names0[k] == all[all.len() - 1 - k].name && cells0[k]
                        == all[all.len() - 1 - k].cells && strings0[k] == all[all.len() - 1 - k].string_search,
                forall|c: int|
                    0 <= c < column_names.len() ==> #[trigger] column_names@[c] == names0[all.len() - 1 - c]
                        && columns@[c] == cells0[all.len() - 1 - c] && string_columns@[c] == strings0[all.len() - 1
                        - c],
            decreases names_back.len(),
        {
            let n: String = names_back.pop().unwrap();
            let v: Vec<u64> = cells_back.pop().unwrap();
            let s: Option<StringSearchColumn> = strings_back.pop().unwrap();
            proof {
                assert(names_back@ =~= names0.take(names_back.len() as int));
                assert(cells_back@ =~= cells0.take(names_back.len() as int));
                assert(strings_back@ =~= strings0.take(names_back.len() as int));
            }
            column_names.push(n);
            columns.push(v);
            string_columns.push(s);
        }
        proof {
            assert forall|c: int| 0 <= c < all.len() implies column_names@[c] == (#[trigger] all[c]).name && columns@[c]
                == all[c].cells && string_columns@[c] == all[c].string_search by {
                assert(names0[all.len() - 1 - c] == all[c].name);
            }
        }
        Table { name, column_names, columns, string_columns, row_count }
    }

    /// The place of the first column with a name.
    pub fn column_idx(&self, name: &str) -> (r: Option<usize>)
        ensures
            r == name_index(self.column_names@, name@),
            r matches Some(i) ==> i < self.column_names.len(),
    {
        find_name(&self.column_names, name)
    }
}

/// The tables that queries may name.
#[derive(Debug)]
pub struct Catalog {
    pub tables: Vec<Table>,
}

/// The place of the first table with a name.
pub open spec fn table_index(tables: Seq<Table>, name: Seq<char>) -> Option<int>
    decreases tables.len(),
{
    if tables.len() == 0 {
        None
    } else if tables[0].name@ == name {
        Some(0)
    } else {
        match table_index(tables.skip(1), name) {
            Some(i) => Some(i + 1),
            None => None,
        }
    }
}

impl Catalog {
    /// The table with a name.
    pub open spec fn lookup(&self, name: Seq<char>) -> Option<Table> {
        match table_index(self.tables@, name) {
            Some(i) => Some(self.tables@[i]),
            None => None,
        }
    }

    pub fn new() -> (c: Self)
        ensures
            c.tables@ == Seq::<Table>::empty(),
    {
        Catalog { tables: Vec::new() }
    }

    fn place_of(&self, name: &str) -> (r: Option<usize>)
        ensures
            match r {
                Some(i) => table_index(self.tables@, name@) == Some(i as int) && i < self.tables.len()
                    && self.tables@[i as int].name@ == name@,
                None => table_index(self.tables@, name@) is None,
            },
    {
        let mut i: usize = 0;
        proof {
            assert(self.tables@.skip(0) =~= self.tables@);
        }
        while i < self.tables.len()
            invariant
                i <= self.tables.len(),
                table_index(self.tables@, name@) == shifted(table_index(self.tables@.skip(i as int), name@), i as int),
            decreases self.tables.len() - i,
        {
            proof {
                assert(self.tables@.skip(i as int).skip(1) =~= self.tables@.skip(i + 1));
            }
            if same_text(self.tables[i].name.as_str(), name) {
                return Some(i);
            }
            i = i + 1;
        }
        None
    }

    /// Adds a table; a table of that name that is already held is dropped.
    pub fn register(&mut self, table: Table)
        ensures
            final(self).lookup(table.name@) == Some(table),
            forall|name: Seq<char>|
                name != table.name@ ==> #[trigger] final(self).lookup(name) == old(self).lookup(name),
    {
        let ghost before = self.tables@;
        match self.place_of(table.name.as_str()) {
            Some(k) => {
                self.tables.set(k, table);
                proof {
                    lemma_table_replaced(before, k as int, table, table.name@);
                    assert forall|name: Seq<char>| name != table.name@ implies #[trigger] self.lookup(name) == old(
                        self,
                    ).lookup(name) by {
                        lemma_table_index_bounds(before, name);
                        lemma_table_replaced(before, k as int, table, name);
                    }
                }
            },
            None => {
                self.tables.push(table);
                proof {
                    lemma_table_pushed(before, table, table.name@);
                    assert forall|name: Seq<char>| name != table.name@ implies #[trigger] self.lookup(name) == old(
                        self,
                    ).lookup(name) by {
                        lemma_table_index_bounds(before, name);
                        lemma_table_pushed(before, table, name);
                    }
                }
            },
        }
    }

    /// The table with a name, if there is one.
    pub fn get(&self, name: &str) -> (t: Option<&Table>)
        ensures
            match t {
                Some(table) => self.lookup(name@) == Some(*table) && table.name@ == name@,
                None => self.lookup(name@) is None,
            },
    {
        match self.place_of(name) {
            Some(i) => Some(&self.tables[i]),
            None => None,
        }
    }
}

proof fn lemma_table_index_bounds(tables: Seq<Table>, name: Seq<char>)
    ensures
        table_index(tables, name) matches Some(i) ==> 0 <= i < tables.len() && tables[i].name@ == name,
    decreases tables.len(),
{
    if tables.len() > 0 {
        lemma_table_index_bounds(tables.skip(1), name);
    }
}

/// A place counted from `by` further on.
pub open spec fn shifted(place: Option<int>, by: int) -> Option<int> {
    match place {
        Some(i) => Some(i + by),
        None => None,
    }
}

proof fn lemma_table_replaced(tables: Seq<Table>, k: int, table: Table, name: Seq<char>)
    requires
        0 <= k < tables.len(),
        tables[k].name@ == table.name@,
    ensures
        table_index(tables.update(k, table), name) == table_index(tables, name),
    decreases tables.len(),
{
    let after = tables.update(k, table);
    if k == 0 {
        assert(after.skip(1) =~= tables.skip(1));
    } else {
        lemma_table_replaced(tables.skip(1), k - 1, table, name);
        assert(after.skip(1) =~= tables.skip(1).update(k - 1, table));
    }
}

proof fn lemma_table_pushed(tables: Seq<Table>, table: Table, name: Seq<char>)
    ensures
        table_index(tables.push(table), name) == (match table_index(tables, name) {
            Some(i) => Some(i),
            None => if name == table.name@ {
                Some(tables.len() as int)
            } else {
                None
            },
        }),
    decreases tables.len(),
{
    let after = tables.push(table);
    if tables.len() == 0 {
        assert(after.skip(1) =~= Seq::<Table>::empty());
        assert(table_index(after.skip(1), name) is None);
        assert(after[0] == table);
    } else {
        assert(after[0] == tables[0]);
        lemma_table_pushed(tables.skip(1), table, name);
        assert(after.skip(1) =~= tables.skip(1).push(table));
    }
}

/// One column of a result.
#[derive(Debug)]
pub struct ResultColumn {
    pub name: String,
    pub values: Vec<u64>,
    pub string_values: Option<Vec<String>>,
}

/// What a result column says: its name and its cells.
pub open spec fn column_view(c: ResultColumn) -> (Seq<char>, Seq<u64>) {
    (c.name@, c.values@)
}

/// The answer to a query.
#[derive(Debug)]
pub struct QueryResult {
    pub columns: Vec<ResultColumn>,
    pub row_count: usize,
    pub elapsed_us: u64,
}

impl QueryResult {
    /// The columns in order.
    pub open spec fn view(&self) -> Seq<(Seq<char>, Seq<u64>)> {
        self.columns@.map_values(|c: ResultColumn| column_view(c))
    }

    /// Every column has a cell for each row.
    pub open spec fn wf(&self) -> bool {
        forall|c: int| 0 <= c < self.columns.len() ==> (#[trigger] self.columns@[c]).values.len() == self.row_count
    }

    /// No column keeps texts.
    pub open spec fn only_cells(&self) -> bool {
        forall|c: int| 0 <= c < self.columns.len() ==> (#[trigger] self.columns@[c]).string_values is None
    }

    /// No time is told, and no column keeps texts.
    pub open spec fn bare(&self) -> bool {
        self.elapsed_us == 0 && self.only_cells()
    }

    /// A result without columns or rows.
    pub fn empty() -> (r: Self)
        ensures
            r@ == Seq::<(Seq<char>, Seq<u64>)>::empty(),
            r.columns@ == Seq::<ResultColumn>::empty(),
            r.row_count == 0,
            r.elapsed_us == 0,
            r.wf(),
    {
        let r: QueryResult = QueryResult { columns: Vec::new(), row_count: 0, elapsed_us: 0 };
        proof {
            assert(r@ =~= Seq::<(Seq<char>, Seq<u64>)>::empty());
        }
        r
    }

    /// Adds a column. The first column sets the number of rows; every later
    /// one must have as many.
    pub fn push_column(&mut self, column: ResultColumn) -> (r: Result<(), Error>)
        requires
            old(self).wf(),
        ensures
            final(self).wf(),
            r is Ok <==> old(self).columns.len() == 0 || column.values.len() == old(self).row_count,
            r is Ok ==> final(self)@ == old(self)@.push(column_view(column)) && final(self).row_count
                == column.values.len(),
            r is Ok ==> final(self).columns@ == old(self).columns@.push(column),
            r is Err ==> *final(self) == *old(self),
            r matches Err(e) ==> (e matches Error::Other(m) && m@ == "column length does not match the row count"@),
    {
        if self.columns.len() > 0 && column.values.len() != self.row_count {
            return Err(Error::Other("column length does not match the row count".to_owned()));
        }
        self.row_count = column.values.len();
        self.columns.push(column);
        proof {
            assert(self@ =~= old(self)@.push(column_view(column)));
        }
        Ok(())
    }
}

} // verus!
