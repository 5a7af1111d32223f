use vstd::prelude::*;
use crate::column::{Column, ColumnModel, Kind, gather_model, usize_seq_to_int};

verus! {

/// Why an operation refused its arguments.
#[derive(Clone, Debug, PartialEq, Eq)]
pub enum TableError {
    /// No column of the table has this name.
    ColumnNotFound(String),
    /// A column has a type the operation cannot use: the type expected, then
    /// the type found.
    TypeMismatch(Kind, Kind),
    /// The table already has a column of this name.
    DuplicateColumn(String),
    /// A column's length differs from the table's row count: the row count,
    /// then the column's length.
    LengthMismatch(usize, usize),
}

/// The mathematical content of a table.
pub struct TableModel {
    pub names: Seq<Seq<char>>,
    pub columns: Seq<ColumnModel>,
    pub rows: nat,
}

impl TableModel {
    /// One name per column, every column `rows` long, names unique.
    pub open spec fn wf(self) -> bool {
        &&& self.names.len() == self.columns.len()
        &&& forall|i: int| 0 <= i < self.columns.len() ==> #[trigger] self.columns[i].cells.len() == self.rows
        &&& forall|i: int, j: int|
            0 <= i < j < self.names.len() ==> #[trigger] self.names[i] != #[trigger] self.names[j]
    }

    pub open spec fn has(self, name: Seq<char>) -> bool {
        exists|i: int| 0 <= i < self.names.len() && self.names[i] == name
    }

    /// The position of the column named `name`.
    pub open spec fn position(self, name: Seq<char>) -> int {
        choose|i: int| 0 <= i < self.names.len() && self.names[i] == name
    }

    /// The column named `name`.
    pub open spec fn named(self, name: Seq<char>) -> ColumnModel {
        self.columns[self.position(name)]
    }

    /// The table whose row `j` is row `idx[j]` of this one.
    pub open spec fn select(self, idx: Seq<int>) -> TableModel {
        TableModel {
            names: self.names,
            columns: self.columns.map_values(|c: ColumnModel| gather_model(c, idx)),
            rows: idx.len(),
        }
    }
}

/// A table: named columns of one common length.
#[derive(Clone, Debug, PartialEq, Eq)]
pub struct Table {
    names: Vec<String>,
    columns: Vec<Column>,
    rows: usize,
}

impl View for Table {
    type V = TableModel;

    closed spec fn view(&self) -> TableModel {
        TableModel {
            names: self.names@.map_values(|s: String| s@),
            columns: self.columns@.map_values(|c: Column| c@),
            rows: self.rows as nat,
        }
    }
}

pub proof fn lemma_position(t: TableModel, name: Seq<char>, i: int)
    requires
        t.wf(),
        0 <= i < t.names.len(),
        t.names[i] == name,
    ensures
        t.has(name),
        t.position(name) == i,
{
    let p = t.position(name);
    assert(t.names[p] == name);
    if p != i {
        if p < i {
            assert(t.names[p] != t.names[i]);
        } else {
            assert(t.names[i] != t.names[p]);
        }
    }
}

impl Table {
    /// A table of `rows` rows and no columns.
    pub fn new(rows: usize) -> (r: Table)
        ensures
            r@.wf(),
            r@.rows == rows,
            r@.names.len() == 0,
    {
        let r = Table { names: Vec::new(), columns: Vec::new(), rows };
        assert(r@.names =~= Seq::<Seq<char>>::empty());
        r
    }

    /// The number of rows.
    pub fn rows(&self) -> (r: usize)
        ensures
            r == self@.rows,
    {
        self.rows
    }

    /// The number of columns.
    pub fn num_columns(&self) -> (r: usize)
        ensures
            r == self@.columns.len(),
    {
        self.columns.len()
    }

    /// The name of column `i`.
    pub fn name_at(&self, i: usize) -> (r: &String)
        requires
            i < self@.names.len(),
        ensures
            r@ == self@.names[i as int],
    {
        &self.names[i]
    }

    /// Column `i`.
    pub fn column_at(&self, i: usize) -> (r: &Column)
        requires
            i < self@.columns.len(),
        ensures
            r@ == self@.columns[i as int],
    {
        &self.columns[i]
    }

    /// The position of the column named `name`, if there is one.
    pub fn find(&self, name: &str) -> (r: Option<usize>)
        requires
            self@.wf(),
        ensures
            r is None <==> !self@.has(name@),
            r matches Some(i) ==> i == self@.position(name@) && i < self@.names.len(),
    {
        let key = name.to_owned();
        let mut i: usize = 0;
        while i < self.names.len()
            invariant
                self@.wf(),
                key@ == name@,
                i <= self.names@.len(),
                forall|k: int| 0 <= k < i ==> self@.names[k] != name@,
            decreases self.names@.len() - i,
        {
            if self.names[i].eq(&key) {
                proof {
                    lemma_position(self@, name@, i as int);
                }
                return Some(i);
            }
            i = i + 1;
        }
        None
    }

    /// The column named `name`, if there is one.
    pub fn column(&self, name: &str) -> (r: Option<&Column>)
        requires
            self@.wf(),
        ensures
            r is None <==> !self@.has(name@),
            r matches Some(c) ==> c@ == self@.named(name@),
    {
        match self.find(name) {
            Some(i) => Some(&self.columns[i]),
            None => None,
        }
    }

    /// Appends a column named `name`, refusing a name already present and a
    /// column whose length is not the row count.
    pub fn push_column(&mut self, name: String, col: Column) -> (r: Result<(), TableError>)
        requires
            old(self)@.wf(),
        ensures
            final(self)@.wf(),
            old(self)@.has(name@) ==> r == Err::<(), TableError>(TableError::DuplicateColumn(name))
                && final(self)@ == old(self)@,
            !old(self)@.has(name@) && col@.cells.len() != old(self)@.rows ==> r == Err::<(), TableError>(
                TableError::LengthMismatch(old(self)@.rows as usize, col@.cells.len() as usize),
            ) && final(self)@ == old(self)@,
            !old(self)@.has(name@) && col@.cells.len() == old(self)@.rows ==> r is Ok && final(self)@ == (
            TableModel {
                names: old(self)@.names.push(name@),
                columns: old(self)@.columns.push(col@),
                rows: old(self)@.rows,
            }),
    {
        if self.find(name.as_str()).is_some() {
            return Err(TableError::DuplicateColumn(name));
        }
        let n = col.len();
        if n != self.rows {
            return Err(TableError::LengthMismatch(self.rows, n));
        }
        let ghost before = self@;
        self.names.push(name);
        self.columns.push(col);
        assert(self@.names =~= before.names.push(name@));
        assert(self@.columns =~= before.columns.push(col@));
        proof {
            assert forall|i: int, j: int| 0 <= i < j < self@.names.len() implies
                #[trigger] self@.names[i] != #[trigger] self@.names[j] by {
                if j == before.names.len() {
                    assert(before.names[i] != name@);
                }
            }
        }
        Ok(())
    }

    /// A copy of this table.
    pub fn duplicate(&self) -> (r: Table)
        ensures
            r@ == self@,
    {
        let mut cols: Vec<Column> = Vec::with_capacity(self.columns.len());
        let mut k: usize = 0;
        while k < self.columns.len()
            invariant
                k <= self.columns@.len(),
                cols@.len() == k,
                forall|m: int| 0 <= m < k ==> (#[trigger] cols@[m])@ == self.columns@[m]@,
            decreases self.columns@.len() - k,
        {
            cols.push(self.columns[k].duplicate());
            k = k + 1;
        }
        let r = Table { names: self.names.clone(), columns: cols, rows: self.rows };
        assert(r@.columns =~= self@.columns);
        assert(r@.names =~= self@.names);
        r
    }

    /// A new table holding this one's columns and then `col`, named `name`.
    pub fn with_column(&self, name: String, col: Column) -> (r: Result<Table, TableError>)
        requires
            self@.wf(),
        ensures
            self@.has(name@) ==> r == Err::<Table, TableError>(TableError::DuplicateColumn(name)),
            !self@.has(name@) && col@.cells.len() != self@.rows ==> r == Err::<Table, TableError>(
                TableError::LengthMismatch(self@.rows as usize, col@.cells.len() as usize),
            ),
            !self@.has(name@) && col@.cells.len() == self@.rows ==> (r matches Ok(out) && out@ == (
            TableModel {
                names: self@.names.push(name@),
                columns: self@.columns.push(col@),
                rows: self@.rows,
            })),
            r matches Ok(out) ==> out@.wf(),
    {
        let mut out = self.duplicate();
        match out.push_column(name, col) {
            Ok(()) => Ok(out),
            Err(e) => Err(e),
        }
    }

    /// The table whose row `j` is row `idx[j]` of this one.
    pub fn select(&self, idx: &Vec<usize>) -> (r: Table)
        requires
            self@.wf(),
            forall|j: int| 0 <= j < idx@.len() ==> idx@[j] < self@.rows,
        ensures
            r@ == self@.select(usize_seq_to_int(idx@)),
            r@.wf(),
    {
        let ghost sel = self@.select(usize_seq_to_int(idx@));
        let mut cols: Vec<Column> = Vec::with_capacity(self.columns.len());
        let mut k: usize = 0;
        while k < self.columns.len()
            invariant
                self@.wf(),
                forall|j: int| 0 <= j < idx@.len() ==> idx@[j] < self@.rows,
                k <= self.columns@.len(),
                cols@.len() == k,
                forall|m: int| 0 <= m < k ==> (#[trigger] cols@[m])@ == gather_model(self.columns@[m]@, usize_seq_to_int(idx@)),
            decreases self.columns@.len() - k,
        {
            assert(self@.columns[k as int].cells.len() == self@.rows);
            let c = self.columns[k].gather(idx);
            cols.push(c);
            k = k + 1;
        }
        let r = Table { names: self.names.clone(), columns: cols, rows: idx.len() };
        assert(r@.columns =~= sel.columns);
        assert(r@.names =~= sel.names);
        r
    }
}

} // verus!
