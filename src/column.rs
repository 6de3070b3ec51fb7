//! Typed, null-aware column storage.
use vstd::prelude::*;

verus! {

/// The variant of a column, fixed when the column is created.
#[derive(Debug, Clone, Copy, PartialEq, Eq, Structural)]
pub enum ColumnType {
    Tag,
    I64,
    F64,
    Bool,
    String,
}

/// One value to store in a column. Tag values are dictionary symbols;
/// floating-point values are held as their IEEE-754 bit pattern.
#[derive(Debug)]
pub enum ColumnValue {
    Tag(u32),
    I64(i64),
    F64(u64),
    Bool(bool),
    String(String),
}

/// The mathematical content of one stored value.
pub enum Cell {
    Tag(u32),
    I64(i64),
    F64(u64),
    Bool(bool),
    String(Seq<char>),
}

/// The mathematical content of a column: its variant and one optional value
/// per row.
pub struct ColumnView {
    pub kind: ColumnType,
    pub cells: Seq<Option<Cell>>,
}

/// A column with a dense sequence of optional values of one variant.
#[derive(Debug)]
pub enum Column {
    Tag(Vec<Option<u32>>),
    I64(Vec<Option<i64>>),
    F64(Vec<Option<u64>>),
    Bool(Vec<Option<bool>>),
    String(Vec<Option<String>>),
}

/// A column that failed to take a value of another variant.
#[derive(Debug, Clone, Copy, PartialEq, Eq, Structural)]
pub struct SchemaMismatch {
    pub expected: ColumnType,
    pub found: ColumnType,
}

impl ColumnValue {
    /// The cell that this value becomes once stored.
    pub open spec fn cell(&self) -> Cell {
        match self {
            ColumnValue::Tag(v) => Cell::Tag(*v),
            ColumnValue::I64(v) => Cell::I64(*v),
            ColumnValue::F64(v) => Cell::F64(*v),
            ColumnValue::Bool(v) => Cell::Bool(*v),
            ColumnValue::String(v) => Cell::String(v@),
        }
    }

    /// The column variant that stores this value.
    pub open spec fn spec_kind(&self) -> ColumnType {
        self.cell().kind()
    }

    /// The column variant that stores this value.
    pub fn kind(&self) -> (r: ColumnType)
        ensures
            r == self.spec_kind(),
    {
        match self {
            ColumnValue::Tag(_) => ColumnType::Tag,
            ColumnValue::I64(_) => ColumnType::I64,
            ColumnValue::F64(_) => ColumnType::F64,
            ColumnValue::Bool(_) => ColumnType::Bool,
            ColumnValue::String(_) => ColumnType::String,
        }
    }
}

impl ColumnValue {
    /// A copy of this value.
    pub fn copy(&self) -> (r: ColumnValue)
        ensures
            r.cell() == self.cell(),
    {
        match self {
            ColumnValue::Tag(v) => ColumnValue::Tag(*v),
            ColumnValue::I64(v) => ColumnValue::I64(*v),
            ColumnValue::F64(v) => ColumnValue::F64(*v),
            ColumnValue::Bool(v) => ColumnValue::Bool(*v),
            ColumnValue::String(v) => ColumnValue::String(v.clone()),
        }
    }
}

impl Cell {
    /// The column variant that stores this cell.
    pub open spec fn kind(&self) -> ColumnType {
        match self {
            Cell::Tag(_) => ColumnType::Tag,
            Cell::I64(_) => ColumnType::I64,
            Cell::F64(_) => ColumnType::F64,
            Cell::Bool(_) => ColumnType::Bool,
            Cell::String(_) => ColumnType::String,
        }
    }
}

/// A sequence of `n` nulls.
pub open spec fn nulls(n: nat) -> Seq<Option<Cell>> {
    Seq::new(n, |i: int| None::<Cell>)
}

/// The cell of an optional stored `u32`.
pub open spec fn tag_cell(o: Option<u32>) -> Option<Cell> {
    match o {
        Some(x) => Some(Cell::Tag(x)),
        None => None,
    }
}

/// The cell of an optional stored `i64`.
pub open spec fn i64_cell(o: Option<i64>) -> Option<Cell> {
    match o {
        Some(x) => Some(Cell::I64(x)),
        None => None,
    }
}

/// The cell of an optional stored `u64`.
pub open spec fn f64_cell(o: Option<u64>) -> Option<Cell> {
    match o {
        Some(x) => Some(Cell::F64(x)),
        None => None,
    }
}

/// The cell of an optional stored `bool`.
pub open spec fn bool_cell(o: Option<bool>) -> Option<Cell> {
    match o {
        Some(x) => Some(Cell::Bool(x)),
        None => None,
    }
}

/// The cell of an optional stored `String`.
pub open spec fn string_cell(o: Option<String>) -> Option<Cell> {
    match o {
        Some(x) => Some(Cell::String(x@)),
        None => None,
    }
}

/// The cells of a stored sequence of optional `u32`.
pub open spec fn tag_cells(v: Seq<Option<u32>>) -> Seq<Option<Cell>> {
    v.map_values(|o: Option<u32>| tag_cell(o))
}

/// The cells of a stored sequence of optional `i64`.
pub open spec fn i64_cells(v: Seq<Option<i64>>) -> Seq<Option<Cell>> {
    v.map_values(|o: Option<i64>| i64_cell(o))
}

/// The cells of a stored sequence of optional `u64`.
pub open spec fn f64_cells(v: Seq<Option<u64>>) -> Seq<Option<Cell>> {
    v.map_values(|o: Option<u64>| f64_cell(o))
}

/// The cells of a stored sequence of optional `bool`.
pub open spec fn bool_cells(v: Seq<Option<bool>>) -> Seq<Option<Cell>> {
    v.map_values(|o: Option<bool>| bool_cell(o))
}

/// The cells of a stored sequence of optional `String`.
pub open spec fn string_cells(v: Seq<Option<String>>) -> Seq<Option<Cell>> {
    v.map_values(|o: Option<String>| string_cell(o))
}

impl View for Column {
    type V = ColumnView;

    open spec fn view(&self) -> ColumnView {
        match self {
            Column::Tag(v) => ColumnView {
                kind: ColumnType::Tag,
                cells: tag_cells(v@),
            },
            Column::I64(v) => ColumnView {
                kind: ColumnType::I64,
                cells: i64_cells(v@),
            },
            Column::F64(v) => ColumnView {
                kind: ColumnType::F64,
                cells: f64_cells(v@),
            },
            Column::Bool(v) => ColumnView {
                kind: ColumnType::Bool,
                cells: bool_cells(v@),
            },
            Column::String(v) => ColumnView {
                kind: ColumnType::String,
                cells: string_cells(v@),
            },
        }
    }
}

impl Column {
    /// A column of `kind` holding `n` nulls.
    pub fn new_nulls(kind: ColumnType, n: usize) -> (r: Column)
        ensures
            r@.kind == kind,
            r@.cells == nulls(n as nat),
    {
        let r = match kind {
            ColumnType::Tag => Column::Tag(null_vec(n)),
            ColumnType::I64 => Column::I64(null_vec(n)),
            ColumnType::F64 => Column::F64(null_vec(n)),
            ColumnType::Bool => Column::Bool(null_vec(n)),
            ColumnType::String => Column::String(null_vec(n)),
        };
        assert(r@.cells =~= nulls(n as nat));
        r
    }

    /// The variant of this column.
    pub fn kind(&self) -> (r: ColumnType)
        ensures
            r == self@.kind,
    {
        match self {
            Column::Tag(_) => ColumnType::Tag,
            Column::I64(_) => ColumnType::I64,
            Column::F64(_) => ColumnType::F64,
            Column::Bool(_) => ColumnType::Bool,
            Column::String(_) => ColumnType::String,
        }
    }

    /// Number of rows, nulls included.
    pub fn len(&self) -> (r: usize)
        ensures
            r == self@.cells.len(),
    {
        match self {
            Column::Tag(v) => v.len(),
            Column::I64(v) => v.len(),
            Column::F64(v) => v.len(),
            Column::Bool(v) => v.len(),
            Column::String(v) => v.len(),
        }
    }

    /// Appends one null.
    pub fn push_null(&mut self)
        ensures
            final(self)@.kind == old(self)@.kind,
            final(self)@.cells == old(self)@.cells.push(None),
    {
        match self {
            Column::Tag(v) => v.push(None),
            Column::I64(v) => v.push(None),
            Column::F64(v) => v.push(None),
            Column::Bool(v) => v.push(None),
            Column::String(v) => v.push(None),
        }
        assert(self@.cells =~= old(self)@.cells.push(None));
    }

    /// Appends `value`, or fails without change if the column holds another
    /// variant.
    pub fn push(&mut self, value: ColumnValue) -> (r: Result<(), SchemaMismatch>)
        ensures
            final(self)@.kind == old(self)@.kind,
            value.spec_kind() == old(self)@.kind ==> r is Ok && final(self)@.cells == old(
                self,
            )@.cells.push(Some(value.cell())),
            value.spec_kind() != old(self)@.kind ==> r == Err::<(), SchemaMismatch>(
                SchemaMismatch { expected: old(self)@.kind, found: value.spec_kind() },
            ) && final(self)@ == old(self)@,
    {
        let ghost before = self@.cells;
        let ghost cell = value.cell();
        let k = self.kind();
        let vk = value.kind();
        if k != vk {
            return Err(SchemaMismatch { expected: k, found: vk });
        }
        match self {
            Column::Tag(v) => {
                if let ColumnValue::Tag(x) = value {
                    v.push(Some(x));
                }
            },
            Column::I64(v) => {
                if let ColumnValue::I64(x) = value {
                    v.push(Some(x));
                }
            },
            Column::F64(v) => {
                if let ColumnValue::F64(x) = value {
                    v.push(Some(x));
                }
            },
            Column::Bool(v) => {
                if let ColumnValue::Bool(x) = value {
                    v.push(Some(x));
                }
            },
            Column::String(v) => {
                if let ColumnValue::String(x) = value {
                    v.push(Some(x));
                }
            },
        }
        assert(self@.cells =~= before.push(Some(cell)));
        Ok(())
    }
}

/// A vector of `n` nulls.
fn null_vec<T>(n: usize) -> (r: Vec<Option<T>>)
    ensures
        r@.len() == n,
        forall|i: int| 0 <= i < n ==> r@[i] is None,
{
    let mut r: Vec<Option<T>> = Vec::new();
    let mut i: usize = 0;
    while i < n
        invariant
            i <= n,
            r@.len() == i,
            forall|k: int| 0 <= k < i ==> r@[k] is None,
        decreases n - i,
    {
        r.push(None);
        i = i + 1;
    }
    r
}

} // verus!
