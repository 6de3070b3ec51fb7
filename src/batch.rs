//! Query output: the columns of a table, with tags resolved to strings.
use vstd::prelude::*;
use crate::column::{bool_cells, f64_cells, i64_cells, string_cells, Cell};

verus! {

/// The values of one output column; tag columns come out as strings.
/// Floating-point values are held as their IEEE-754 bit pattern.
#[derive(Debug, PartialEq)]
pub enum ColumnData {
    String(Vec<Option<String>>),
    I64(Vec<Option<i64>>),
    F64(Vec<Option<u64>>),
    Bool(Vec<Option<bool>>),
}

/// A named output column.
#[derive(Debug, PartialEq)]
pub struct BatchColumn {
    pub name: String,
    pub data: ColumnData,
}

/// The projection of one table in one partition.
#[derive(Debug, PartialEq)]
pub struct RecordBatch {
    pub columns: Vec<BatchColumn>,
}

/// The name and cells of an output column.
pub struct BatchColumnView {
    pub name: Seq<char>,
    pub cells: Seq<Option<Cell>>,
}

impl View for ColumnData {
    type V = Seq<Option<Cell>>;

    open spec fn view(&self) -> Seq<Option<Cell>> {
        match self {
            ColumnData::String(v) => string_cells(v@),
            ColumnData::I64(v) => i64_cells(v@),
            ColumnData::F64(v) => f64_cells(v@),
            ColumnData::Bool(v) => bool_cells(v@),
        }
    }
}

impl View for BatchColumn {
    type V = BatchColumnView;

    open spec fn view(&self) -> BatchColumnView {
        BatchColumnView { name: self.name@, cells: self.data@ }
    }
}

/// The contents of a list of output columns.
pub open spec fn batch_columns_view(v: Seq<BatchColumn>) -> Seq<BatchColumnView> {
    v.map_values(|c: BatchColumn| c@)
}

impl View for RecordBatch {
    type V = Seq<BatchColumnView>;

    open spec fn view(&self) -> Seq<BatchColumnView> {
        batch_columns_view(self.columns@)
    }
}

impl RecordBatch {
    /// Number of columns.
    pub fn num_columns(&self) -> (r: usize)
        ensures
            r == self@.len(),
    {
        self.columns.len()
    }
}

} // verus!
