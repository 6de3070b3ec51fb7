//! The write-ahead-log batch: the values that one write hands to the
//! partitions, grouped by partition key and table.
use vstd::prelude::*;

verus! {

/// One value of a row as it travels in a batch. Floating-point values are
/// carried as their IEEE-754 bit pattern.
#[derive(Debug)]
pub enum WireValue {
    Tag(String),
    I64(i64),
    F64(u64),
    Bool(bool),
    String(String),
    Time(i64),
}

/// A named value.
#[derive(Debug)]
pub struct FieldValue {
    pub name: String,
    pub value: WireValue,
}

/// One row of a table.
#[derive(Debug)]
pub struct Row {
    pub values: Vec<FieldValue>,
}

/// The rows written to one table.
#[derive(Debug)]
pub struct TableWriteBatch {
    pub table: String,
    pub rows: Vec<Row>,
}

/// What one write does to one partition.
#[derive(Debug)]
pub struct WriteBufferEntry {
    pub partition_key: String,
    pub table_batches: Vec<TableWriteBatch>,
}

/// One write, as stored in one frame of the log.
#[derive(Debug)]
pub struct WriteBufferBatch {
    pub entries: Vec<WriteBufferEntry>,
}

/// The content of a `WireValue`.
pub enum ValueModel {
    Tag(Seq<char>),
    I64(i64),
    F64(u64),
    Bool(bool),
    String(Seq<char>),
    Time(i64),
}

/// The content of a `FieldValue`.
pub struct FieldModel {
    pub name: Seq<char>,
    pub value: ValueModel,
}

/// The content of a `TableWriteBatch`.
pub struct TableBatchModel {
    pub table: Seq<char>,
    pub rows: Seq<Seq<FieldModel>>,
}

/// The content of a `WriteBufferEntry`.
pub struct EntryModel {
    pub partition_key: Seq<char>,
    pub table_batches: Seq<TableBatchModel>,
}

impl View for WireValue {
    type V = ValueModel;

    open spec fn view(&self) -> ValueModel {
        match self {
            WireValue::Tag(s) => ValueModel::Tag(s@),
            WireValue::I64(v) => ValueModel::I64(*v),
            WireValue::F64(v) => ValueModel::F64(*v),
            WireValue::Bool(v) => ValueModel::Bool(*v),
            WireValue::String(s) => ValueModel::String(s@),
            WireValue::Time(v) => ValueModel::Time(*v),
        }
    }
}

impl View for FieldValue {
    type V = FieldModel;

    open spec fn view(&self) -> FieldModel {
        FieldModel { name: self.name@, value: self.value@ }
    }
}

/// The contents of a list of fields.
pub open spec fn fields_view(v: Seq<FieldValue>) -> Seq<FieldModel> {
    v.map_values(|f: FieldValue| f@)
}

/// The contents of a list of rows.
pub open spec fn rows_view(v: Seq<Row>) -> Seq<Seq<FieldModel>> {
    v.map_values(|r: Row| r@)
}

/// The contents of a list of table batches.
pub open spec fn tables_view(v: Seq<TableWriteBatch>) -> Seq<TableBatchModel> {
    v.map_values(|t: TableWriteBatch| t@)
}

/// The contents of a list of entries.
pub open spec fn entries_view(v: Seq<WriteBufferEntry>) -> Seq<EntryModel> {
    v.map_values(|e: WriteBufferEntry| e@)
}

impl View for Row {
    type V = Seq<FieldModel>;

    open spec fn view(&self) -> Seq<FieldModel> {
        fields_view(self.values@)
    }
}

impl View for TableWriteBatch {
    type V = TableBatchModel;

    open spec fn view(&self) -> TableBatchModel {
        TableBatchModel { table: self.table@, rows: rows_view(self.rows@) }
    }
}

impl View for WriteBufferEntry {
    type V = EntryModel;

    open spec fn view(&self) -> EntryModel {
        EntryModel {
            partition_key: self.partition_key@,
            table_batches: tables_view(self.table_batches@),
        }
    }
}

impl View for WriteBufferBatch {
    type V = Seq<EntryModel>;

    open spec fn view(&self) -> Seq<EntryModel> {
        entries_view(self.entries@)
    }
}

} // verus!
