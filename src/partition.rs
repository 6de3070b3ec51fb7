//! A partition: the tables written in one hour, sharing one dictionary.
use vstd::prelude::*;
use crate::column::{nulls, Cell, ColumnValue, ColumnView, SchemaMismatch};
use crate::dictionary::{interned, Dictionary, DictionaryError, MAX_SYMBOLS};
use crate::text::{distinct_strings, seq_of_strings};
use crate::table::{
    appended_table, lemma_row_appended_unique, new_column_ids, row_appended, row_cell, row_cells, row_ids, row_conflicts, table_wf, Table, TableView, TimestampPredicate,
    TimestampRange,
};
use crate::text::str_eq;
use crate::batch::{batch_columns_view, BatchColumn, BatchColumnView, ColumnData, RecordBatch};
use crate::column::{bool_cells, f64_cells, i64_cells, string_cells, tag_cells, Column};
use crate::wal::{rows_view, EntryModel, FieldModel, Row, TableBatchModel, ValueModel, WireValue, WriteBufferEntry};

verus! {

/// Why a partition refused a write.
#[derive(Debug, Clone, Copy, PartialEq, Eq, Structural)]
pub enum PartitionError {
    /// The dictionary has no free id left.
    Dictionary(DictionaryError),
    /// A value's variant differs from its column's.
    Schema(SchemaMismatch),
    /// A row carries no time value.
    MissingTime,
    /// A row carries more than one time value.
    DuplicateTime,
    /// A row names the same column twice.
    DuplicateColumn,
    /// A tag or field is named like the time column.
    TimeReserved,
    /// A table cannot take one more row or column.
    TableFull,
}

/// The name of the column that holds each row's timestamp.
pub open spec fn time_name() -> Seq<char> {
    seq!['t', 'i', 'm', 'e']
}

/// The mathematical content of a partition.
pub struct PartitionView {
    pub key: Seq<char>,
    pub dictionary: Seq<Seq<char>>,
    pub tables: Seq<TableView>,
}

/// Hour-bucketed tables and the dictionary that their symbols refer to.
#[derive(Debug)]
pub struct Partition {
    key: String,
    dictionary: Dictionary,
    tables: Vec<Table>,
}

/// A cell refers, if it is a tag, to an id below `n`.
pub open spec fn cell_symbol_ok(c: Option<Cell>, n: nat) -> bool {
    match c {
        Some(Cell::Tag(x)) => x < n,
        _ => true,
    }
}

/// Every symbol that the table holds is below `n`.
pub open spec fn symbols_valid(t: TableView, n: nat) -> bool {
    &&& t.id < n
    &&& forall|k: int| 0 <= k < t.column_ids.len() ==> #[trigger] t.column_ids[k] < n
    &&& forall|k: int, r: int|
        0 <= k < t.columns.len() && 0 <= r < t.columns[k].cells.len() ==> cell_symbol_ok(
            #[trigger] t.columns[k].cells[r],
            n,
        )
}

/// Every symbol of a row is below `n`.
pub open spec fn values_valid(values: Seq<(u32, Cell)>, n: nat) -> bool {
    forall|j: int| 0 <= j < values.len() ==> (#[trigger] values[j]).0 < n && cell_symbol_ok(Some(values[j].1), n)
}

/// A partition view is well formed: the time column's name has id 0, every
/// table is well formed and not empty, tables have distinct names, and every
/// symbol stored anywhere has an entry in the dictionary.
pub open spec fn partition_wf(p: PartitionView) -> bool {
    &&& distinct_strings(p.dictionary)
    &&& p.dictionary.len() <= MAX_SYMBOLS
    &&& p.dictionary.len() >= 1
    &&& p.dictionary[0] == time_name()
    &&& forall|i: int|
        0 <= i < p.tables.len() ==> {
            &&& table_wf(#[trigger] p.tables[i])
            &&& p.tables[i].columns.len() < usize::MAX
            &&& symbols_valid(p.tables[i], p.dictionary.len())
            &&& p.tables[i].row_count > 0
        }
    &&& forall|i: int, j: int|
        0 <= i < p.tables.len() && 0 <= j < p.tables.len() && i != j ==> (#[trigger] p.tables[i]).id
            != (#[trigger] p.tables[j]).id
}

impl View for Partition {
    type V = PartitionView;

    closed spec fn view(&self) -> PartitionView {
        PartitionView {
            key: self.key@,
            dictionary: self.dictionary@,
            tables: self.tables@.map_values(|t: Table| t@),
        }
    }
}

proof fn lemma_row_cell_ok(values: Seq<(u32, Cell)>, id: u32, n: nat)
    requires
        values_valid(values, n),
    ensures
        cell_symbol_ok(row_cell(values, id), n),
    decreases values.len(),
{
    if values.len() > 0 {
        let d = values.drop_last();
        assert(values[values.len() - 1] == values.last());
        assert forall|j: int| 0 <= j < d.len() implies (#[trigger] d[j]).0 < n && cell_symbol_ok(
            Some(d[j].1),
            n,
        ) by {
            assert(d[j] == values[j]);
        }
        lemma_row_cell_ok(d, id, n);
    }
}

proof fn lemma_new_ids_valid(existing: Seq<u32>, ids: Seq<u32>, n: nat)
    requires
        forall|j: int| 0 <= j < ids.len() ==> #[trigger] ids[j] < n,
    ensures
        forall|j: int|
            0 <= j < new_column_ids(existing, ids).len() ==> #[trigger] new_column_ids(existing, ids)[j]
                < n,
    decreases ids.len(),
{
    if ids.len() > 0 {
        let d = ids.drop_last();
        assert forall|j: int| 0 <= j < d.len() implies #[trigger] d[j] < n by {
            assert(d[j] == ids[j]);
        }
        assert(ids[ids.len() - 1] == ids.last());
        lemma_new_ids_valid(existing, d, n);
        let prev = new_column_ids(existing, d);
        if !existing.contains(ids.last()) {
            assert forall|j: int| 0 <= j < prev.push(ids.last()).len() implies #[trigger] prev.push(
                ids.last(),
            )[j] < n by {
                if j < prev.len() {
                    assert(prev.push(ids.last())[j] == prev[j]);
                }
            }
        }
    }
}

/// Appending a row whose symbols are all below `n` keeps every symbol of
/// the table below `n`.
proof fn lemma_appended_valid(
    o: TableView,
    t: TableView,
    values: Seq<(u32, Cell)>,
    n: nat,
)
    requires
        table_wf(o),
        symbols_valid(o, n),
        values_valid(values, n),
        row_appended(o, t, values),
    ensures
        symbols_valid(t, n),
{
    let ids = row_ids(values);
    assert forall|j: int| 0 <= j < ids.len() implies #[trigger] ids[j] < n by {
        assert(ids[j] == values[j].0);
    }
    lemma_new_ids_valid(o.column_ids, ids, n);
    let nn = new_column_ids(o.column_ids, ids);
    assert forall|k: int| 0 <= k < t.column_ids.len() implies #[trigger] t.column_ids[k] < n by {
        if k >= o.column_ids.len() {
            assert(t.column_ids[k] == nn[k - o.column_ids.len()]);
        } else {
            assert(t.column_ids[k] == o.column_ids[k]);
        }
    }
    assert forall|k: int, r: int|
        0 <= k < t.columns.len() && 0 <= r < t.columns[k].cells.len() implies cell_symbol_ok(
        #[trigger] t.columns[k].cells[r],
        n,
    ) by {
        if k < o.columns.len() {
            lemma_row_cell_ok(values, o.column_ids[k], n);
            if r < o.columns[k].cells.len() {
                assert(t.columns[k].cells[r] == o.columns[k].cells[r]);
            }
        } else {
            lemma_row_cell_ok(values, t.column_ids[k], n);
            if r < o.row_count {
                assert(t.columns[k].cells[r] == nulls(o.row_count)[r]);
            }
        }
    }
}

impl Partition {
    /// The partition is well formed.
    pub open spec fn wf(&self) -> bool {
        partition_wf(self@)
    }

    /// An empty partition for `key`.
    pub fn new(key: &str) -> (r: Partition)
        ensures
            r.wf(),
            r@.key == key@,
            r@.tables.len() == 0,
            r@.dictionary == seq![time_name()],
    {
        let mut dictionary = Dictionary::new();
        proof {
            reveal_strlit("time");
        }
        let _ = dictionary.intern("time");
        assert("time"@ =~= time_name());
        let r = Partition { key: key.to_owned(), dictionary, tables: Vec::new() };
        assert(r@.tables =~= Seq::<TableView>::empty());
        assert(r@.dictionary =~= seq![time_name()]);
        r
    }

    /// The partition key.
    pub fn key(&self) -> (r: &str)
        ensures
            r@ == self@.key,
    {
        self.key.as_str()
    }

    /// The partition's dictionary.
    pub fn dictionary(&self) -> (r: &Dictionary)
        ensures
            r@ == self@.dictionary,
            self.wf() ==> r.wf(),
    {
        &self.dictionary
    }

    /// Number of tables.
    pub fn table_count(&self) -> (r: usize)
        ensures
            r == self@.tables.len(),
    {
        self.tables.len()
    }

    /// The table at position `i`.
    pub fn table_at(&self, i: usize) -> (r: &Table)
        requires
            i < self@.tables.len(),
        ensures
            r@ == self@.tables[i as int],
            self.wf() ==> r.wf(),
    {
        &self.tables[i]
    }

    /// `true` if writes for `key` go to this partition.
    pub fn should_write(&self, key: &str) -> (r: bool)
        ensures
            r == (key@ == self@.key),
    {
        str_eq(self.key.as_str(), key)
    }

    /// The timestamp predicate for `range` in this partition, whose time
    /// column always has symbol 0.
    pub fn make_timestamp_predicate(&self, range: Option<TimestampRange>) -> (r: Option<
        TimestampPredicate,
    >)
        ensures
            r == partition_predicate(range),
    {
        match range {
            None => None,
            Some(range) => Some(TimestampPredicate { time_column_id: 0, range }),
        }
    }

    /// Position of the table with symbol `id`, if any.
    pub fn table_index(&self, id: u32) -> (r: Option<usize>)
        requires
            self.wf(),
        ensures
            r matches Some(i) ==> i < self@.tables.len() && self@.tables[i as int].id == id,
            r is None ==> forall|i: int| 0 <= i < self@.tables.len() ==> self@.tables[i].id != id,
    {
        let mut i: usize = 0;
        while i < self.tables.len()
            invariant
                i <= self@.tables.len(),
                self@.tables.len() == self.tables@.len(),
                forall|k: int| 0 <= k < i ==> self@.tables[k].id != id,
            decreases self.tables.len() - i,
        {
            if self.tables[i].id() == id {
                return Some(i);
            }
            i = i + 1;
        }
        None
    }

    /// Interns the names and tag values of `row` and returns its values by
    /// column symbol. The row's time goes to the time column.
    #[verifier::loop_isolation(false)]
    fn row_values(&mut self, row: &Row) -> (r: Result<Vec<(u32, ColumnValue)>, PartitionError>)
        requires
            old(self).wf(),
        ensures
            final(self).wf(),
            final(self)@.key == old(self)@.key,
            final(self)@.tables == old(self)@.tables,
            old(self)@.dictionary.is_prefix_of(final(self)@.dictionary),
            r matches Ok(v) ==> row_ids(row_cells(v@)).no_duplicates() && values_valid(
                row_cells(v@),
                final(self)@.dictionary.len(),
            ),
            r matches Ok(v) ==> row_read(old(self)@.dictionary, row@) == Some(
                (final(self)@.dictionary, row_cells(v@)),
            ),
            r is Err ==> row_read(old(self)@.dictionary, row@) is None,
    {
        let mut values: Vec<(u32, ColumnValue)> = Vec::new();
        let mut seen_time = false;
        let ghost d0 = self@.dictionary;
        let mut i: usize = 0;
        proof {
            reveal_strlit("time");
            assert(row@.take(0) =~= Seq::<FieldModel>::empty());
            assert(row_cells(values@) =~= Seq::<(u32, Cell)>::empty());
        }
        while i < row.values.len()
            invariant
                self.wf(),
                self@.key == old(self)@.key,
                self@.tables == old(self)@.tables,
                old(self)@.dictionary.is_prefix_of(self@.dictionary),
                i <= row.values@.len(),
                row_ids(row_cells(values@)).no_duplicates(),
                values_valid(row_cells(values@), self@.dictionary.len()),
                seen_time == row_ids(row_cells(values@)).contains(0u32),
                fields_read(d0, row@.take(i as int)) == Some((self@.dictionary, row_cells(values@), seen_time)),
            decreases row.values.len() - i,
        {
            let f = &row.values[i];
            let ghost dprev = self@.dictionary;
            let ghost cprev = row_cells(values@);
            let ghost st = (dprev, cprev, seen_time);
            proof {
                assert(row@.take(i + 1).drop_last() =~= row@.take(i as int));
                assert(row@.take(i + 1).last() == f@);
            }
            let (id, value) = match &f.value {
                WireValue::Time(t) => {
                    if seen_time {
                        proof {
                            assert(field_read(st, f@) is None);
                            lemma_fields_read_none(d0, row@, i + 1);
                        }
                        return Err(PartitionError::DuplicateTime);
                    }
                    seen_time = true;
                    (0u32, ColumnValue::I64(*t))
                },
                other => {
                    if str_eq(f.name.as_str(), "time") {
                        proof {
                            assert("time"@ =~= time_name());
                            assert(field_read(st, f@) is None);
                            lemma_fields_read_none(d0, row@, i + 1);
                        }
                        return Err(PartitionError::TimeReserved);
                    }
                    assert(f.name@ != time_name()) by {
                        assert("time"@ =~= time_name());
                    }
                    let id = match self.dictionary.intern(f.name.as_str()) {
                        Ok(id) => id,
                        Err(e) => {
                            proof {
                                assert(field_read(st, f@) is None);
                                lemma_fields_read_none(d0, row@, i + 1);
                            }
                            return Err(PartitionError::Dictionary(e));
                        },
                    };
                    let ghost d1 = self@.dictionary;
                    proof {
                        if id == 0 {
                            assert(dprev[0] == time_name());
                            assert(self@.dictionary[0] == time_name());
                            assert(f.name@ == self@.dictionary[id as int]);
                        }
                    }
                    let value = match other {
                        WireValue::Tag(s) => match self.dictionary.intern(s.as_str()) {
                            Ok(v) => ColumnValue::Tag(v),
                            Err(e) => {
                                proof {
                                    assert(value_read(d1, f@.value) is None);
                                    assert(field_read(st, f@) is None);
                                    lemma_fields_read_none(d0, row@, i + 1);
                                }
                                return Err(PartitionError::Dictionary(e));
                            },
                        },
                        WireValue::I64(v) => ColumnValue::I64(*v),
                        WireValue::F64(v) => ColumnValue::F64(*v),
                        WireValue::Bool(v) => ColumnValue::Bool(*v),
                        WireValue::String(s) => ColumnValue::String(s.clone()),
                        WireValue::Time(t) => ColumnValue::I64(*t),
                    };
                    proof {
                        assert(value_read(d1, f@.value) == Some((self@.dictionary, value.cell())));
                    }
                    (id, value)
                },
            };
            let mut k: usize = 0;
            while k < values.len()
                invariant
                    k <= values@.len(),
                    forall|m: int| 0 <= m < k ==> values@[m].0 != id,
                decreases values.len() - k,
            {
                if values[k].0 == id {
                    proof {
                        assert(row_ids(cprev)[k as int] == id);
                        assert(row_ids(cprev).contains(id));
                        assert(field_read(st, f@) is None);
                        lemma_fields_read_none(d0, row@, i + 1);
                    }
                    return Err(PartitionError::DuplicateColumn);
                }
                k = k + 1;
            }
            let ghost before = values@;
            let ghost cell = value.cell();
            values.push((id, value));
            proof {
                let n = self@.dictionary.len();
                assert(row_cells(values@) =~= cprev.push((id, cell)));
                assert(row_ids(row_cells(values@)) =~= row_ids(cprev).push(id));
                assert(!row_ids(cprev).contains(id)) by {
                    if row_ids(cprev).contains(id) {
                        let m = choose|m: int| 0 <= m < row_ids(cprev).len() && row_ids(cprev)[m] == id;
                        assert(values@[m].0 == id);
                    }
                }
                assert(field_read(st, f@) == Some((self@.dictionary, cprev.push((id, cell)), seen_time)));
                assert forall|a: int, b: int|
                    0 <= a < row_ids(row_cells(values@)).len() && 0 <= b < row_ids(row_cells(values@)).len() && a != b
                    implies row_ids(row_cells(values@))[a] != row_ids(row_cells(values@))[b] by {
                    if a < before.len() && b < before.len() {
                        assert(row_ids(cprev)[a] == row_ids(row_cells(values@))[a]);
                        assert(row_ids(cprev)[b] == row_ids(row_cells(values@))[b]);
                    }
                }
                assert forall|j: int| 0 <= j < values@.len() implies (#[trigger] row_cells(values@)[j]).0 < n
                    && cell_symbol_ok(Some(row_cells(values@)[j].1), n) by {
                    if j < before.len() {
                        assert(row_cells(values@)[j] == cprev[j]);
                    }
                }
                assert(row_ids(row_cells(values@)).contains(0u32) == (row_ids(cprev).contains(0u32) || id == 0)) by {
                    let ids = row_ids(row_cells(values@));
                    if ids.contains(0u32) {
                        let m = choose|m: int| 0 <= m < ids.len() && ids[m] == 0u32;
                        if m < before.len() {
                            assert(row_ids(cprev)[m] == 0u32);
                        }
                    }
                    if row_ids(cprev).contains(0u32) {
                        let m = choose|m: int| 0 <= m < row_ids(cprev).len() && row_ids(cprev)[m] == 0u32;
                        assert(ids[m] == 0u32);
                    }
                    if id == 0 {
                        assert(ids[before.len() as int] == 0u32);
                    }
                }
            }
            i = i + 1;
        }
        if !seen_time {
            proof {
                assert(row@.take(row.values@.len() as int) =~= row@);
            }
            return Err(PartitionError::MissingTime);
        }
        proof {
            assert(row@.take(row.values@.len() as int) =~= row@);
        }
        Ok(values)
    }
}

/// `n` extends `o`: the same tables first, with the same names, and a
/// dictionary that only grew.
pub open spec fn tables_extend(o: PartitionView, n: PartitionView) -> bool {
    &&& o.dictionary.is_prefix_of(n.dictionary)
    &&& n.tables.len() >= o.tables.len()
    &&& forall|i: int| 0 <= i < o.tables.len() ==> (#[trigger] n.tables[i]).id == o.tables[i].id
}

/// Extension is transitive.
pub proof fn lemma_tables_extend_trans(a: PartitionView, b: PartitionView, c: PartitionView)
    requires
        tables_extend(a, b),
        tables_extend(b, c),
    ensures
        tables_extend(a, c),
{
    assert forall|i: int| 0 <= i < a.tables.len() implies (#[trigger] c.tables[i]).id == a.tables[i].id by {
        assert(c.tables[i].id == b.tables[i].id);
    }
}

/// Table names survive any extension.
pub proof fn lemma_names_persist(o: PartitionView, n: PartitionView)
    requires
        partition_wf(o),
        tables_extend(o, n),
    ensures
        forall|name: Seq<char>| has_table_named(o, name) ==> #[trigger] has_table_named(n, name),
{
    assert forall|name: Seq<char>| has_table_named(o, name) implies #[trigger] has_table_named(n, name) by {
        let j = choose|j: int| 0 <= j < o.tables.len() && o.dictionary[(#[trigger] o.tables[j]).id as int] == name;
        assert(o.tables[j].id < o.dictionary.len());
        assert(n.tables[j].id == o.tables[j].id);
        assert(n.dictionary[n.tables[j].id as int] == name);
    }
}

impl Partition {
    /// Appends one row to the table with symbol `tid`, creating the table if
    /// the partition has none with that symbol.
    fn append_to_table(&mut self, tid: u32, values: &Vec<(u32, ColumnValue)>) -> (r: Result<
        (),
        PartitionError,
    >)
        requires
            old(self).wf(),
            (tid as int) < old(self)@.dictionary.len(),
            row_ids(row_cells(values@)).no_duplicates(),
            values_valid(row_cells(values@), old(self)@.dictionary.len()),
        ensures
            final(self).wf(),
            final(self)@.key == old(self)@.key,
            final(self)@.dictionary == old(self)@.dictionary,
            final(self)@.tables.len() >= old(self)@.tables.len(),
            forall|i: int|
                0 <= i < old(self)@.tables.len() ==> (#[trigger] final(self)@.tables[i]).id == old(
                    self,
                )@.tables[i].id,
            r is Ok ==> exists|i: int|
                0 <= i < final(self)@.tables.len() && (#[trigger] final(self)@.tables[i]).id == tid,
            r is Ok ==> append_spec(old(self)@, tid, row_cells(values@)) == Some(final(self)@),
            r is Err ==> append_spec(old(self)@, tid, row_cells(values@)) is None,
    {
        let ghost n = self@.dictionary.len();
        match self.table_index(tid) {
            Some(ti) => {
                proof {
                    let p0 = old(self)@;
                    let j = choose|j: int| 0 <= j < p0.tables.len() && (#[trigger] p0.tables[j]).id == tid;
                    assert(p0.tables[j].id == p0.tables[ti as int].id);
                    assert(j == ti as int);
                }
                if values.len() >= usize::MAX - 1 || self.tables[ti].row_count() >= usize::MAX - 1
                    || self.tables[ti].column_count()
                    >= usize::MAX - 1 - values.len() {
                    return Err(PartitionError::TableFull);
                }
                let ghost o = self@.tables[ti as int];
                let ghost before = self@.tables;
                let r = self.tables[ti].append_row(values);
                proof {
                    assert(self@.tables =~= before.update(ti as int, self.tables@[ti as int]@));
                }
                match r {
                    Ok(()) => {
                        proof {
                            lemma_appended_valid(o, self@.tables[ti as int], row_cells(values@), n);
                            assert(self@.tables[ti as int].id == tid);
                            lemma_row_appended_unique(o, self@.tables[ti as int], row_cells(values@));
                            let p0 = old(self)@;
                            let j = choose|j: int| 0 <= j < p0.tables.len() && (#[trigger] p0.tables[j]).id == tid;
                            assert(p0.tables[j].id == p0.tables[ti as int].id);
                            assert(j == ti as int);
                            assert(self@ =~= PartitionView { key: p0.key, dictionary: p0.dictionary, tables: p0.tables.update(j, appended_table(o, row_cells(values@))) });
                        }
                        Ok(())
                    },
                    Err(e) => Err(PartitionError::Schema(e)),
                }
            },
            None => {
                if values.len() >= usize::MAX - 1 {
                    return Err(PartitionError::TableFull);
                }
                let mut t = Table::new(tid);
                proof {
                    assert(symbols_valid(t@, n));
                }
                let ghost o = t@;
                assert(!row_conflicts(o, row_cells(values@)));
                match t.append_row(values) {
                    Ok(()) => {
                        proof {
                            lemma_appended_valid(o, t@, row_cells(values@), n);
                        }
                        let ghost before = self@.tables;
                        let ghost tv = t@;
                        self.tables.push(t);
                        proof {
                            assert(self@.tables =~= before.push(tv));
                            assert(self@.tables[before.len() as int].id == tid);
                            assert(o.column_ids =~= Seq::<u32>::empty());
                            assert(o.columns =~= Seq::<ColumnView>::empty());
                            assert(o == empty_table(tid));
                            lemma_row_appended_unique(o, tv, row_cells(values@));
                            let p0 = old(self)@;
                            assert(self@ =~= PartitionView { key: p0.key, dictionary: p0.dictionary, tables: p0.tables.push(appended_table(empty_table(tid), row_cells(values@))) });
                        }
                        Ok(())
                    },
                    Err(e) => Err(PartitionError::Schema(e)),
                }
            },
        }
    }

    /// Applies one entry of a batch: for each table batch and each of its
    /// rows, interns the row's strings and appends it to the table. Rows are
    /// applied in order; the first row that fails stops the entry, and the
    /// rows before it stay.
    pub fn write_entry(&mut self, entry: &WriteBufferEntry) -> (r: Result<(), PartitionError>)
        requires
            old(self).wf(),
        ensures
            final(self).wf(),
            final(self)@.key == old(self)@.key,
            tables_extend(old(self)@, final(self)@),
            r is Ok ==> forall|b: int|
                0 <= b < entry.table_batches@.len() && (#[trigger] entry.table_batches@[b]).rows@.len() > 0
                    ==> has_table_named(final(self)@, entry.table_batches@[b].table@),
            r is Ok ==> batches_applied(old(self)@, entry@.table_batches) == Some(final(self)@),
            r is Err ==> batches_applied(old(self)@, entry@.table_batches) is None,
    {
        let mut b: usize = 0;
        while b < entry.table_batches.len()
            invariant
                self.wf(),
                self@.key == old(self)@.key,
                tables_extend(old(self)@, self@),
                b <= entry.table_batches@.len(),
                forall|c: int|
                    0 <= c < b && (#[trigger] entry.table_batches@[c]).rows@.len() > 0 ==> has_table_named(
                        self@,
                        entry.table_batches@[c].table@,
                    ),
                batches_applied(old(self)@, entry@.table_batches.take(b as int)) == Some(self@),
            decreases entry.table_batches.len() - b,
        {
            let batch = &entry.table_batches[b];
            let ghost s0 = self@;
            proof {
                assert(entry@.table_batches[b as int] == batch@);
            }
            let tid = match self.dictionary.intern(batch.table.as_str()) {
                Ok(id) => id,
                Err(e) => {
                    proof {
                        assert(batch_applied(s0, batch@) is None);
                        lemma_entry_fails(old(self)@, entry@.table_batches, b as int, s0);
                    }
                    return Err(PartitionError::Dictionary(e));
                },
            };
            let ghost s_int = self@;
            proof {
                assert(self@ == PartitionView { key: s0.key, dictionary: interned(s0.dictionary, batch.table@).0, tables: s0.tables });
                assert(tid == interned(s0.dictionary, batch.table@).1);
                assert(rows_view(batch.rows@).take(0) =~= Seq::<Seq<FieldModel>>::empty());
                assert(self@.tables == s0.tables);
                assert(s0.dictionary.is_prefix_of(self@.dictionary));
                lemma_tables_extend_trans(old(self)@, s0, self@);
                lemma_names_persist(s0, self@);
                crate::dictionary::lemma_index_of_distinct(self@.dictionary, tid as int);
            }
            let mut i: usize = 0;
            while i < batch.rows.len()
                invariant
                    self.wf(),
                    self@.key == old(self)@.key,
                    tables_extend(old(self)@, self@),
                    (tid as int) < self@.dictionary.len(),
                    self@.dictionary[tid as int] == batch.table@,
                    i <= batch.rows@.len(),
                    i > 0 ==> has_table_named(self@, batch.table@),
                    forall|c: int|
                        0 <= c < b && (#[trigger] entry.table_batches@[c]).rows@.len() > 0 ==> has_table_named(
                            self@,
                            entry.table_batches@[c].table@,
                        ),
                    rows_applied(s_int, tid, rows_view(batch.rows@).take(i as int)) == Some(self@),
                    s_int == (PartitionView { key: s0.key, dictionary: interned(s0.dictionary, batch.table@).0, tables: s0.tables }),
                    tid == interned(s0.dictionary, batch.table@).1,
                    !(!s0.dictionary.contains(batch.table@) && s0.dictionary.len() >= MAX_SYMBOLS),
                    batches_applied(old(self)@, entry@.table_batches.take(b as int)) == Some(s0),
                    b < entry.table_batches@.len(),
                    entry@.table_batches[b as int] == batch@,
                decreases batch.rows.len() - i,
            {
                let ghost sp = self@;
                proof {
                    assert(rows_view(batch.rows@).take(i + 1).drop_last() =~= rows_view(batch.rows@).take(i as int));
                    assert(rows_view(batch.rows@).take(i + 1).last() == batch.rows@[i as int]@);
                }
                let values = match self.row_values(&batch.rows[i]) {
                    Ok(v) => v,
                    Err(e) => {
                        proof {
                            lemma_tables_extend_trans(old(self)@, sp, self@);
                            assert(rows_applied(s_int, tid, rows_view(batch.rows@).take(i + 1)) is None);
                            lemma_rows_applied_none(s_int, tid, rows_view(batch.rows@), i + 1);
                            assert(batch_applied(s0, batch@) is None);
                            lemma_entry_fails(old(self)@, entry@.table_batches, b as int, s0);
                        }
                        return Err(e);
                    },
                };
                let ghost s1 = self@;
                proof {
                    lemma_tables_extend_trans(old(self)@, sp, s1);
                    lemma_names_persist(sp, s1);
                    assert(s1 == PartitionView { key: sp.key, dictionary: s1.dictionary, tables: sp.tables });
                }
                let r = self.append_to_table(tid, &values);
                proof {
                    lemma_tables_extend_trans(old(self)@, s1, self@);
                    lemma_names_persist(s1, self@);
                }
                match r {
                    Ok(()) => {
                        proof {
                            assert(rows_applied(s_int, tid, rows_view(batch.rows@).take(i + 1)) == Some(self@));
                            let j = choose|j: int| 0 <= j < self@.tables.len() && (#[trigger] self@.tables[j]).id == tid;
                            assert(self@.dictionary[self@.tables[j].id as int] == batch.table@);
                            assert(has_table_named(self@, batch.table@));
                        }
                    },
                    Err(e) => {
                        proof {
                            assert(rows_applied(s_int, tid, rows_view(batch.rows@).take(i + 1)) is None);
                            lemma_rows_applied_none(s_int, tid, rows_view(batch.rows@), i + 1);
                            assert(batch_applied(s0, batch@) is None);
                            lemma_entry_fails(old(self)@, entry@.table_batches, b as int, s0);
                        }
                        return Err(e);
                    },
                }
                i = i + 1;
            }
            proof {
                if batch.rows@.len() > 0 {
                    assert(has_table_named(self@, batch.table@));
                }
                assert(rows_view(batch.rows@).take(batch.rows@.len() as int) =~= rows_view(batch.rows@));
                assert(entry@.table_batches.take(b + 1).drop_last() =~= entry@.table_batches.take(b as int));
                assert(entry@.table_batches.take(b + 1).last() == batch@);
                assert(batch_applied(s0, batch@) == Some(self@));
            }
            b = b + 1;
        }
        proof {
            assert(entry@.table_batches.take(entry.table_batches@.len() as int) =~= entry@.table_batches);
        }
        Ok(())
    }
}

/// A table with no column and no row.
pub open spec fn empty_table(id: u32) -> TableView {
    TableView { id, column_ids: Seq::<u32>::empty(), columns: Seq::<ColumnView>::empty(), row_count: 0 }
}

/// The partition after appending the row `cells` to the table with symbol
/// `tid` (created if absent), or `None` if the table cannot take the row.
pub open spec fn append_spec(p: PartitionView, tid: u32, cells: Seq<(u32, Cell)>) -> Option<PartitionView> {
    if exists|j: int| 0 <= j < p.tables.len() && (#[trigger] p.tables[j]).id == tid {
        let j = choose|j: int| 0 <= j < p.tables.len() && (#[trigger] p.tables[j]).id == tid;
        let t = p.tables[j];
        if cells.len() >= usize::MAX - 1 || t.row_count >= usize::MAX - 1 || t.columns.len() >= usize::MAX - 1
            - cells.len() {
            None
        } else if row_conflicts(t, cells) {
            None
        } else {
            Some(PartitionView { key: p.key, dictionary: p.dictionary, tables: p.tables.update(j, appended_table(t, cells)) })
        }
    } else if cells.len() >= usize::MAX - 1 {
        None
    } else {
        Some(PartitionView { key: p.key, dictionary: p.dictionary, tables: p.tables.push(appended_table(empty_table(tid), cells)) })
    }
}

/// The partition after applying `rows` to the table with symbol `tid`,
/// one after another, or `None` if one is refused.
pub open spec fn rows_applied(p: PartitionView, tid: u32, rows: Seq<Seq<FieldModel>>) -> Option<PartitionView>
    decreases rows.len(),
{
    if rows.len() == 0 {
        Some(p)
    } else {
        match rows_applied(p, tid, rows.drop_last()) {
            None => None,
            Some(q) => match row_read(q.dictionary, rows.last()) {
                None => None,
                Some((d, cells)) => append_spec(PartitionView { key: q.key, dictionary: d, tables: q.tables }, tid, cells),
            },
        }
    }
}

/// The partition after applying one table batch.
pub open spec fn batch_applied(p: PartitionView, tb: TableBatchModel) -> Option<PartitionView> {
    if !p.dictionary.contains(tb.table) && p.dictionary.len() >= MAX_SYMBOLS {
        None
    } else {
        rows_applied(
            PartitionView { key: p.key, dictionary: interned(p.dictionary, tb.table).0, tables: p.tables },
            interned(p.dictionary, tb.table).1,
            tb.rows,
        )
    }
}

/// The partition after applying table batches one after another.
pub open spec fn batches_applied(p: PartitionView, tbs: Seq<TableBatchModel>) -> Option<PartitionView>
    decreases tbs.len(),
{
    if tbs.len() == 0 {
        Some(p)
    } else {
        match batches_applied(p, tbs.drop_last()) {
            None => None,
            Some(q) => batch_applied(q, tbs.last()),
        }
    }
}

/// Once reading a row's fields fails, reading more of them fails too.
pub proof fn lemma_fields_read_none(d: Seq<Seq<char>>, fields: Seq<FieldModel>, i: int)
    requires
        0 <= i <= fields.len(),
        fields_read(d, fields.take(i)) is None,
    ensures
        fields_read(d, fields) is None,
    decreases fields.len() - i,
{
    if i < fields.len() {
        assert(fields.take(i + 1).drop_last() =~= fields.take(i));
        lemma_fields_read_none(d, fields, i + 1);
    } else {
        assert(fields.take(i) =~= fields);
    }
}

/// Once applying rows fails, applying more of them fails too.
pub proof fn lemma_rows_applied_none(p: PartitionView, tid: u32, rows: Seq<Seq<FieldModel>>, i: int)
    requires
        0 <= i <= rows.len(),
        rows_applied(p, tid, rows.take(i)) is None,
    ensures
        rows_applied(p, tid, rows) is None,
    decreases rows.len() - i,
{
    if i < rows.len() {
        assert(rows.take(i + 1).drop_last() =~= rows.take(i));
        lemma_rows_applied_none(p, tid, rows, i + 1);
    } else {
        assert(rows.take(i) =~= rows);
    }
}

/// Once applying table batches fails, applying more of them fails too.
pub proof fn lemma_batches_applied_none(p: PartitionView, tbs: Seq<TableBatchModel>, i: int)
    requires
        0 <= i <= tbs.len(),
        batches_applied(p, tbs.take(i)) is None,
    ensures
        batches_applied(p, tbs) is None,
    decreases tbs.len() - i,
{
    if i < tbs.len() {
        assert(tbs.take(i + 1).drop_last() =~= tbs.take(i));
        lemma_batches_applied_none(p, tbs, i + 1);
    } else {
        assert(tbs.take(i) =~= tbs);
    }
}

/// A table batch that fails makes its whole entry fail.
proof fn lemma_entry_fails(p: PartitionView, tbs: Seq<TableBatchModel>, b: int, s0: PartitionView)
    requires
        0 <= b < tbs.len(),
        batches_applied(p, tbs.take(b)) == Some(s0),
        batch_applied(s0, tbs[b]) is None,
    ensures
        batches_applied(p, tbs) is None,
{
    assert(tbs.take(b + 1).drop_last() =~= tbs.take(b));
    assert(tbs.take(b + 1).last() == tbs[b]);
    lemma_batches_applied_none(p, tbs, b + 1);
}

/// What reading one non-time value does: the dictionary after interning a
/// tag value, and the stored cell; `None` when the dictionary is full.
pub open spec fn value_read(d: Seq<Seq<char>>, v: ValueModel) -> Option<(Seq<Seq<char>>, Cell)> {
    match v {
        ValueModel::Tag(s) => if !d.contains(s) && d.len() >= MAX_SYMBOLS {
            None
        } else {
            Some((interned(d, s).0, Cell::Tag(interned(d, s).1)))
        },
        ValueModel::I64(x) => Some((d, Cell::I64(x))),
        ValueModel::F64(x) => Some((d, Cell::F64(x))),
        ValueModel::Bool(x) => Some((d, Cell::Bool(x))),
        ValueModel::String(s) => Some((d, Cell::String(s))),
        ValueModel::Time(x) => Some((d, Cell::I64(x))),
    }
}

/// One step of reading a row: from the dictionary, the cells so far and
/// whether the time was seen, to the same after field `f`; `None` when the
/// row is refused.
pub open spec fn field_read(
    st: (Seq<Seq<char>>, Seq<(u32, Cell)>, bool),
    f: FieldModel,
) -> Option<(Seq<Seq<char>>, Seq<(u32, Cell)>, bool)> {
    let (d, cells, seen) = st;
    match f.value {
        ValueModel::Time(t) => if seen || row_ids(cells).contains(0u32) {
            None
        } else {
            Some((d, cells.push((0u32, Cell::I64(t))), true))
        },
        _ => if f.name == time_name() || (!d.contains(f.name) && d.len() >= MAX_SYMBOLS) {
            None
        } else {
            let (d1, id) = interned(d, f.name);
            match value_read(d1, f.value) {
                None => None,
                Some((d2, c)) => if row_ids(cells).contains(id) {
                    None
                } else {
                    Some((d2, cells.push((id, c)), seen))
                },
            }
        },
    }
}

/// Reading the fields of a row one after another.
pub open spec fn fields_read(d: Seq<Seq<char>>, fields: Seq<FieldModel>) -> Option<
    (Seq<Seq<char>>, Seq<(u32, Cell)>, bool),
>
    decreases fields.len(),
{
    if fields.len() == 0 {
        Some((d, Seq::<(u32, Cell)>::empty(), false))
    } else {
        match fields_read(d, fields.drop_last()) {
            None => None,
            Some(st) => field_read(st, fields.last()),
        }
    }
}

/// The dictionary and cells after reading a whole row, which must carry a
/// time.
pub open spec fn row_read(d: Seq<Seq<char>>, fields: Seq<FieldModel>) -> Option<(Seq<Seq<char>>, Seq<(u32, Cell)>)> {
    match fields_read(d, fields) {
        Some((d2, cells, true)) => Some((d2, cells)),
        _ => None,
    }
}

/// The timestamp predicate that a range gives in any partition.
pub open spec fn partition_predicate(range: Option<TimestampRange>) -> Option<TimestampPredicate> {
    match range {
        None => None,
        Some(r) => Some(TimestampPredicate { time_column_id: 0, range: r }),
    }
}

/// A cell as it is output: a tag becomes the string it stands for.
pub open spec fn resolve_cell(d: Seq<Seq<char>>, c: Option<Cell>) -> Option<Cell> {
    match c {
        Some(Cell::Tag(v)) => Some(Cell::String(d[v as int])),
        _ => c,
    }
}

/// Column `k` of table `t` of `p` as it is output.
pub open spec fn projected_column(p: PartitionView, t: TableView, k: int) -> BatchColumnView {
    BatchColumnView {
        name: p.dictionary[t.column_ids[k] as int],
        cells: Seq::new(t.columns[k].cells.len(), |r: int| resolve_cell(p.dictionary, t.columns[k].cells[r])),
    }
}

/// Some column of `t` is named `name` in `p`.
pub open spec fn has_column_named(p: PartitionView, t: TableView, name: Seq<char>) -> bool {
    exists|k: int| 0 <= k < t.column_ids.len() && p.dictionary[(#[trigger] t.column_ids[k]) as int] == name
}

/// The position of the column of `t` named `name` in `p`.
pub open spec fn column_named(p: PartitionView, t: TableView, name: Seq<char>) -> int {
    choose|k: int| 0 <= k < t.column_ids.len() && p.dictionary[(#[trigger] t.column_ids[k]) as int] == name
}

/// The first `n` columns of `t`, as output.
pub open spec fn first_columns(p: PartitionView, t: TableView, n: nat) -> Seq<BatchColumnView> {
    Seq::new(n, |k: int| projected_column(p, t, k))
}

/// The columns of `t` named by the first `n` names of `cols`, as output.
pub open spec fn named_columns(p: PartitionView, t: TableView, cols: Seq<Seq<char>>, n: nat) -> Seq<BatchColumnView> {
    Seq::new(n, |c: int| projected_column(p, t, column_named(p, t, cols[c])))
}

/// The projection of `t` on the columns named `cols` (all columns, in table
/// order, when `cols` is empty), or `None` if one of them is missing.
pub open spec fn projection(p: PartitionView, t: TableView, cols: Seq<Seq<char>>) -> Option<Seq<BatchColumnView>> {
    if cols.len() == 0 {
        Some(first_columns(p, t, t.columns.len()))
    } else if forall|c: int| 0 <= c < cols.len() ==> has_column_named(p, t, #[trigger] cols[c]) {
        Some(named_columns(p, t, cols, cols.len()))
    } else {
        None
    }
}

/// `p` has a table named `name`.
pub open spec fn has_table_named(p: PartitionView, name: Seq<char>) -> bool {
    exists|j: int| 0 <= j < p.tables.len() && p.dictionary[(#[trigger] p.tables[j]).id as int] == name
}

/// The position of the table named `name` in `p`.
pub open spec fn table_named(p: PartitionView, name: Seq<char>) -> int {
    choose|j: int| 0 <= j < p.tables.len() && p.dictionary[(#[trigger] p.tables[j]).id as int] == name
}

/// Why a projection failed.
#[derive(Debug, Clone, Copy, PartialEq, Eq, Structural)]
pub enum ProjectionError {
    /// No table has that name here.
    TableNotFound,
    /// A requested column is missing.
    MissingColumn,
}

/// Two table positions with the same name are the same table.
proof fn lemma_table_named_unique(p: PartitionView, name: Seq<char>, j: int)
    requires
        partition_wf(p),
        0 <= j < p.tables.len(),
        p.dictionary[p.tables[j].id as int] == name,
    ensures
        has_table_named(p, name),
        table_named(p, name) == j,
{
    assert(has_table_named(p, name));
    let w = table_named(p, name);
    assert(p.tables[w].id < p.dictionary.len());
    assert(p.tables[j].id < p.dictionary.len());
    if w != j {
        assert(p.tables[w].id != p.tables[j].id);
    }
}

/// Two column positions with the same name are the same column.
pub proof fn lemma_column_named_unique(p: PartitionView, ti: int, name: Seq<char>, k: int)
    requires
        partition_wf(p),
        0 <= ti < p.tables.len(),
        0 <= k < p.tables[ti].column_ids.len(),
        p.dictionary[p.tables[ti].column_ids[k] as int] == name,
    ensures
        has_column_named(p, p.tables[ti], name),
        column_named(p, p.tables[ti], name) == k,
{
    let t = p.tables[ti];
    assert(has_column_named(p, t, name));
    let w = column_named(p, t, name);
    assert(t.column_ids[w] < p.dictionary.len());
    assert(t.column_ids[k] < p.dictionary.len());
    if w != k {
        assert(t.column_ids.no_duplicates());
    }
}

impl Partition {
    /// Column `k` of table `ti` as it is output.
    #[verifier::loop_isolation(false)]
    fn project_column(&self, ti: usize, k: usize) -> (r: BatchColumn)
        requires
            self.wf(),
            ti < self@.tables.len(),
            k < self@.tables[ti as int].columns.len(),
        ensures
            r@ == projected_column(self@, self@.tables[ti as int], k as int),
    {
        let t = &self.tables[ti];
        let ghost tv = self@.tables[ti as int];
        let ghost want = projected_column(self@, tv, k as int);
        let cid = t.column_id_at(k);
        assert(cid < self@.dictionary.len());
        let name = match self.dictionary.lookup_id(cid) {
            Some(n) => n.to_owned(),
            None => String::new(),
        };
        let data = match t.column_at(k) {
            Column::Tag(v) => {
                let mut out: Vec<Option<String>> = Vec::new();
                let mut r: usize = 0;
                while r < v.len()
                    invariant
                        self.wf(),
                        tv == self@.tables[ti as int],
                        k < tv.columns.len(),
                        tv.columns[k as int].cells == tag_cells(v@),
                        r <= v@.len(),
                        string_cells(out@) == want.cells.take(r as int),
                    decreases v.len() - r,
                {
                    let ghost before = out@;
                    match v[r] {
                        Some(x) => {
                            assert(symbols_valid(tv, self@.dictionary.len()));
                            assert(tv.columns[k as int].cells[r as int] == Some(Cell::Tag(x)));
                            assert(x < self@.dictionary.len());
                            match self.dictionary.lookup_id(x) {
                                Some(s) => out.push(Some(s.to_owned())),
                                None => out.push(None),
                            }
                        },
                        None => out.push(None),
                    }
                    assert(string_cells(out@) =~= want.cells.take(r + 1));
                    r = r + 1;
                }
                assert(want.cells.take(v@.len() as int) =~= want.cells);
                ColumnData::String(out)
            },
            Column::String(v) => {
                let mut out: Vec<Option<String>> = Vec::new();
                let mut r: usize = 0;
                while r < v.len()
                    invariant
                        tv == self@.tables[ti as int],
                        k < tv.columns.len(),
                        tv.columns[k as int].cells == string_cells(v@),
                        r <= v@.len(),
                        string_cells(out@) == want.cells.take(r as int),
                    decreases v.len() - r,
                {
                    match &v[r] {
                        Some(x) => out.push(Some(x.clone())),
                        None => out.push(None),
                    }
                    assert(string_cells(out@) =~= want.cells.take(r + 1));
                    r = r + 1;
                }
                assert(want.cells.take(v@.len() as int) =~= want.cells);
                ColumnData::String(out)
            },
            Column::I64(v) => {
                let mut out: Vec<Option<i64>> = Vec::new();
                let mut r: usize = 0;
                while r < v.len()
                    invariant
                        tv == self@.tables[ti as int],
                        k < tv.columns.len(),
                        tv.columns[k as int].cells == i64_cells(v@),
                        r <= v@.len(),
                        i64_cells(out@) == want.cells.take(r as int),
                    decreases v.len() - r,
                {
                    out.push(v[r]);
                    assert(i64_cells(out@) =~= want.cells.take(r + 1));
                    r = r + 1;
                }
                assert(want.cells.take(v@.len() as int) =~= want.cells);
                ColumnData::I64(out)
            },
            Column::F64(v) => {
                let mut out: Vec<Option<u64>> = Vec::new();
                let mut r: usize = 0;
                while r < v.len()
                    invariant
                        tv == self@.tables[ti as int],
                        k < tv.columns.len(),
                        tv.columns[k as int].cells == f64_cells(v@),
                        r <= v@.len(),
                        f64_cells(out@) == want.cells.take(r as int),
                    decreases v.len() - r,
                {
                    out.push(v[r]);
                    assert(f64_cells(out@) =~= want.cells.take(r + 1));
                    r = r + 1;
                }
                assert(want.cells.take(v@.len() as int) =~= want.cells);
                ColumnData::F64(out)
            },
            Column::Bool(v) => {
                let mut out: Vec<Option<bool>> = Vec::new();
                let mut r: usize = 0;
                while r < v.len()
                    invariant
                        tv == self@.tables[ti as int],
                        k < tv.columns.len(),
                        tv.columns[k as int].cells == bool_cells(v@),
                        r <= v@.len(),
                        bool_cells(out@) == want.cells.take(r as int),
                    decreases v.len() - r,
                {
                    out.push(v[r]);
                    assert(bool_cells(out@) =~= want.cells.take(r + 1));
                    r = r + 1;
                }
                assert(want.cells.take(v@.len() as int) =~= want.cells);
                ColumnData::Bool(out)
            },
        };
        BatchColumn { name, data }
    }
}

impl Partition {
    /// The columns named `columns` of the table named `table_name`, in the
    /// requested order, tags resolved to strings; all columns in table order
    /// when `columns` is empty.
    #[verifier::loop_isolation(false)]
    pub fn table_to_batch(&self, table_name: &str, columns: &Vec<String>) -> (r: Result<RecordBatch, ProjectionError>)
        requires
            self.wf(),
        ensures
            !has_table_named(self@, table_name@) ==> r == Err::<RecordBatch, ProjectionError>(ProjectionError::TableNotFound),
            has_table_named(self@, table_name@) ==> match projection(
                self@,
                self@.tables[table_named(self@, table_name@)],
                seq_of_strings(columns@),
            ) {
                Some(v) => r matches Ok(b) && b@ == v,
                None => r == Err::<RecordBatch, ProjectionError>(ProjectionError::MissingColumn),
            },
    {
        let ghost cols = seq_of_strings(columns@);
        let ti = match self.dictionary.lookup_value(table_name) {
            None => {
                proof {
                    if has_table_named(self@, table_name@) {
                        let j = table_named(self@, table_name@);
                        assert(self@.tables[j].id < self@.dictionary.len());
                        assert(self@.dictionary.contains(table_name@));
                    }
                }
                return Err(ProjectionError::TableNotFound);
            },
            Some(id) => match self.table_index(id) {
                None => {
                    proof {
                        if has_table_named(self@, table_name@) {
                            let j = table_named(self@, table_name@);
                            assert(self@.tables[j].id < self@.dictionary.len());
                            assert(self@.tables[j].id == id);
                        }
                    }
                    return Err(ProjectionError::TableNotFound);
                },
                Some(ti) => ti,
            },
        };
        proof {
            lemma_table_named_unique(self@, table_name@, ti as int);
        }
        let ghost tv = self@.tables[ti as int];
        let t = &self.tables[ti];
        let mut out: Vec<BatchColumn> = Vec::new();
        if columns.len() == 0 {
            let mut k: usize = 0;
            while k < t.column_count()
                invariant
                    k <= tv.columns.len(),
                    batch_columns_view(out@) == first_columns(self@, tv, k as nat),
                decreases tv.columns.len() - k,
            {
                let c = self.project_column(ti, k);
                let ghost before = out@;
                let ghost cv = c@;
                out.push(c);
                assert(batch_columns_view(out@) =~= batch_columns_view(before).push(cv));
                assert(batch_columns_view(out@) =~= first_columns(self@, tv, (k + 1) as nat));
                k = k + 1;
            }
            assert(cols.len() == 0);
            return Ok(RecordBatch { columns: out });
        }
        let mut c: usize = 0;
        while c < columns.len()
            invariant
                c <= cols.len(),
                cols.len() == columns@.len(),
                forall|i: int| 0 <= i < c ==> has_column_named(self@, tv, #[trigger] cols[i]),
                batch_columns_view(out@) == named_columns(self@, tv, cols, c as nat),
            decreases columns.len() - c,
        {
            let k = match self.dictionary.lookup_value(columns[c].as_str()) {
                None => {
                    proof {
                        if has_column_named(self@, tv, cols[c as int]) {
                            let k = column_named(self@, tv, cols[c as int]);
                            assert(tv.column_ids[k] < self@.dictionary.len());
                            assert(self@.dictionary.contains(cols[c as int]));
                        }
                    }
                    return Err(ProjectionError::MissingColumn);
                },
                Some(cid) => match t.column_index(cid) {
                    None => {
                        proof {
                            if has_column_named(self@, tv, cols[c as int]) {
                                let k = column_named(self@, tv, cols[c as int]);
                                assert(tv.column_ids[k] < self@.dictionary.len());
                                assert(tv.column_ids[k] == cid);
                                assert(tv.column_ids.contains(cid));
                            }
                        }
                        return Err(ProjectionError::MissingColumn);
                    },
                    Some(k) => k,
                },
            };
            proof {
                lemma_column_named_unique(self@, ti as int, cols[c as int], k as int);
            }
            let col = self.project_column(ti, k);
            let ghost before = out@;
            let ghost cv = col@;
            out.push(col);
            assert(batch_columns_view(out@) =~= batch_columns_view(before).push(cv));
            assert(batch_columns_view(out@) =~= named_columns(self@, tv, cols, (c + 1) as nat));
            c = c + 1;
        }
        Ok(RecordBatch { columns: out })
    }
}

/// A tag predicate: the row's tag column `column` holds `value`.
#[derive(Debug)]
pub struct Predicate {
    pub column: String,
    pub value: String,
}

/// The content of an optional predicate.
pub open spec fn predicate_view(p: Option<&Predicate>) -> Option<(Seq<char>, Seq<char>)> {
    match p {
        None => None,
        Some(x) => Some((x.column@, x.value@)),
    }
}

/// Row `r` of table `j` of `p` satisfies the optional tag predicate.
pub open spec fn row_tag_ok(p: PartitionView, j: int, r: int, tag: Option<(Seq<char>, Seq<char>)>) -> bool {
    match tag {
        None => true,
        Some((c, v)) => exists|k: int|
            0 <= k < p.tables[j].column_ids.len() && p.dictionary[p.tables[j].column_ids[k] as int] == c
                && match #[trigger] p.tables[j].columns[k].cells[r] {
                Some(Cell::Tag(x)) => p.dictionary[x as int] == v,
                _ => false,
            },
    }
}

/// Row `r` of table `j` of `p` is in the optional range and satisfies the
/// optional tag predicate.
pub open spec fn row_selected(
    p: PartitionView,
    j: int,
    r: int,
    range: Option<TimestampRange>,
    tag: Option<(Seq<char>, Seq<char>)>,
) -> bool {
    &&& match partition_predicate(range) {
        None => true,
        Some(pr) => crate::table::row_in_range(p.tables[j], pr, r),
    }
    &&& row_tag_ok(p, j, r, tag)
}

/// Column `k` of table `j` of `p` holds a value in a selected row.
pub open spec fn column_matches_where(
    p: PartitionView,
    j: int,
    k: int,
    range: Option<TimestampRange>,
    tag: Option<(Seq<char>, Seq<char>)>,
) -> bool {
    exists|r: int|
        0 <= r < p.tables[j].row_count && p.tables[j].columns[k].cells[r] is Some && #[trigger] row_selected(
            p,
            j,
            r,
            range,
            tag,
        )
}

impl Partition {
    /// Whether row `row` of table `ti` satisfies the optional tag predicate.
    pub fn row_tag_matches(&self, ti: usize, row: usize, tag: Option<&Predicate>) -> (r: bool)
        requires
            self.wf(),
            ti < self@.tables.len(),
            row < self@.tables[ti as int].row_count,
        ensures
            r == row_tag_ok(self@, ti as int, row as int, predicate_view(tag)),
    {
        match tag {
            None => true,
            Some(pr) => {
                let t = &self.tables[ti];
                let ghost tv = self@.tables[ti as int];
                let ghost c = pr.column@;
                let ghost v = pr.value@;
                let cid = match self.dictionary.lookup_value(pr.column.as_str()) {
                    Some(cid) => cid,
                    None => {
                        proof {
                            if row_tag_ok(self@, ti as int, row as int, predicate_view(tag)) {
                                let k = choose|k: int|
                                    0 <= k < tv.column_ids.len() && self@.dictionary[tv.column_ids[k] as int] == c
                                        && match #[trigger] tv.columns[k].cells[row as int] {
                                        Some(Cell::Tag(x)) => self@.dictionary[x as int] == v,
                                        _ => false,
                                    };
                                assert(tv.column_ids[k] < self@.dictionary.len());
                                assert(self@.dictionary.contains(c));
                            }
                        }
                        return false;
                    },
                };
                let k = match t.column_index(cid) {
                    Some(k) => k,
                    None => {
                        proof {
                            if row_tag_ok(self@, ti as int, row as int, predicate_view(tag)) {
                                let k = choose|k: int|
                                    0 <= k < tv.column_ids.len() && self@.dictionary[tv.column_ids[k] as int] == c
                                        && match #[trigger] tv.columns[k].cells[row as int] {
                                        Some(Cell::Tag(x)) => self@.dictionary[x as int] == v,
                                        _ => false,
                                    };
                                assert(tv.column_ids[k] < self@.dictionary.len());
                                assert(tv.column_ids[k] == cid);
                                assert(tv.column_ids.contains(cid));
                            }
                        }
                        return false;
                    },
                };
                proof {
                    lemma_column_named_unique(self@, ti as int, c, k as int);
                    assert forall|k2: int|
                        0 <= k2 < tv.column_ids.len() && self@.dictionary[tv.column_ids[k2] as int] == c implies k2 == k by {
                        lemma_column_named_unique(self@, ti as int, c, k2);
                    }
                    lemma_columns_same_length_in(self@, ti as int, k as int);
                }
                match t.tag_at(k, row) {
                    Some(x) => {
                        assert(symbols_valid(tv, self@.dictionary.len()));
                        assert(tv.columns[k as int].cells[row as int] == Some(Cell::Tag(x)));
                        assert(x < self@.dictionary.len());
                        match self.dictionary.lookup_id(x) {
                            Some(s) => str_eq(s, pr.value.as_str()),
                            None => false,
                        }
                    },
                    None => false,
                }
            },
        }
    }

    /// Whether row `row` of table `ti` is in `range` and satisfies `tag`.
    pub fn row_is_selected(
        &self,
        ti: usize,
        row: usize,
        range: Option<TimestampRange>,
        tag: Option<&Predicate>,
    ) -> (r: bool)
        requires
            self.wf(),
            ti < self@.tables.len(),
            row < self@.tables[ti as int].row_count,
        ensures
            r == row_selected(self@, ti as int, row as int, range, predicate_view(tag)),
    {
        let pred = self.make_timestamp_predicate(range);
        self.tables[ti].row_matches(row, pred) && self.row_tag_matches(ti, row, tag)
    }

    /// Whether column `k` of table `ti` holds a value in a row that is in
    /// `range` and satisfies `tag`.
    pub fn column_has_match(
        &self,
        ti: usize,
        k: usize,
        range: Option<TimestampRange>,
        tag: Option<&Predicate>,
    ) -> (r: bool)
        requires
            self.wf(),
            ti < self@.tables.len(),
            k < self@.tables[ti as int].columns.len(),
        ensures
            r == column_matches_where(self@, ti as int, k as int, range, predicate_view(tag)),
    {
        let t = &self.tables[ti];
        let ghost tv = self@.tables[ti as int];
        proof {
            lemma_columns_same_length_in(self@, ti as int, k as int);
        }
        let mut row: usize = 0;
        while row < t.row_count()
            invariant
                self.wf(),
                ti < self@.tables.len(),
                tv == self@.tables[ti as int],
                t@ == tv,
                k < tv.columns.len(),
                row <= tv.row_count,
                forall|i: int|
                    0 <= i < row ==> !(tv.columns[k as int].cells[i] is Some && #[trigger] row_selected(
                        self@,
                        ti as int,
                        i,
                        range,
                        predicate_view(tag),
                    )),
            decreases tv.row_count - row,
        {
            if t.is_present(k, row) && self.row_is_selected(ti, row, range, tag) {
                assert(crate::table::cell_at(tv, k as int, row as int) == tv.columns[k as int].cells[row as int]);
                return true;
            }
            assert(crate::table::cell_at(tv, k as int, row as int) == tv.columns[k as int].cells[row as int]);
            row = row + 1;
        }
        false
    }
}

/// Every column of a table of a well-formed partition is as long as the
/// table.
proof fn lemma_columns_same_length_in(p: PartitionView, j: int, k: int)
    requires
        partition_wf(p),
        0 <= j < p.tables.len(),
        0 <= k < p.tables[j].columns.len(),
    ensures
        p.tables[j].columns[k].cells.len() == p.tables[j].row_count,
{
    crate::table::lemma_columns_same_length(p.tables[j], k);
}

} // verus!
