//! Parsed line-protocol points and their grouping into a write batch.
use vstd::prelude::*;
use crate::partition::time_name;
use crate::text::{seq_of_strings, str_eq};
use crate::wal::{
    entries_view, fields_view, rows_view, tables_view, EntryModel, FieldModel, FieldValue, Row, TableBatchModel, TableWriteBatch, ValueModel,
    WireValue, WriteBufferBatch, WriteBufferEntry,
};

verus! {

/// A field value of a line. Floating-point values are held as their
/// IEEE-754 bit pattern.
#[derive(Debug)]
pub enum FieldData {
    I64(i64),
    F64(u64),
    Bool(bool),
    String(String),
}

/// One point: a measurement with tags, fields and an optional timestamp in
/// nanoseconds.
#[derive(Debug)]
pub struct ParsedLine {
    pub measurement: String,
    pub tags: Vec<(String, String)>,
    pub fields: Vec<(String, FieldData)>,
    pub timestamp: Option<i64>,
}

/// The hourly partition key (`YYYY-MM-DDThh`, UTC) of a timestamp.
pub uninterp spec fn hour_key_of(ts: i64) -> Seq<char>;

/// Relies on chrono: `Utc.timestamp_nanos`, which accepts every `i64`, and
/// its `format("%Y-%m-%dT%H")`; the text depends on the timestamp alone.
#[verifier::external_body]
fn format_hour(ts: i64) -> (r: String)
    ensures
        r@ == hour_key_of(ts),
{
    chrono::TimeZone::timestamp_nanos(&chrono::Utc, ts).format("%Y-%m-%dT%H").to_string()
}

/// The partition key of a line: the UTC hour of its timestamp.
pub fn partition_key(line: &ParsedLine) -> (r: String)
    requires
        line.timestamp is Some,
    ensures
        r@ == hour_key_of(line.timestamp.unwrap()),
{
    match line.timestamp {
        Some(ts) => format_hour(ts),
        None => String::new(),
    }
}

/// The batch value of a field.
pub open spec fn field_value(d: FieldData) -> ValueModel {
    match d {
        FieldData::I64(v) => ValueModel::I64(v),
        FieldData::F64(v) => ValueModel::F64(v),
        FieldData::Bool(v) => ValueModel::Bool(v),
        FieldData::String(s) => ValueModel::String(s@),
    }
}

/// The batch fields of a line's tags.
pub open spec fn tag_fields(tags: Seq<(String, String)>) -> Seq<FieldModel> {
    Seq::new(tags.len(), |i: int| FieldModel { name: tags[i].0@, value: ValueModel::Tag(tags[i].1@) })
}

/// The batch fields of a line's fields.
pub open spec fn data_fields(fields: Seq<(String, FieldData)>) -> Seq<FieldModel> {
    Seq::new(fields.len(), |i: int| FieldModel { name: fields[i].0@, value: field_value(fields[i].1) })
}

/// The row of a line: its tags, then its fields, then its time.
pub open spec fn line_row(l: ParsedLine) -> Seq<FieldModel> {
    tag_fields(l.tags@) + data_fields(l.fields@) + seq![
        FieldModel { name: time_name(), value: ValueModel::Time(l.timestamp.unwrap()) },
    ]
}

/// No two entries share a partition key.
pub open spec fn keys_distinct(es: Seq<EntryModel>) -> bool {
    forall|i: int, j: int|
        0 <= i < es.len() && 0 <= j < es.len() && i != j ==> (#[trigger] es[i]).partition_key
            != (#[trigger] es[j]).partition_key
}

/// Adds `row` for `table` to the table batches of an entry: to the last
/// batch if it is for the same table, else as a new batch.
pub open spec fn add_to_tables(tbs: Seq<TableBatchModel>, table: Seq<char>, row: Seq<FieldModel>) -> Seq<TableBatchModel> {
    if tbs.len() > 0 && tbs.last().table == table {
        tbs.update(tbs.len() - 1, TableBatchModel { table, rows: tbs.last().rows.push(row) })
    } else {
        tbs.push(TableBatchModel { table, rows: seq![row] })
    }
}

/// Adds `row` for `table` to the entry for `key`, which is created at the
/// end if no entry has that key.
pub open spec fn add_line(es: Seq<EntryModel>, key: Seq<char>, table: Seq<char>, row: Seq<FieldModel>) -> Seq<EntryModel> {
    if exists|i: int| 0 <= i < es.len() && (#[trigger] es[i]).partition_key == key {
        let i = choose|i: int| 0 <= i < es.len() && (#[trigger] es[i]).partition_key == key;
        es.update(i, EntryModel { partition_key: key, table_batches: add_to_tables(es[i].table_batches, table, row) })
    } else {
        es.push(EntryModel { partition_key: key, table_batches: seq![TableBatchModel { table, rows: seq![row] }] })
    }
}

/// The batch of a sequence of lines: one entry per partition key, in order
/// of first appearance, each with the lines' rows in order.
pub open spec fn group_lines(lines: Seq<ParsedLine>) -> Seq<EntryModel> {
    group_keyed(lines, line_keys(lines))
}

/// The partition key of each line.
pub open spec fn line_keys(lines: Seq<ParsedLine>) -> Seq<Seq<char>> {
    Seq::new(lines.len(), |i: int| hour_key_of(lines[i].timestamp.unwrap()))
}

/// The batch of a sequence of lines whose `i`-th line goes to partition
/// key `keys[i]`.
pub open spec fn group_keyed(lines: Seq<ParsedLine>, keys: Seq<Seq<char>>) -> Seq<EntryModel>
    decreases lines.len(),
{
    if lines.len() == 0 {
        Seq::<EntryModel>::empty()
    } else {
        let l = lines.last();
        add_line(group_keyed(lines.drop_last(), keys), keys[lines.len() - 1], l.measurement@, line_row(l))
    }
}

/// Every line has a timestamp.
pub open spec fn all_timestamped(lines: Seq<ParsedLine>) -> bool {
    forall|i: int| 0 <= i < lines.len() ==> (#[trigger] lines[i]).timestamp is Some
}

/// The row of a line.
fn make_row(line: &ParsedLine) -> (r: Row)
    requires
        line.timestamp is Some,
    ensures
        r@ == line_row(*line),
{
    let mut values: Vec<FieldValue> = Vec::new();
    let mut i: usize = 0;
    while i < line.tags.len()
        invariant
            i <= line.tags@.len(),
            fields_view(values@) == tag_fields(line.tags@.take(i as int)),
        decreases line.tags.len() - i,
    {
        let t = &line.tags[i];
        let ghost before = values@;
        values.push(FieldValue { name: t.0.clone(), value: WireValue::Tag(t.1.clone()) });
        assert(values@ == before.push(values@.last()));
        assert(values@.last()@ == FieldModel { name: line.tags@[i as int].0@, value: ValueModel::Tag(line.tags@[i as int].1@) });
        assert(fields_view(values@) =~= tag_fields(line.tags@.take(i as int)).push(values@.last()@));
        assert(fields_view(values@) =~= tag_fields(line.tags@.take(i + 1)));
        i = i + 1;
    }
    let ghost tags = fields_view(values@);
    let mut j: usize = 0;
    while j < line.fields.len()
        invariant
            j <= line.fields@.len(),
            fields_view(values@) == tags + data_fields(line.fields@.take(j as int)),
        decreases line.fields.len() - j,
    {
        let fd = &line.fields[j];
        let k = &fd.0;
        let value = match &fd.1 {
            FieldData::I64(v) => WireValue::I64(*v),
            FieldData::F64(v) => WireValue::F64(*v),
            FieldData::Bool(v) => WireValue::Bool(*v),
            FieldData::String(s) => WireValue::String(s.clone()),
        };
        let ghost before = values@;
        values.push(FieldValue { name: k.clone(), value });
        assert(values@.last()@ == FieldModel { name: line.fields@[j as int].0@, value: field_value(line.fields@[j as int].1) });
        assert(fields_view(values@) =~= fields_view(before).push(values@.last()@));
        assert(data_fields(line.fields@.take(j + 1)) =~= data_fields(line.fields@.take(j as int)).push(values@.last()@));
        assert(fields_view(values@) =~= tags + data_fields(line.fields@.take(j + 1)));
        j = j + 1;
    }
    let ts = match line.timestamp {
        Some(t) => t,
        None => 0,
    };
    proof {
        reveal_strlit("time");
    }
    let time = String::from_str("time");
    assert(time@ =~= time_name());
    values.push(FieldValue { name: time, value: WireValue::Time(ts) });
    let r = Row { values };
    assert(line.tags@.take(line.tags@.len() as int) =~= line.tags@);
    assert(line.fields@.take(line.fields@.len() as int) =~= line.fields@);
    assert(r@ =~= line_row(*line));
    r
}

/// Groups lines into one batch: one entry per partition key, in order of
/// first appearance; within an entry, consecutive lines of one table share
/// a table batch.
pub fn split_lines_into_write_entry_partitions(lines: &Vec<ParsedLine>) -> (r: WriteBufferBatch)
    requires
        all_timestamped(lines@),
    ensures
        r@ == group_lines(lines@),
{
    let mut keys: Vec<String> = Vec::new();
    let mut i: usize = 0;
    while i < lines.len()
        invariant
            all_timestamped(lines@),
            i <= lines@.len(),
            seq_of_strings(keys@) == line_keys(lines@).take(i as int),
        decreases lines.len() - i,
    {
        assert(lines@[i as int].timestamp is Some);
        let key = partition_key(&lines[i]);
        let ghost before = keys@;
        let ghost kv = key@;
        keys.push(key);
        assert(seq_of_strings(keys@) =~= seq_of_strings(before).push(kv));
        assert(kv == line_keys(lines@)[i as int]);
        assert(seq_of_strings(keys@) =~= line_keys(lines@).take(i + 1));
        i = i + 1;
    }
    assert(line_keys(lines@).take(lines@.len() as int) =~= line_keys(lines@));
    group_by_partition_key(lines, &keys)
}

/// Groups lines into one batch by the given partition keys, `keys[i]`
/// for `lines[i]`: one entry per key, in order of first appearance; within
/// an entry, consecutive lines of one table share a table batch.
#[verifier::loop_isolation(false)]
pub fn group_by_partition_key(lines: &Vec<ParsedLine>, keys: &Vec<String>) -> (r: WriteBufferBatch)
    requires
        all_timestamped(lines@),
        keys@.len() == lines@.len(),
    ensures
        r@ == group_keyed(lines@, seq_of_strings(keys@)),
{
    let mut entries: Vec<WriteBufferEntry> = Vec::new();
    let mut i: usize = 0;
    assert(lines@.take(0) =~= Seq::<ParsedLine>::empty());
    assert(entries_view(entries@) =~= Seq::<EntryModel>::empty());
    while i < lines.len()
        invariant
            i <= lines@.len(),
            entries_view(entries@) == group_keyed(lines@.take(i as int), seq_of_strings(keys@)),
            keys_distinct(entries_view(entries@)),
        decreases lines.len() - i,
    {
        let line = &lines[i];
        assert(lines@[i as int].timestamp is Some);
        let key = keys[i].clone();
        assert(key@ == seq_of_strings(keys@)[i as int]);
        let row = make_row(line);
        let ghost es = entries_view(entries@);
        let ghost table = line.measurement@;
        assert(lines@.take(i + 1).drop_last() =~= lines@.take(i as int));
        assert(lines@.take(i + 1).last() == *line);
        let mut e: usize = 0;
        let mut found = false;
        while e < entries.len()
            invariant
                e <= entries@.len(),
                es == entries_view(entries@),
                !found,
                forall|k: int| 0 <= k < e ==> es[k].partition_key != key@,
            decreases entries.len() - e,
        {
            if str_eq(entries[e].partition_key.as_str(), key.as_str()) {
                found = true;
                break;
            }
            e = e + 1;
        }
        if found {
            assert(es[e as int].partition_key == key@);
            let ghost tbs = es[e as int].table_batches;
            let nt = entries[e].table_batches.len();
            let same = nt > 0 && str_eq(entries[e].table_batches[nt - 1].table.as_str(), line.measurement.as_str());
            let ghost old_tbs = entries@[e as int].table_batches@;
            let ghost rv = row@;
            if same {
                let ghost old_rows = old_tbs[nt - 1].rows@;
                entries[e].table_batches[nt - 1].rows.push(row);
                proof {
                    let new_tbs = entries@[e as int].table_batches@;
                    assert(new_tbs.len() == old_tbs.len());
                    assert(rows_view(new_tbs[nt - 1].rows@) =~= rows_view(old_rows).push(rv));
                    assert(tables_view(new_tbs) =~= tbs.update(nt - 1, TableBatchModel { table, rows: tbs.last().rows.push(rv) }));
                }
            } else {
                let tb = TableWriteBatch { table: line.measurement.clone(), rows: vec![row] };
                assert(tb@ =~= TableBatchModel { table, rows: seq![rv] }) by {
                    assert(rows_view(tb.rows@) =~= seq![rv]);
                }
                entries[e].table_batches.push(tb);
                proof {
                    let new_tbs = entries@[e as int].table_batches@;
                    assert(tables_view(new_tbs) =~= tbs.push(TableBatchModel { table, rows: seq![rv] }));
                }
            }
            proof {
                let i0 = choose|i0: int| 0 <= i0 < es.len() && (#[trigger] es[i0]).partition_key == key@;
                assert(i0 == e as int);
                let n = entries_view(entries@);
                let want = es.update(e as int, EntryModel { partition_key: key@, table_batches: add_to_tables(tbs, table, line_row(*line)) });
                assert(n[e as int].table_batches =~= add_to_tables(tbs, table, line_row(*line)));
                assert(n =~= want);
                assert forall|a: int, b: int| 0 <= a < n.len() && 0 <= b < n.len() && a != b implies (#[trigger] n[a]).partition_key != (#[trigger] n[b]).partition_key by {
                    assert(n[a].partition_key == es[a].partition_key);
                    assert(n[b].partition_key == es[b].partition_key);
                }
            }
        } else {
            let ghost rv = row@;
            let tb = TableWriteBatch { table: line.measurement.clone(), rows: vec![row] };
            assert(tb@ =~= TableBatchModel { table, rows: seq![rv] }) by {
                assert(rows_view(tb.rows@) =~= seq![rv]);
            }
            let ent = WriteBufferEntry { partition_key: key, table_batches: vec![tb] };
            assert(ent@.table_batches =~= seq![TableBatchModel { table, rows: seq![rv] }]);
            entries.push(ent);
            proof {
                let n = entries_view(entries@);
                assert(!(exists|i0: int| 0 <= i0 < es.len() && (#[trigger] es[i0]).partition_key == key@));
                assert(n[es.len() as int].table_batches =~= seq![TableBatchModel { table, rows: seq![line_row(*line)] }]);
                assert(n =~= es.push(EntryModel { partition_key: key@, table_batches: seq![TableBatchModel { table, rows: seq![line_row(*line)] }] }));
                assert forall|a: int, b: int| 0 <= a < n.len() && 0 <= b < n.len() && a != b implies (#[trigger] n[a]).partition_key != (#[trigger] n[b]).partition_key by {
                    if a < es.len() && b < es.len() {
                        assert(n[a].partition_key == es[a].partition_key);
                        assert(n[b].partition_key == es[b].partition_key);
                    } else if a < es.len() {
                        assert(n[a].partition_key == es[a].partition_key);
                    } else {
                        assert(n[b].partition_key == es[b].partition_key);
                    }
                }
            }
        }
        i = i + 1;
    }
    assert(lines@.take(lines@.len() as int) =~= lines@);
    WriteBufferBatch { entries }
}

} // verus!
