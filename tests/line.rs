use write_buffer::line::{group_by_partition_key, split_lines_into_write_entry_partitions, FieldData, ParsedLine};
use write_buffer::wal::WireValue;

fn line(measurement: &str, host: &str, ts: i64) -> ParsedLine {
    ParsedLine {
        measurement: measurement.to_string(),
        tags: vec![("host".to_string(), host.to_string())],
        fields: vec![("v".to_string(), FieldData::I64(ts))],
        timestamp: Some(ts),
    }
}

#[test]
fn lines_group_by_key_then_table() {
    let lines = vec![line("cpu", "a", 1), line("cpu", "b", 2), line("mem", "c", 3), line("cpu", "d", 4), line("cpu", "e", 5)];
    let keys: Vec<String> = vec!["k1", "k2", "k1", "k1", "k2"].into_iter().map(String::from).collect();
    let batch = group_by_partition_key(&lines, &keys);
    assert_eq!(batch.entries.len(), 2);
    assert_eq!(batch.entries[0].partition_key, "k1");
    let tables: Vec<(&str, usize)> =
        batch.entries[0].table_batches.iter().map(|t| (t.table.as_str(), t.rows.len())).collect();
    assert_eq!(tables, vec![("cpu", 1), ("mem", 1), ("cpu", 1)]);
    assert_eq!(batch.entries[1].partition_key, "k2");
    assert_eq!(batch.entries[1].table_batches.len(), 1);
    assert_eq!(batch.entries[1].table_batches[0].rows.len(), 2);
}

#[test]
fn rows_hold_tags_fields_then_time() {
    let batch = split_lines_into_write_entry_partitions(&vec![line("cpu", "a", 7)]);
    assert_eq!(batch.entries.len(), 1);
    assert_eq!(batch.entries[0].partition_key, "1970-01-01T00");
    let row = &batch.entries[0].table_batches[0].rows[0];
    let names: Vec<&str> = row.values.iter().map(|f| f.name.as_str()).collect();
    assert_eq!(names, vec!["host", "v", "time"]);
    assert!(matches!(&row.values[0].value, WireValue::Tag(h) if h == "a"));
    assert!(matches!(row.values[1].value, WireValue::I64(7)));
    assert!(matches!(row.values[2].value, WireValue::Time(7)));
}

#[test]
fn lines_in_different_hours_split() {
    let lines = vec![line("cpu", "a", 0), line("cpu", "a", 3_600_000_000_000), line("cpu", "a", 1)];
    let batch = split_lines_into_write_entry_partitions(&lines);
    let keys: Vec<&str> = batch.entries.iter().map(|e| e.partition_key.as_str()).collect();
    assert_eq!(keys, vec!["1970-01-01T00", "1970-01-01T01"]);
    assert_eq!(batch.entries[0].table_batches[0].rows.len(), 2);
}
