use std::collections::BTreeSet;

use write_buffer::batch::{BatchColumn, ColumnData, RecordBatch};
use write_buffer::database::{Db, Error};
use write_buffer::line::{partition_key, FieldData, ParsedLine};
use write_buffer::partition::Predicate;
use write_buffer::table::TimestampRange;

fn line(measurement: &str, tags: &[(&str, &str)], fields: Vec<(&str, FieldData)>, ts: i64) -> ParsedLine {
    ParsedLine {
        measurement: measurement.to_string(),
        tags: tags.iter().map(|(k, v)| (k.to_string(), v.to_string())).collect(),
        fields: fields.into_iter().map(|(k, v)| (k.to_string(), v)).collect(),
        timestamp: Some(ts),
    }
}

fn f(v: f64) -> FieldData {
    FieldData::F64(v.to_bits())
}

fn to_set(v: &[&str]) -> BTreeSet<String> {
    v.iter().map(|s| s.to_string()).collect()
}

fn set_of(v: Vec<String>) -> BTreeSet<String> {
    assert!(v.windows(2).all(|w| w[0] < w[1]), "listing is not ascending: {:?}", v);
    let n = v.len();
    let s: BTreeSet<String> = v.into_iter().collect();
    assert_eq!(n, s.len(), "listing holds a string twice");
    s
}

fn eq(column: &str, value: &str) -> Option<Predicate> {
    Some(Predicate { column: column.to_string(), value: value.to_string() })
}

fn range(start: i64, end: i64) -> Option<TimestampRange> {
    Some(TimestampRange { start, end })
}

fn strings(v: &[Option<&str>]) -> ColumnData {
    ColumnData::String(v.iter().map(|o| o.map(|s| s.to_string())).collect())
}

fn floats(v: &[Option<f64>]) -> ColumnData {
    ColumnData::F64(v.iter().map(|o| o.map(|x| x.to_bits())).collect())
}

fn column(name: &str, data: ColumnData) -> BatchColumn {
    BatchColumn { name: name.to_string(), data }
}

fn names(v: &[&str]) -> Vec<String> {
    v.iter().map(|s| s.to_string()).collect()
}

fn recovery_batches() -> Vec<Vec<ParsedLine>> {
    vec![
        vec![
            line(
                "cpu",
                &[("region", "west"), ("host", "A")],
                vec![
                    ("user", f(23.2)),
                    ("other", FieldData::I64(1)),
                    ("str", FieldData::String("some string".to_string())),
                    ("b", FieldData::Bool(true)),
                ],
                10,
            ),
            line(
                "disk",
                &[("region", "west"), ("host", "A")],
                vec![("bytes", FieldData::I64(23432323)), ("used_percent", f(76.2))],
                10,
            ),
        ],
        vec![line("cpu", &[("region", "west"), ("host", "B")], vec![("user", f(23.1))], 15)],
        vec![line("cpu", &[("host", "A"), ("new_tag", "foo")], vec![("new_field", f(15.1))], 20)],
        vec![line("mem", &[("region", "east"), ("host", "C")], vec![("val", FieldData::I64(23432))], 10)],
    ]
}

fn expected_cpu() -> RecordBatch {
    RecordBatch {
        columns: vec![
            column("region", strings(&[Some("west"), Some("west"), None])),
            column("host", strings(&[Some("A"), Some("B"), Some("A")])),
            column("user", floats(&[Some(23.2), Some(23.1), None])),
            column("other", ColumnData::I64(vec![Some(1), None, None])),
            column("str", strings(&[Some("some string"), None, None])),
            column("b", ColumnData::Bool(vec![Some(true), None, None])),
            column("time", ColumnData::I64(vec![Some(10), Some(15), Some(20)])),
            column("new_tag", strings(&[None, None, Some("foo")])),
            column("new_field", floats(&[None, None, Some(15.1)])),
        ],
    }
}

fn expected_mem() -> RecordBatch {
    RecordBatch {
        columns: vec![
            column("region", strings(&[Some("east")])),
            column("host", strings(&[Some("C")])),
            column("val", ColumnData::I64(vec![Some(23432)])),
            column("time", ColumnData::I64(vec![Some(10)])),
        ],
    }
}

fn expected_disk() -> RecordBatch {
    RecordBatch {
        columns: vec![
            column("region", strings(&[Some("west")])),
            column("host", strings(&[Some("A")])),
            column("bytes", ColumnData::I64(vec![Some(23432323)])),
            column("used_percent", floats(&[Some(76.2)])),
            column("time", ColumnData::I64(vec![Some(10)])),
        ],
    }
}

const CPU_COLUMNS: &[&str] = &["region", "host", "user", "other", "str", "b", "time", "new_tag", "new_field"];
const MEM_COLUMNS: &[&str] = &["region", "host", "val", "time"];
const DISK_COLUMNS: &[&str] = &["region", "host", "bytes", "used_percent", "time"];

#[test]
fn list_table_names() {
    let mut db = Db::new("mydb");
    assert_eq!(set_of(db.table_names(None)), BTreeSet::new());
    let lines = vec![
        line("cpu", &[("region", "west")], vec![("user", f(23.2))], 10),
        line("disk", &[("region", "east")], vec![("bytes", FieldData::I64(99))], 11),
    ];
    db.write_lines(&lines).unwrap();
    assert_eq!(set_of(db.table_names(None)), to_set(&["cpu", "disk"]));
    assert_eq!(db.table_names(None), vec!["cpu".to_string(), "disk".to_string()]);
}

#[test]
fn list_table_names_timestamps() {
    let mut db = Db::new("mydb");
    let lines = vec![
        line("cpu", &[("region", "west")], vec![("user", f(23.2))], 100),
        line("cpu", &[("region", "west")], vec![("user", f(21.0))], 150),
        line("disk", &[("region", "east")], vec![("bytes", FieldData::I64(99))], 200),
    ];
    db.write_lines(&lines).unwrap();
    assert_eq!(set_of(db.table_names(range(0, 201))), to_set(&["cpu", "disk"]));
    assert_eq!(set_of(db.table_names(range(0, 200))), to_set(&["cpu"]));
    assert_eq!(set_of(db.table_names(range(50, 101))), to_set(&["cpu"]));
    assert_eq!(set_of(db.table_names(range(250, 350))), to_set(&[]));
}

#[test]
fn missing_tags_are_null() {
    let mut db = Db::new("mydb");
    let lines = vec![
        line("cpu", &[("region", "west")], vec![("user", f(23.2))], 10),
        line("cpu", &[], vec![("user", f(10.0))], 11),
        line("cpu", &[("core", "one")], vec![("user", f(10.0))], 11),
    ];
    db.write_lines(&lines).unwrap();
    let partitions = db.table_to_batches("cpu", &names(&["region", "core"])).unwrap();
    assert_eq!(partitions.len(), 1);
    let columns = &partitions[0].columns;
    assert_eq!(2, columns.len());
    assert_eq!(columns[0].name, "region");
    assert_eq!(columns[0].data, strings(&[Some("west"), None, None]));
    assert_eq!(columns[1].name, "core");
    assert_eq!(columns[1].data, strings(&[None, None, Some("one")]));
}

#[test]
fn write_data_and_recover() {
    let mut frames: Vec<Vec<u8>> = Vec::new();
    {
        let mut db = Db::new("mydb");
        for lines in recovery_batches() {
            frames.push(db.write_lines(&lines).unwrap());
        }
        assert_eq!(db.table_to_batches("cpu", &names(CPU_COLUMNS)).unwrap(), vec![expected_cpu()]);
        assert_eq!(db.table_to_batches("mem", &names(MEM_COLUMNS)).unwrap(), vec![expected_mem()]);
        assert_eq!(db.table_to_batches("disk", &names(DISK_COLUMNS)).unwrap(), vec![expected_disk()]);
    }
    let db = Db::restore_from_wal("mydb", &frames).unwrap();
    assert_eq!(db.name(), "mydb");
    assert_eq!(db.table_to_batches("cpu", &names(CPU_COLUMNS)).unwrap(), vec![expected_cpu()]);
    assert_eq!(db.table_to_batches("mem", &names(MEM_COLUMNS)).unwrap(), vec![expected_mem()]);
    assert_eq!(db.table_to_batches("disk", &names(DISK_COLUMNS)).unwrap(), vec![expected_disk()]);
}

#[test]
fn recover_partial_entries() {
    let mut frames: Vec<Vec<u8>> = Vec::new();
    let mut db = Db::new("mydb");
    for lines in recovery_batches() {
        frames.push(db.write_lines(&lines).unwrap());
    }
    let last_two: Vec<Vec<u8>> = frames.into_iter().skip(2).collect();
    let db = Db::restore_from_wal("mydb", &last_two).unwrap();

    let smaller_cpu = RecordBatch {
        columns: vec![
            column("host", strings(&[Some("A")])),
            column("new_tag", strings(&[Some("foo")])),
            column("new_field", floats(&[Some(15.1)])),
            column("time", ColumnData::I64(vec![Some(20)])),
        ],
    };
    assert_eq!(
        db.table_to_batches("cpu", &names(&["host", "new_tag", "new_field", "time"])).unwrap(),
        vec![smaller_cpu]
    );
    assert_eq!(db.table_to_batches("mem", &names(MEM_COLUMNS)).unwrap(), vec![expected_mem()]);
    let nonexistent_table = db.table_to_batches("disk", &names(DISK_COLUMNS));
    assert!(nonexistent_table.is_err());
    let actual_message = format!("{:?}", nonexistent_table);
    assert!(actual_message.contains("TableNameNotFoundInDictionary"));
}

#[test]
fn db_partition_key() {
    let lines = vec![
        line("cpu", &[], vec![("user", f(23.2))], 1600107710000000000),
        line("disk", &[], vec![("bytes", FieldData::I64(23432323))], 1600136510000000000),
    ];
    let keys: Vec<String> = lines.iter().map(partition_key).collect();
    assert_eq!(keys, vec!["2020-09-14T18", "2020-09-15T02"]);
}

fn column_names_db() -> Db {
    let mut db = Db::new("column_namedb");
    let lines = vec![
        line("h2o", &[("state", "CA"), ("city", "LA"), ("county", "LA")], vec![("temp", f(70.4))], 100),
        line("h2o", &[("state", "MA"), ("city", "Boston"), ("county", "Suffolk")], vec![("temp", f(72.4))], 250),
        line("o2", &[("state", "MA"), ("city", "Boston")], vec![("temp", f(50.4))], 200),
        line("o2", &[("state", "CA")], vec![("temp", f(79.0))], 300),
        line("o2", &[("state", "NY")], vec![("temp", f(60.8))], 400),
        line("o2", &[("state", "NY"), ("city", "NYC")], vec![("temp", f(61.0))], 500),
        line("o2", &[("state", "NY"), ("city", "NYC"), ("borough", "Brooklyn")], vec![("temp", f(61.0))], 600),
    ];
    db.write_lines(&lines).unwrap();
    db
}

#[test]
fn list_column_names() {
    let db = column_names_db();
    let cases: Vec<(Option<&str>, Option<TimestampRange>, Option<Predicate>, &[&str])> = vec![
        (None, None, None, &["borough", "city", "county", "state"]),
        (None, range(150, 201), None, &["city", "state"]),
        (None, None, eq("state", "MA"), &["city", "county", "state"]),
        (None, range(150, 201), eq("state", "MA"), &["city", "state"]),
        (Some("o2"), None, None, &["borough", "city", "state"]),
        (Some("o2"), range(150, 201), None, &["city", "state"]),
        (Some("o2"), None, eq("state", "NY"), &["borough", "city", "state"]),
        (Some("o2"), range(1, 550), eq("state", "NY"), &["city", "state"]),
    ];
    for (table, r, predicate, expected) in cases {
        let actual = db.tag_column_names(table, r, predicate.as_ref()).unwrap();
        assert_eq!(set_of(actual), to_set(expected), "table {:?}, range {:?}, predicate {:?}", table, r, predicate);
    }
}

#[test]
fn list_column_names_predicate() {
    let mut db = Db::new("column_namedb");
    let lines = vec![
        line("h2o", &[("state", "CA"), ("city", "LA"), ("county", "LA")], vec![("temp", f(70.4))], 100),
        line("h2o", &[("state", "MA"), ("city", "Boston"), ("county", "Suffolk")], vec![("temp", f(72.4))], 250),
        line("o2", &[("state", "MA"), ("city", "Boston")], vec![("temp", f(50.4))], 200),
        line("o2", &[("state", "CA")], vec![("temp", f(79.0))], 300),
        line("o2", &[("state", "NY"), ("city", "NYC"), ("borough", "Brooklyn")], vec![("temp", f(60.8))], 400),
    ];
    db.write_lines(&lines).unwrap();
    let actual = db.tag_column_names(None, None, eq("state", "MA").as_ref()).unwrap();
    assert_eq!(to_set(&["state", "city", "county"]), set_of(actual));
}

fn column_values_db() -> Db {
    let mut db = Db::new("column_namedb");
    let lines = vec![
        line("h2o", &[("state", "CA"), ("city", "LA")], vec![("temp", f(70.4))], 100),
        line("h2o", &[("state", "MA"), ("city", "Boston")], vec![("temp", f(72.4))], 250),
        line("o2", &[("state", "MA"), ("city", "Boston")], vec![("temp", f(50.4))], 200),
        line("o2", &[("state", "CA")], vec![("temp", f(79.0))], 300),
        line("o2", &[("state", "NY")], vec![("temp", f(60.8))], 400),
    ];
    db.write_lines(&lines).unwrap();
    db
}

#[test]
fn list_column_values() {
    let db = column_values_db();
    let cases: Vec<(&str, Option<&str>, Option<TimestampRange>, Option<Predicate>, &[&str])> = vec![
        ("state", None, None, None, &["CA", "MA", "NY"]),
        ("city", None, None, None, &["Boston", "LA"]),
        ("state", None, range(50, 201), None, &["CA", "MA"]),
        ("city", None, None, eq("state", "MA"), &["Boston"]),
        ("state", None, range(150, 301), eq("state", "MA"), &["MA"]),
        ("state", Some("h2o"), None, None, &["CA", "MA"]),
        ("city", Some("o2"), None, None, &["Boston"]),
        ("state", Some("o2"), range(50, 201), None, &["MA"]),
        ("state", Some("o2"), None, eq("state", "NY"), &["NY"]),
        ("state", Some("o2"), range(1, 550), eq("state", "NY"), &["NY"]),
        ("state", Some("o2"), range(1, 300), eq("state", "NY"), &[]),
    ];
    for (column_name, table, r, predicate, expected) in cases {
        let actual = db.column_values(column_name, table, r, predicate.as_ref()).unwrap();
        assert_eq!(
            set_of(actual),
            to_set(expected),
            "column {}, table {:?}, range {:?}, predicate {:?}",
            column_name,
            table,
            r,
            predicate
        );
    }
}

#[test]
fn column_values_of_a_field_is_unsupported() {
    let db = column_values_db();
    assert_eq!(db.column_values("temp", None, None, None), Err(Error::UnsupportedColumnTypeForListingValues));
}

#[test]
fn column_values_of_unknown_column_fails() {
    let db = column_values_db();
    assert_eq!(db.column_values("nonesuch", None, None, None), Err(Error::ColumnNameNotFoundInDictionary));
}

#[test]
fn unknown_table_fails_listing() {
    let db = column_values_db();
    assert_eq!(db.tag_column_names(Some("nonesuch"), None, None), Err(Error::TableNameNotFoundInDictionary));
    assert_eq!(db.column_values("state", Some("nonesuch"), None, None), Err(Error::TableNameNotFoundInDictionary));
}

#[test]
fn tag_values_by_time_window() {
    let mut db = Db::new("mydb");
    let lines = vec![
        line("o2", &[("state", "MA")], vec![("temp", f(1.0))], 50),
        line("o2", &[("state", "CA")], vec![("temp", f(2.0))], 300),
        line("o2", &[("state", "NY")], vec![("temp", f(3.0))], 400),
        line("h2o", &[("state", "CA")], vec![("temp", f(4.0))], 100),
        line("h2o", &[("state", "MA")], vec![("temp", f(5.0))], 200),
    ];
    db.write_lines(&lines).unwrap();
    let ny = eq("state", "NY");
    assert_eq!(set_of(db.column_values("state", Some("o2"), range(1, 300), ny.as_ref()).unwrap()), to_set(&[]));
    assert_eq!(set_of(db.column_values("state", Some("o2"), range(1, 550), ny.as_ref()).unwrap()), to_set(&["NY"]));
    assert_eq!(set_of(db.column_values("state", Some("o2"), range(1, 301), None).unwrap()), to_set(&["MA", "CA"]));
}

#[test]
fn missing_timestamp_rejects_whole_write() {
    let mut db = Db::new("mydb");
    let mut no_time = line("cpu", &[], vec![("user", f(1.0))], 0);
    no_time.timestamp = None;
    let lines = vec![line("cpu", &[], vec![("user", f(1.0))], 5), no_time];
    assert_eq!(db.write_lines(&lines), Err(Error::MissingTimestamp));
    assert_eq!(db.partition_count(), 0);
    assert!(db.table_names(None).is_empty());
}

#[test]
fn schema_mismatch_is_reported() {
    let mut db = Db::new("mydb");
    db.write_lines(&vec![line("cpu", &[], vec![("user", f(1.0))], 5)]).unwrap();
    let r = db.write_lines(&vec![line("cpu", &[], vec![("user", FieldData::I64(1))], 6)]);
    assert!(format!("{:?}", r).contains("Schema"));
    let batches = db.table_to_batches("cpu", &names(&["user", "time"])).unwrap();
    assert_eq!(batches[0].columns[1].data, ColumnData::I64(vec![Some(5)]));
}

#[test]
fn user_column_named_time_is_rejected() {
    let mut db = Db::new("mydb");
    let r = db.write_lines(&vec![line("cpu", &[("time", "x")], vec![("user", f(1.0))], 5)]);
    assert!(format!("{:?}", r).contains("TimeReserved"));
}

#[test]
fn missing_column_in_projection_fails() {
    let mut db = Db::new("mydb");
    db.write_lines(&vec![line("cpu", &[], vec![("user", f(1.0))], 5)]).unwrap();
    assert_eq!(db.table_to_batches("cpu", &names(&["user", "nonesuch"])), Err(Error::MissingColumn));
}

#[test]
fn empty_projection_returns_all_columns() {
    let mut db = Db::new("mydb");
    db.write_lines(&vec![line("cpu", &[("host", "a")], vec![("user", FieldData::I64(7))], 5)]).unwrap();
    let batches = db.table_to_batches("cpu", &Vec::new()).unwrap();
    let got: Vec<&str> = batches[0].columns.iter().map(|c| c.name.as_str()).collect();
    assert_eq!(got, vec!["host", "user", "time"]);
}

#[test]
fn hourly_partitions() {
    let mut db = Db::new("mydb");
    let lines = vec![
        line("cpu", &[], vec![("user", f(23.2))], 1600107710000000000),
        line("cpu", &[], vec![("user", f(23.2))], 1600136510000000000),
    ];
    db.write_lines(&lines).unwrap();
    assert_eq!(db.partition_count(), 2);
    assert_eq!(db.partition_at(0).key(), "2020-09-14T18");
    assert_eq!(db.partition_at(1).key(), "2020-09-15T02");
    assert_eq!(db.table_to_batches("cpu", &names(&["time"])).unwrap().len(), 2);
}

#[test]
fn listings_come_out_ascending() {
    let mut db = Db::new("mydb");
    let lines = vec![
        line("zeta", &[("b", "y"), ("a", "x")], vec![("v", f(1.0))], 5),
        line("alpha", &[("b", "w"), ("é", "z")], vec![("v", f(1.0))], 6),
        line("Mid", &[("a", "é"), ("a2", "A")], vec![("v", f(1.0))], 7),
    ];
    db.write_lines(&lines).unwrap();
    assert_eq!(db.table_names(None), names(&["Mid", "alpha", "zeta"]));
    assert_eq!(db.tag_column_names(None, None, None).unwrap(), names(&["a", "a2", "b", "é"]));
    assert_eq!(db.column_values("b", None, None, None).unwrap(), names(&["w", "y"]));
    assert_eq!(db.column_values("a", None, None, None).unwrap(), names(&["x", "é"]));
}
