use write_buffer::column::{Column, ColumnType, ColumnValue, SchemaMismatch};
use write_buffer::table::{Table, TimestampPredicate, TimestampRange};

#[test]
fn new_columns_are_back_filled_with_nulls() {
    let mut t = Table::new(0);
    t.append_row(&vec![(1, ColumnValue::I64(10))]).unwrap();
    t.append_row(&vec![(1, ColumnValue::I64(11)), (2, ColumnValue::Tag(5))]).unwrap();
    assert_eq!(t.row_count(), 2);
    assert_eq!(t.column_count(), 2);
    match t.column_at(1) {
        Column::Tag(v) => assert_eq!(v, &vec![None, Some(5)]),
        other => panic!("unexpected column {:?}", other),
    }
    t.append_row(&vec![(2, ColumnValue::Tag(6))]).unwrap();
    match t.column_at(0) {
        Column::I64(v) => assert_eq!(v, &vec![Some(10), Some(11), None]),
        other => panic!("unexpected column {:?}", other),
    }
    for k in 0..t.column_count() {
        assert_eq!(t.column_at(k).len(), t.row_count());
    }
}

#[test]
fn type_conflict_leaves_table_unchanged() {
    let mut t = Table::new(0);
    t.append_row(&vec![(1, ColumnValue::I64(10))]).unwrap();
    let r = t.append_row(&vec![(2, ColumnValue::Bool(true)), (1, ColumnValue::String("x".to_string()))]);
    assert_eq!(r, Err(SchemaMismatch { expected: ColumnType::I64, found: ColumnType::String }));
    assert_eq!(t.row_count(), 1);
    assert_eq!(t.column_count(), 1);
}

#[test]
fn timestamp_predicate_is_half_open() {
    let mut t = Table::new(0);
    t.append_row(&vec![(3, ColumnValue::I64(100))]).unwrap();
    t.append_row(&vec![(3, ColumnValue::I64(150)), (4, ColumnValue::Tag(1))]).unwrap();
    let pred = |start, end| Some(TimestampPredicate { time_column_id: 3, range: TimestampRange { start, end } });
    assert!(t.matches_timestamp_predicate(None));
    assert!(t.matches_timestamp_predicate(pred(100, 101)));
    assert!(!t.matches_timestamp_predicate(pred(101, 150)));
    assert!(t.matches_timestamp_predicate(pred(150, 151)));
    assert!(!t.column_matches_timestamp_predicate(1, pred(100, 101)));
    assert!(t.column_matches_timestamp_predicate(1, pred(150, 151)));
    assert!(t.matches_id_predicate(Some(0)));
    assert!(!t.matches_id_predicate(Some(1)));
    assert!(t.matches_id_predicate(None));
}

#[test]
fn column_push_checks_the_variant() {
    let mut c = Column::new_nulls(ColumnType::Bool, 2);
    assert_eq!(c.len(), 2);
    assert!(c.push(ColumnValue::Bool(true)).is_ok());
    assert_eq!(
        c.push(ColumnValue::F64(0)),
        Err(SchemaMismatch { expected: ColumnType::Bool, found: ColumnType::F64 })
    );
    c.push_null();
    assert_eq!(c.len(), 4);
}
