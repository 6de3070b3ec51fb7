use write_buffer::codec::{decode_batch, encode_batch, frame_record, split_frames};
use write_buffer::wal::{FieldValue, Row, TableWriteBatch, WireValue, WriteBufferBatch, WriteBufferEntry};

fn sample() -> WriteBufferBatch {
    let row = |ts: i64, host: &str| Row {
        values: vec![
            FieldValue { name: "host".to_string(), value: WireValue::Tag(host.to_string()) },
            FieldValue { name: "user".to_string(), value: WireValue::F64(23.5f64.to_bits()) },
            FieldValue { name: "count".to_string(), value: WireValue::I64(-7) },
            FieldValue { name: "ok".to_string(), value: WireValue::Bool(true) },
            FieldValue { name: "msg".to_string(), value: WireValue::String("héllo".to_string()) },
            FieldValue { name: "time".to_string(), value: WireValue::Time(ts) },
        ],
    };
    WriteBufferBatch {
        entries: vec![
            WriteBufferEntry {
                partition_key: "2020-09-14T18".to_string(),
                table_batches: vec![TableWriteBatch { table: "cpu".to_string(), rows: vec![row(1, "a"), row(2, "b")] }],
            },
            WriteBufferEntry { partition_key: "2020-09-15T02".to_string(), table_batches: vec![] },
        ],
    }
}

fn describe(b: &WriteBufferBatch) -> String {
    format!("{:?}", b)
}

#[test]
fn batch_round_trips() {
    let b = sample();
    let bytes = encode_batch(&b);
    let back = decode_batch(&bytes).expect("decodes");
    assert_eq!(describe(&back), describe(&b));
}

#[test]
fn empty_batch_round_trips() {
    let b = WriteBufferBatch { entries: vec![] };
    let bytes = encode_batch(&b);
    assert_eq!(bytes, vec![0u8; 8]);
    assert_eq!(decode_batch(&bytes).unwrap().entries.len(), 0);
}

#[test]
fn truncated_or_padded_frames_do_not_decode() {
    let bytes = encode_batch(&sample());
    assert!(decode_batch(&bytes[..bytes.len() - 1]).is_none());
    let mut longer = bytes.clone();
    longer.push(0);
    assert!(decode_batch(&longer).is_none());
    assert!(decode_batch(&[]).is_none());
}

#[test]
fn bad_variant_byte_does_not_decode() {
    let b = WriteBufferBatch {
        entries: vec![WriteBufferEntry {
            partition_key: "k".to_string(),
            table_batches: vec![TableWriteBatch {
                table: "t".to_string(),
                rows: vec![Row { values: vec![FieldValue { name: "n".to_string(), value: WireValue::Bool(false) }] }],
            }],
        }],
    };
    let mut bytes = encode_batch(&b);
    let n = bytes.len();
    assert_eq!(bytes[n - 2], 3);
    bytes[n - 2] = 9;
    assert!(decode_batch(&bytes).is_none());
}

#[test]
fn records_split_back_and_ignore_a_partial_tail() {
    let f1 = vec![1u8, 2, 3];
    let f2: Vec<u8> = vec![];
    let f3 = vec![9u8; 20];
    let mut log = Vec::new();
    for f in [&f1, &f2, &f3] {
        log.extend(frame_record(f));
    }
    assert_eq!(split_frames(&log), vec![f1.clone(), f2.clone(), f3.clone()]);
    let mut partial = log.clone();
    partial.extend(&frame_record(&vec![7u8; 10])[..12]);
    assert_eq!(split_frames(&partial), vec![f1.clone(), f2.clone(), f3.clone()]);
    partial.extend(&[1u8, 2, 3]);
    assert_eq!(split_frames(&log[..5]), Vec::<Vec<u8>>::new());
}

#[test]
fn record_holds_length_then_frame() {
    assert_eq!(frame_record(&vec![5u8, 6]), vec![2, 0, 0, 0, 0, 0, 0, 0, 5, 6]);
}
