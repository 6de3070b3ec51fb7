use write_buffer::dictionary::{Dictionary, DictionaryError};

#[test]
fn intern_assigns_dense_ids_in_order() {
    let mut d = Dictionary::new();
    assert_eq!(d.intern("a"), Ok(0));
    assert_eq!(d.intern("b"), Ok(1));
    assert_eq!(d.intern("c"), Ok(2));
    assert_eq!(d.len(), 3);
}

#[test]
fn intern_is_idempotent() {
    let mut d = Dictionary::new();
    let first = d.intern("west").unwrap();
    let size = d.len();
    let second = d.intern("west").unwrap();
    assert_eq!(first, second);
    assert_eq!(d.len(), size);
}

#[test]
fn lookups_both_ways() {
    let mut d = Dictionary::new();
    d.intern("cpu").unwrap();
    d.intern("région").unwrap();
    assert_eq!(d.lookup_value("région"), Some(1));
    assert_eq!(d.lookup_value("cpu"), Some(0));
    assert_eq!(d.lookup_value("disk"), None);
    assert_eq!(d.lookup_id(1), Some("région"));
    assert_eq!(d.lookup_id(2), None);
    assert_eq!(d.lookup_value_or_error("disk"), Err(DictionaryError::ValueNotFound));
    assert_eq!(d.lookup_value_or_error("cpu"), Ok(0));
    assert_eq!(d.lookup_id_or_error(7), Err(DictionaryError::IdNotFound));
    assert_eq!(d.lookup_id_or_error(0), Ok("cpu"));
}
