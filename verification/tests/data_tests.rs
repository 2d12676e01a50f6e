use coop_runtime::data::{Data, DataError};

#[test]
fn serialized_bytes_are_the_length_prefixed_little_endian_form() {
    let d = Data { field1: 1, field2: 2, field3: String::from("AB") };
    let bytes = d.serialize().unwrap();
    assert_eq!(bytes, vec![1, 0, 0, 0, 2, 0, 2, 0, 0, 0, 65, 66]);
}

#[test]
fn multibyte_fields_serialize_little_endian() {
    let d = Data { field1: 0x01020304, field2: 0x0506, field3: String::new() };
    let bytes = d.serialize().unwrap();
    assert_eq!(bytes, vec![4, 3, 2, 1, 6, 5, 0, 0, 0, 0]);
}

#[test]
fn a_message_round_trips() {
    let d = Data { field1: 3_000_000_000, field2: 65_535, field3: String::from("Hello, server!") };
    let bytes = d.serialize().unwrap();
    let (back, end) = Data::deserialize(&bytes, 0).unwrap();
    assert_eq!(end, bytes.len());
    assert_eq!(back.field1, 3_000_000_000);
    assert_eq!(back.field2, 65_535);
    assert_eq!(back.field3, "Hello, server!");
}

#[test]
fn an_empty_text_field_round_trips() {
    let d = Data { field1: 0, field2: 0, field3: String::new() };
    let bytes = d.serialize().unwrap();
    assert_eq!(bytes.len(), 10);
    let (back, end) = Data::deserialize(&bytes, 0).unwrap();
    assert_eq!(end, 10);
    assert_eq!(back.field3, "");
}

#[test]
fn non_ascii_text_round_trips() {
    let d = Data { field1: 7, field2: 8, field3: String::from("héllo ✓") };
    let bytes = d.serialize().unwrap();
    let (back, _) = Data::deserialize(&bytes, 0).unwrap();
    assert_eq!(back.field3, "héllo ✓");
}

#[test]
fn trailing_bytes_are_left_for_the_next_message() {
    let first = Data { field1: 1, field2: 1, field3: String::from("one") };
    let second = Data { field1: 2, field2: 2, field3: String::from("two") };
    let mut bytes = first.serialize().unwrap();
    bytes.extend(second.serialize().unwrap());
    let (d1, mid) = Data::deserialize(&bytes, 0).unwrap();
    assert_eq!(d1.field3, "one");
    let (d2, end) = Data::deserialize(&bytes, mid).unwrap();
    assert_eq!(d2.field1, 2);
    assert_eq!(d2.field3, "two");
    assert_eq!(end, bytes.len());
}

#[test]
fn a_short_header_is_an_unexpected_end() {
    let bytes = vec![1, 2, 3];
    assert!(matches!(Data::deserialize(&bytes, 0), Err(DataError::UnexpectedEnd)));
}

#[test]
fn a_truncated_payload_is_an_unexpected_end() {
    let d = Data { field1: 9, field2: 9, field3: String::from("truncated") };
    let mut bytes = d.serialize().unwrap();
    bytes.pop();
    assert!(matches!(Data::deserialize(&bytes, 0), Err(DataError::UnexpectedEnd)));
}

#[test]
fn a_start_past_the_end_is_an_unexpected_end() {
    let d = Data { field1: 1, field2: 1, field3: String::new() };
    let bytes = d.serialize().unwrap();
    assert!(matches!(Data::deserialize(&bytes, 11), Err(DataError::UnexpectedEnd)));
}

#[test]
fn invalid_utf8_in_the_payload_is_reported() {
    let mut bytes = vec![0, 0, 0, 0, 0, 0, 2, 0, 0, 0];
    bytes.push(0xFF);
    bytes.push(0xFE);
    assert!(matches!(Data::deserialize(&bytes, 0), Err(DataError::InvalidUtf8)));
}

#[test]
fn reserializing_a_parsed_message_reproduces_the_bytes() {
    let d = Data { field1: 5, field2: 6, field3: String::from("x") };
    let bytes = d.serialize().unwrap();
    let (back, _) = Data::deserialize(&bytes, 0).unwrap();
    let again = back.serialize().unwrap();
    assert_eq!(again, bytes);
}
