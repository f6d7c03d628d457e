use resource_lib::index_serialization::{
    index_from_bytes, IndexDeserializer, IndexSerializer, SeqAccess, SerializationError,
};

fn encode(index: &[(String, u64, u64)]) -> Box<[u8]> {
    let mut s = IndexSerializer::new();
    s.serialize_index(index).unwrap();
    s.take()
}

#[test]
fn u64_is_big_endian() {
    let mut s = IndexSerializer::new();
    s.serialize_u64(0x0102030405060708);
    assert_eq!(&s.take()[..], &[1, 2, 3, 4, 5, 6, 7, 8]);
}

#[test]
fn string_has_byte_length_prefix() {
    let mut s = IndexSerializer::new();
    s.serialize_str("hé");
    assert_eq!(&s.take()[..], &[0, 0, 0, 0, 0, 0, 0, 3, b'h', 0xC3, 0xA9]);
}

#[test]
fn record_is_concatenated_fields() {
    let mut s = IndexSerializer::new();
    s.serialize_entry(&("a".to_owned(), 1, 2));
    assert_eq!(
        &s.take()[..],
        &[0, 0, 0, 0, 0, 0, 0, 1, b'a', 0, 0, 0, 0, 0, 0, 0, 1, 0, 0, 0, 0, 0, 0, 0, 2]
    );
}

#[test]
fn sequence_needs_known_length() {
    let mut s = IndexSerializer::new();
    assert!(matches!(s.serialize_seq(None), Err(SerializationError::SerializeError(_))));
    assert!(s.take().is_empty());
    let mut s = IndexSerializer::new();
    assert!(s.serialize_seq(Some(3)).is_ok());
    assert_eq!(&s.take()[..], &[0, 0, 0, 0, 0, 0, 0, 3]);
}

#[test]
fn codec_round_trip_edge_values() {
    let index = vec![
        (String::new(), 0u64, u64::MAX),
        ("x/y.z".to_owned(), u64::MAX, 0),
        ("ünïcödé".to_owned(), 12345, 67890),
    ];
    let data = encode(&index);
    assert_eq!(&index_from_bytes(&data).unwrap()[..], &index[..]);
}

#[test]
fn codec_round_trip_empty_sequence() {
    let data = encode(&[]);
    assert_eq!(&data[..], &[0u8; 8]);
    assert!(index_from_bytes(&data).unwrap().is_empty());
}

#[test]
fn trailing_bytes_are_ignored() {
    let index = vec![("a".to_owned(), 1u64, 2u64)];
    let mut data = encode(&index).to_vec();
    data.extend_from_slice(&[9, 9, 9]);
    assert_eq!(&index_from_bytes(&data).unwrap()[..], &index[..]);
}

#[test]
fn truncated_index_fails() {
    let index = vec![("abc".to_owned(), 1u64, 2u64)];
    let data = encode(&index);
    for cut in 0..data.len() {
        assert!(matches!(
            index_from_bytes(&data[..cut]),
            Err(SerializationError::DeserializeError(_))
        ));
    }
}

#[test]
fn invalid_utf8_fails() {
    let mut data = Vec::new();
    data.extend_from_slice(&1u64.to_be_bytes());
    data.extend_from_slice(&1u64.to_be_bytes());
    data.push(0xFF);
    data.extend_from_slice(&[0u8; 16]);
    assert!(matches!(index_from_bytes(&data), Err(SerializationError::DeserializeError(_))));
}

#[test]
fn deserializer_reads_fields() {
    let data = [0u8, 0, 0, 0, 0, 0, 0, 2, b'o', b'k', 0, 0, 0, 0, 0, 0, 1, 0];
    let mut de = IndexDeserializer::new(&data);
    assert_eq!(de.next_str().unwrap(), "ok");
    assert_eq!(de.next_u64().unwrap(), 256);
    assert!(matches!(de.next_u64(), Err(SerializationError::DeserializeError(_))));
}

#[test]
fn string_longer_than_input_fails() {
    let data = [0u8, 0, 0, 0, 0, 0, 0, 5, b'a'];
    let mut de = IndexDeserializer::new(&data);
    assert!(matches!(de.next_str(), Err(SerializationError::DeserializeError(_))));
}

#[test]
fn seq_access_counts_records() {
    let index = vec![("a".to_owned(), 1u64, 2u64), ("b".to_owned(), 3, 4)];
    let data = encode(&index);
    let mut de = IndexDeserializer::new(&data);
    let n = de.next_u64().unwrap();
    let mut access = SeqAccess::new(de, n);
    assert_eq!(access.next_element().unwrap(), Some(("a".to_owned(), 1, 2)));
    assert_eq!(access.next_element().unwrap(), Some(("b".to_owned(), 3, 4)));
    assert_eq!(access.next_element().unwrap(), None);
}

#[test]
fn error_messages_name_the_cause() {
    let mut de = IndexDeserializer::new(&[0u8, 1, 2]);
    match de.next_u64() {
        Err(SerializationError::DeserializeError(m)) => assert_eq!(m, "EOF"),
        other => panic!("unexpected {:?}", other),
    }
    let short = [0u8, 0, 0, 0, 0, 0, 0, 5, b'a'];
    match IndexDeserializer::new(&short).next_str() {
        Err(SerializationError::DeserializeError(m)) => assert_eq!(m, "EOF"),
        other => panic!("unexpected {:?}", other),
    }
    let bad = [0u8, 0, 0, 0, 0, 0, 0, 1, 0xFF];
    match IndexDeserializer::new(&bad).next_str() {
        Err(SerializationError::DeserializeError(m)) => assert_eq!(m, "UTF-8 Error"),
        other => panic!("unexpected {:?}", other),
    }
}
