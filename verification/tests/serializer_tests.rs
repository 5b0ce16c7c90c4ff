use carapacedb::file_system::IoErrorKind;
use carapacedb::serializer::{
    from_bytes, read_bytes, read_list, read_optional, to_bytes, write_bytes, write_list,
    write_optional, BufferDeserializer, BufferSerializer, Deserializable, Deserializer,
    Serializable, Serializer,
};

fn strings(items: &[Option<&str>]) -> Vec<Option<String>> {
    items.iter().map(|item| item.map(|s| s.to_string())).collect()
}

#[test]
fn optional_string_list_round_trip() {
    let list = strings(&[Some("alpha"), None, Some(""), Some("héllo wörld"), None, Some("z")]);
    let bytes = to_bytes(&list);
    let back: Vec<Option<String>> = from_bytes(bytes).unwrap();
    assert_eq!(back, list);
}

#[test]
fn empty_list_round_trip() {
    let list: Vec<Option<String>> = Vec::new();
    let bytes = to_bytes(&list);
    assert_eq!(bytes, vec![0, 0, 0, 0]);
    let back: Vec<Option<String>> = from_bytes(bytes).unwrap();
    assert_eq!(back, list);
}

#[test]
fn list_of_absent_values_round_trip() {
    let list: Vec<Option<String>> = vec![None, None, None];
    let bytes = to_bytes(&list);
    assert_eq!(bytes, vec![3, 0, 0, 0, 0, 0, 0]);
    let back: Vec<Option<String>> = from_bytes(bytes).unwrap();
    assert_eq!(back, list);
}

#[test]
fn round_trip_through_the_traits() {
    let list = strings(&[Some("x"), None]);
    let mut sink = BufferSerializer::new();
    write_list(&mut sink, list.as_slice()).unwrap();
    write_optional(&mut sink, &Some(7u32)).unwrap();
    write_optional::<_, u32>(&mut sink, &None).unwrap();
    let mut source = BufferDeserializer::new(sink.into_bytes());
    let back: Vec<Option<String>> = read_list(&mut source).unwrap();
    assert_eq!(back, list);
    let seven: Option<u32> = read_optional(&mut source).unwrap();
    assert_eq!(seven, Some(7));
    let nothing: Option<u32> = read_optional(&mut source).unwrap();
    assert_eq!(nothing, None);
    assert_eq!(source.remaining_len(), 0);
}

#[test]
fn integers_are_little_endian() {
    let mut sink = BufferSerializer::new();
    sink.write_u32(0x0102_0304).unwrap();
    sink.write_u64(0x0102_0304_0506_0708).unwrap();
    sink.write_i64(-2).unwrap();
    sink.write_u8(9).unwrap();
    sink.write_bool(true).unwrap();
    sink.write_bool(false).unwrap();
    assert_eq!(
        sink.into_bytes(),
        vec![
            4, 3, 2, 1, 8, 7, 6, 5, 4, 3, 2, 1, 0xfe, 0xff, 0xff, 0xff, 0xff, 0xff, 0xff, 0xff, 9,
            1, 0
        ]
    );
}

#[test]
fn integers_read_back() {
    let bytes = vec![
        4, 3, 2, 1, 8, 7, 6, 5, 4, 3, 2, 1, 0xfe, 0xff, 0xff, 0xff, 0xff, 0xff, 0xff, 0xff, 9, 1, 0,
    ];
    let mut source = BufferDeserializer::new(bytes);
    assert_eq!(source.read_u32(), Ok(0x0102_0304));
    assert_eq!(source.read_u64(), Ok(0x0102_0304_0506_0708));
    assert_eq!(source.read_i64(), Ok(-2));
    assert_eq!(source.read_u8(), Ok(9));
    assert_eq!(source.read_bool(), Ok(true));
    assert_eq!(source.read_bool(), Ok(false));
    assert_eq!(source.read_u8(), Err(IoErrorKind::UnexpectedEof));
}

#[test]
fn string_is_length_then_utf8() {
    let mut sink = BufferSerializer::new();
    sink.write_string("ab").unwrap();
    sink.write_string("").unwrap();
    sink.write_string("é").unwrap();
    assert_eq!(sink.into_bytes(), vec![2, 0, 0, 0, 97, 98, 0, 0, 0, 0, 2, 0, 0, 0, 0xc3, 0xa9]);
}

#[test]
fn string_reads_back_as_text() {
    let mut source = BufferDeserializer::new(vec![2, 0, 0, 0, 0xc3, 0xa9, 1, 0, 0, 0, 97]);
    assert_eq!(source.read_string(), Ok("é".to_string()));
    assert_eq!(source.read_string(), Ok("a".to_string()));
    assert_eq!(source.remaining_len(), 0);
}

#[test]
fn optional_is_flag_then_value() {
    assert_eq!(to_bytes(&Some("a".to_string())), vec![1, 1, 0, 0, 0, 97]);
    assert_eq!(to_bytes(&None::<String>), vec![0]);
}

#[test]
fn list_is_count_then_items() {
    assert_eq!(to_bytes(&vec![1u32, 2u32]), vec![2, 0, 0, 0, 1, 0, 0, 0, 2, 0, 0, 0]);
}

#[test]
fn invalid_utf8_is_invalid_data() {
    let mut source = BufferDeserializer::new(vec![2, 0, 0, 0, 0xff, 0xfe]);
    assert_eq!(source.read_string(), Err(IoErrorKind::InvalidData));
    assert_eq!(from_bytes::<String>(vec![1, 0, 0, 0, 0x80]), Err(IoErrorKind::InvalidData));
}

#[test]
fn truncated_input_is_unexpected_eof() {
    assert_eq!(from_bytes::<u32>(vec![1, 2, 3]), Err(IoErrorKind::UnexpectedEof));
    assert_eq!(from_bytes::<String>(vec![5, 0, 0, 0, 97]), Err(IoErrorKind::UnexpectedEof));
    assert_eq!(
        from_bytes::<Vec<Option<String>>>(vec![2, 0, 0, 0, 0]),
        Err(IoErrorKind::UnexpectedEof)
    );
    assert_eq!(from_bytes::<Option<u32>>(vec![1, 1]), Err(IoErrorKind::UnexpectedEof));
    assert_eq!(from_bytes::<bool>(vec![]), Err(IoErrorKind::UnexpectedEof));
}

#[test]
fn invalid_flag_is_invalid_data() {
    assert_eq!(from_bytes::<bool>(vec![2]), Err(IoErrorKind::InvalidData));
    assert_eq!(from_bytes::<Option<u8>>(vec![7, 1]), Err(IoErrorKind::InvalidData));
}

#[test]
fn bytes_left_over_are_invalid_data() {
    assert_eq!(from_bytes::<u8>(vec![1, 2]), Err(IoErrorKind::InvalidData));
    assert_eq!(from_bytes::<u8>(vec![1]), Ok(1));
}

#[test]
fn byte_lists_are_written_in_one_piece() {
    let mut sink = BufferSerializer::new();
    write_bytes(&mut sink, &[7, 8, 9]).unwrap();
    let bytes = sink.into_bytes();
    assert_eq!(bytes, vec![3, 0, 0, 0, 7, 8, 9]);
    assert_eq!(bytes, to_bytes(&vec![7u8, 8u8, 9u8]));
    let mut source = BufferDeserializer::new(bytes);
    assert_eq!(read_bytes(&mut source), Ok(vec![7, 8, 9]));
    let mut short = BufferDeserializer::new(vec![3, 0, 0, 0, 7]);
    assert_eq!(read_bytes(&mut short), Err(IoErrorKind::UnexpectedEof));
}

#[test]
fn values_serialize_themselves() {
    let mut sink = BufferSerializer::new();
    5u8.serialize(&mut sink).unwrap();
    true.serialize(&mut sink).unwrap();
    (-1i64).serialize(&mut sink).unwrap();
    "hi".to_string().serialize(&mut sink).unwrap();
    let mut source = BufferDeserializer::new(sink.into_bytes());
    assert_eq!(u8::deserialize(&mut source), Ok(5));
    assert_eq!(bool::deserialize(&mut source), Ok(true));
    assert_eq!(i64::deserialize(&mut source), Ok(-1));
    assert_eq!(String::deserialize(&mut source), Ok("hi".to_string()));
}

#[test]
fn read_data_takes_exactly_what_is_asked() {
    let mut source = BufferDeserializer::new(vec![1, 2, 3, 4]);
    assert_eq!(source.read_data(3), Ok(vec![1, 2, 3]));
    assert_eq!(source.remaining_len(), 1);
    assert_eq!(source.read_data(2), Err(IoErrorKind::UnexpectedEof));
    assert_eq!(source.read_data(1), Ok(vec![4]));
    assert_eq!(source.read_data(0), Ok(vec![]));
}
