use amp_format::framing::bytes_to_length;
use amp_format::framing::usize_to_bytes;
use amp_format::to_amp;
use amp_format::Error;
use amp_format::Field;
use amp_format::Serializer;
use amp_format::Value;

#[test]
fn test_serialize_bool_true() {
    let expected = vec![
        0 as u8, 4 as u8, 'T' as u8, 'r' as u8, 'u' as u8, 'e' as u8, 0 as u8, 0 as u8,
    ];
    assert_eq!(expected, to_amp(&Value::Bool(true)).unwrap());
}

#[test]
fn test_serialize_bool_false() {
    let expected = vec![
        0 as u8, 5 as u8, 'F' as u8, 'a' as u8, 'l' as u8, 's' as u8, 'e' as u8, 0 as u8, 0 as u8,
    ];
    assert_eq!(expected, to_amp(&Value::Bool(false)).unwrap());
}

#[test]
fn test_serialize_char() {
    let an_char = 'X';
    let expected = vec![0 as u8, 1 as u8, 'X' as u8, 0 as u8, 0 as u8];
    assert_eq!(expected, to_amp(&Value::Char(an_char)).unwrap());
}

#[test]
fn test_serialize_str() {
    let an_str = "An string";
    let expected = vec![
        0 as u8, 9 as u8, 'A' as u8, 'n' as u8, ' ' as u8, 's' as u8, 't' as u8, 'r' as u8,
        'i' as u8, 'n' as u8, 'g' as u8, 0 as u8, 0 as u8,
    ];
    assert_eq!(expected, to_amp(&Value::Str(an_str.to_string())).unwrap());
}

#[test]
fn test_serialize_u8() {
    let number: u8 = 10;
    let expected = vec![0 as u8, 2 as u8, '1' as u8, '0' as u8, 0 as u8, 0 as u8];
    assert_eq!(expected, to_amp(&Value::U8(number)).unwrap());
}

#[test]
fn test_serialize_u16() {
    let number: u16 = 100;
    let expected = vec![
        0 as u8, 3 as u8, '1' as u8, '0' as u8, '0' as u8, 0 as u8, 0 as u8,
    ];
    assert_eq!(expected, to_amp(&Value::U16(number)).unwrap());
}

#[test]
fn test_serialize_u32() {
    let number: u32 = 1000;
    let expected = vec![
        0 as u8, 4 as u8, '1' as u8, '0' as u8, '0' as u8, '0' as u8, 0 as u8, 0 as u8,
    ];
    assert_eq!(expected, to_amp(&Value::U32(number)).unwrap());
}

#[test]
fn test_serialize_u64() {
    let number: u64 = 10000;
    let expected = vec![
        0 as u8, 5 as u8, '1' as u8, '0' as u8, '0' as u8, '0' as u8, '0' as u8, 0 as u8, 0 as u8,
    ];
    assert_eq!(expected, to_amp(&Value::U64(number)).unwrap());
}

#[test]
fn test_serialize_i8() {
    let number: i8 = -10;
    let expected = vec![
        0 as u8, 3 as u8, '-' as u8, '1' as u8, '0' as u8, 0 as u8, 0 as u8,
    ];
    assert_eq!(expected, to_amp(&Value::I8(number)).unwrap());
}

#[test]
fn test_serialize_i16() {
    let number: i16 = -100;
    let expected = vec![
        0 as u8, 4 as u8, '-' as u8, '1' as u8, '0' as u8, '0' as u8, 0 as u8, 0 as u8,
    ];
    assert_eq!(expected, to_amp(&Value::I16(number)).unwrap());
}

#[test]
fn test_serialize_i32() {
    let number: i32 = -1000;
    let expected = vec![
        0 as u8, 5 as u8, '-' as u8, '1' as u8, '0' as u8, '0' as u8, '0' as u8, 0 as u8, 0 as u8,
    ];
    assert_eq!(expected, to_amp(&Value::I32(number)).unwrap());
}

#[test]
fn test_serialize_i64() {
    let number: i64 = -10000;
    let expected = vec![
        0 as u8, 6 as u8, '-' as u8, '1' as u8, '0' as u8, '0' as u8, '0' as u8, '0' as u8,
        0 as u8, 0 as u8,
    ];
    assert_eq!(expected, to_amp(&Value::I64(number)).unwrap());
}

// A float travels as text: the text is made here and the library frames it.
#[test]
fn test_serialize_f32() {
    let number: f32 = 1.5;
    let expected = vec![
        0 as u8, 3 as u8, '1' as u8, '.' as u8, '5' as u8, 0 as u8, 0 as u8,
    ];
    let mut serializer = Serializer::new();
    serializer.serialize_str(&number.to_string()).unwrap();
    serializer.end();
    assert_eq!(expected, serializer.into_output());
}

#[test]
fn test_serialize_f64() {
    let number: f64 = 10.5;
    let expected = vec![
        0 as u8, 4 as u8, '1' as u8, '0' as u8, '.' as u8, '5' as u8, 0 as u8, 0 as u8,
    ];
    let mut serializer = Serializer::new();
    serializer.serialize_str(&number.to_string()).unwrap();
    serializer.end();
    assert_eq!(expected, serializer.into_output());
}

#[test]
fn test_some() {
    let expected: Vec<u8> = vec![0 as u8, 1 as u8, '1' as u8, 0 as u8, 0 as u8];
    let value: Option<u8> = Some(1);
    let mut serializer = Serializer::new();
    if let Some(present) = value {
        serializer.serialize_some(&Value::U8(present)).unwrap();
    }
    serializer.end();
    assert_eq!(expected, serializer.into_output());
}

#[test]
fn test_struct() {
    let expected = vec![
        0 as u8, 5 as u8, 'v' as u8, 'a' as u8, 'l' as u8, 'u' as u8, 'e' as u8, 0 as u8, 2 as u8,
        '1' as u8, '0' as u8, 0 as u8, 6 as u8, 'n' as u8, 'e' as u8, 's' as u8, 't' as u8,
        'e' as u8, 'd' as u8, 0 as u8, 5 as u8, 'i' as u8, 'n' as u8, 'n' as u8, 'e' as u8,
        'r' as u8, 0 as u8, 1 as u8, '1' as u8, 0 as u8, 0 as u8,
    ];

    let value = Value::Struct(vec![
        Field { key: "value".to_string(), value: Value::U64(10) },
        Field {
            key: "nested".to_string(),
            value: Value::Struct(vec![Field { key: "inner".to_string(), value: Value::U64(1) }]),
        },
    ]);
    assert_eq!(expected, to_amp(&value).unwrap());
}

#[test]
fn test_sequence() {
    let expected = vec![
        0 as u8, 8 as u8, 0 as u8, 2 as u8, '1' as u8, '0' as u8, 0 as u8, 2 as u8, '1' as u8,
        '1' as u8, 0 as u8, 0 as u8,
    ];

    let value = Value::Sequence(vec![Value::I32(10), Value::I32(11)]);
    assert_eq!(expected, to_amp(&value).unwrap());
}

#[test]
fn length_prefix_has_the_high_byte_first() {
    assert_eq!(Ok([0, 0]), usize_to_bytes(0));
    assert_eq!(Ok([0, 4]), usize_to_bytes(4));
    assert_eq!(Ok([1, 2]), usize_to_bytes(258));
    assert_eq!(Ok([255, 255]), usize_to_bytes(65535));
    assert_eq!(0, bytes_to_length(&[0, 0]));
    assert_eq!(258, bytes_to_length(&[1, 2]));
    assert_eq!(513, bytes_to_length(&[2, 1]));
    assert_eq!(65535, bytes_to_length(&[255, 255]));
}

#[test]
fn length_prefix_is_read_back() {
    for n in [0usize, 1, 255, 256, 257, 4660, 65534, 65535] {
        let bytes = usize_to_bytes(n).unwrap();
        assert_eq!(n, bytes_to_length(&bytes) as usize);
    }
}

#[test]
fn a_length_over_two_bytes_is_refused() {
    let refused = Err(Error::Message("Key length in response too long".to_string()));
    assert_eq!(refused, usize_to_bytes(65536));
    assert_eq!(refused, usize_to_bytes(usize::MAX));
}

#[test]
fn integers_at_the_limits_of_their_types_are_written() {
    fn document(text: &str) -> Vec<u8> {
        let mut bytes = vec![0u8, text.len() as u8];
        bytes.extend(text.as_bytes());
        bytes.extend([0u8, 0]);
        bytes
    }
    assert_eq!(Ok(document("0")), to_amp(&Value::U8(0)));
    assert_eq!(Ok(document("0")), to_amp(&Value::I64(0)));
    assert_eq!(Ok(document("9")), to_amp(&Value::U8(9)));
    assert_eq!(Ok(document("-128")), to_amp(&Value::I8(i8::MIN)));
    assert_eq!(Ok(document("127")), to_amp(&Value::I8(i8::MAX)));
    assert_eq!(Ok(document("-32768")), to_amp(&Value::I16(i16::MIN)));
    assert_eq!(Ok(document("-2147483648")), to_amp(&Value::I32(i32::MIN)));
    assert_eq!(Ok(document("-9223372036854775808")), to_amp(&Value::I64(i64::MIN)));
    assert_eq!(Ok(document("9223372036854775807")), to_amp(&Value::I64(i64::MAX)));
    assert_eq!(Ok(document("255")), to_amp(&Value::U8(u8::MAX)));
    assert_eq!(Ok(document("65535")), to_amp(&Value::U16(u16::MAX)));
    assert_eq!(Ok(document("4294967295")), to_amp(&Value::U32(u32::MAX)));
    assert_eq!(Ok(document("18446744073709551615")), to_amp(&Value::U64(u64::MAX)));
}

#[test]
fn a_character_is_written_as_utf8() {
    assert_eq!(Ok(vec![0, 3, 0xe2, 0x98, 0x83, 0, 0]), to_amp(&Value::Char('\u{2603}')));
    assert_eq!(Ok(vec![0, 2, 0xc3, 0xa9, 0, 0]), to_amp(&Value::Char('\u{e9}')));
    assert_eq!(
        Ok(vec![0, 5, b'h', 0xc3, 0xa9, b'!', b'?', 0, 0]),
        to_amp(&Value::Str("h\u{e9}!?".to_string()))
    );
}

#[test]
fn the_empty_string_is_refused() {
    let refused = Err(Error::Message("Empty string has no encoding".to_string()));
    assert_eq!(refused, to_amp(&Value::Str(String::new())));
    let keyless = Value::Struct(vec![Field { key: String::new(), value: Value::U8(1) }]);
    assert_eq!(refused, to_amp(&keyless));
    let inside = Value::Sequence(vec![Value::U8(1), Value::Str(String::new())]);
    assert_eq!(refused, to_amp(&inside));
    let mut serializer = Serializer::new();
    serializer.serialize_u8(7).unwrap();
    assert_eq!(
        Err(Error::Message("Empty string has no encoding".to_string())),
        serializer.serialize_str("")
    );
    assert_eq!(vec![0, 1, b'7'], serializer.into_output());
}

#[test]
fn a_string_over_the_longest_field_is_refused() {
    let refused = Err(Error::Message("Key length in response too long".to_string()));
    let longest = "x".repeat(65535);
    let bytes = to_amp(&Value::Str(longest.clone())).unwrap();
    assert_eq!(65535 + 4, bytes.len());
    assert_eq!([255, 255], bytes[..2]);
    assert_eq!([0, 0], bytes[bytes.len() - 2..]);
    let too_long = "x".repeat(65536);
    assert_eq!(refused, to_amp(&Value::Str(too_long.clone())));
    let mut serializer = Serializer::new();
    serializer.serialize_bool(true).unwrap();
    assert_eq!(
        Err(Error::Message("Key length in response too long".to_string())),
        serializer.serialize_str(&too_long)
    );
    assert_eq!(vec![0, 4, b'T', b'r', b'u', b'e'], serializer.into_output());
}

#[test]
fn a_sequence_over_the_longest_frame_is_refused() {
    let refused = Err(Error::Message("Key length in response too long".to_string()));
    let half = "x".repeat(40000);
    let value = Value::Sequence(vec![Value::Str(half.clone()), Value::Str(half.clone())]);
    assert_eq!(refused, to_amp(&value));
    let mut serializer = Serializer::new();
    serializer.serialize_u8(1).unwrap();
    assert_eq!(
        Err(Error::Message("Key length in response too long".to_string())),
        serializer.serialize_value(&value)
    );
    serializer.end();
    assert_eq!(vec![0, 1, b'1', 0, 0], serializer.into_output());
}

#[test]
fn sequences_nest() {
    let value = Value::Sequence(vec![
        Value::Sequence(vec![Value::U8(1), Value::U8(2)]),
        Value::Sequence(vec![]),
        Value::Sequence(vec![Value::U8(3)]),
    ]);
    let expected = vec![
        0u8, 15, 0, 6, 0, 1, b'1', 0, 1, b'2', 0, 0, 0, 3, 0, 1, b'3', 0, 0,
    ];
    assert_eq!(Ok(expected), to_amp(&value));
}

#[test]
fn a_sequence_is_framed_by_hand() {
    let mut serializer = Serializer::new();
    serializer.serialize_str("k").unwrap();
    serializer.serialize_seq();
    serializer.serialize_element(&Value::U8(10)).unwrap();
    serializer.serialize_seq();
    serializer.serialize_element(&Value::Bool(true)).unwrap();
    serializer.end_seq().unwrap();
    serializer.serialize_i8(-1).unwrap();
    serializer.end_seq().unwrap();
    serializer.end();
    let expected = vec![
        0u8, 1, b'k', 0, 16, 0, 2, b'1', b'0', 0, 6, 0, 4, b'T', b'r', b'u', b'e', 0, 2, b'-',
        b'1', 0, 0,
    ];
    assert_eq!(expected, serializer.into_output());
}

#[test]
fn an_empty_sequence_is_an_empty_frame() {
    assert_eq!(Ok(vec![0, 0, 0, 0]), to_amp(&Value::Sequence(vec![])));
    assert_eq!(Ok(vec![0, 0]), to_amp(&Value::Struct(vec![])));
}

#[test]
fn a_field_is_a_key_and_a_value() {
    let mut serializer = Serializer::new();
    serializer.serialize_field("a", &Value::U8(1)).unwrap();
    assert_eq!(
        Err(Error::Message("Empty string has no encoding".to_string())),
        serializer.serialize_field("b", &Value::Str(String::new()))
    );
    assert_eq!(
        Err(Error::Message("Empty string has no encoding".to_string())),
        serializer.serialize_field("", &Value::U8(2))
    );
    serializer.end();
    assert_eq!(vec![0, 1, b'a', 0, 1, b'1', 0, 0], serializer.into_output());
}

#[test]
fn a_negative_integer_has_a_minus_sign() {
    assert_eq!(Ok(vec![0, 3, b'-', b'1', b'5', 0, 0]), to_amp(&Value::I8(-15i8)));
}

#[test]
fn a_string_is_its_bytes() {
    assert_eq!(
        Ok(vec![0, 4, b't', b'e', b's', b't', 0, 0]),
        to_amp(&Value::Str("test".to_string()))
    );
}

#[test]
fn closing_a_sequence_that_is_not_open_is_refused() {
    let refused = Err(Error::Message("No sequence is open".to_string()));
    let mut serializer = Serializer::new();
    assert_eq!(refused, serializer.end_seq());
    serializer.serialize_u8(7).unwrap();
    assert_eq!(refused, serializer.end_seq());
    serializer.serialize_seq();
    assert_eq!(Ok(()), serializer.end_seq());
    assert_eq!(refused, serializer.end_seq());
    serializer.end();
    assert_eq!(vec![0, 1, b'7', 0, 0, 0, 0], serializer.into_output());
}

#[test]
fn a_frame_that_is_too_long_stays_open() {
    let refused = Err(Error::Message("Key length in response too long".to_string()));
    let half = "x".repeat(40000);
    let mut serializer = Serializer::new();
    serializer.serialize_seq();
    serializer.serialize_str(&half).unwrap();
    serializer.serialize_str(&half).unwrap();
    assert_eq!(refused, serializer.end_seq());
    assert_eq!(refused, serializer.end_seq());
    assert_eq!(80004, serializer.into_output().len());
}
