use nbt_json::decode::{
    decode_document, decode_nbt_data, decode_tag, read_tag_byte_array, read_tag_compound,
    read_tag_int_array, read_tag_list, read_tag_long_array,
};
use nbt_json::primitive::{
    read_tag_byte, read_tag_double, read_tag_float, read_tag_int, read_tag_long, read_tag_short,
    read_tag_string,
};
use nbt_json::tree::{DecodeError, Value};

fn text(s: &str) -> Value {
    Value::Text(s.to_string())
}

fn field(name: &str, v: Value) -> (String, Value) {
    (name.to_string(), v)
}

#[test]
fn primitive_widths_are_fixed() {
    let data: Vec<u8> = vec![0xff; 8];
    assert_eq!(read_tag_byte(&data, 0), Ok((-1, 1)));
    assert_eq!(read_tag_short(&data, 0), Ok((-1, 2)));
    assert_eq!(read_tag_int(&data, 0), Ok((-1, 4)));
    assert_eq!(read_tag_long(&data, 0), Ok((-1, 8)));
    assert_eq!(read_tag_float(&data, 4), Ok((0xffff_ffff, 4)));
    assert_eq!(read_tag_double(&data, 0), Ok((u64::MAX, 8)));
    let zeros: Vec<u8> = vec![0; 8];
    assert_eq!(read_tag_short(&zeros, 6), Ok((0, 2)));
    assert_eq!(read_tag_long(&zeros, 0), Ok((0, 8)));
}

#[test]
fn integers_are_big_endian_twos_complement() {
    let data: Vec<u8> = vec![0x01, 0x02, 0x03, 0x04, 0x05, 0x06, 0x07, 0x08];
    assert_eq!(read_tag_short(&data, 0), Ok((0x0102, 2)));
    assert_eq!(read_tag_int(&data, 0), Ok((0x0102_0304, 4)));
    assert_eq!(read_tag_long(&data, 0), Ok((0x0102_0304_0506_0708, 8)));
    let neg: Vec<u8> = vec![0x80, 0x00, 0x00, 0x00, 0x80, 0x7f];
    assert_eq!(read_tag_byte(&neg, 0), Ok((-128, 1)));
    assert_eq!(read_tag_byte(&neg, 5), Ok((127, 1)));
    assert_eq!(read_tag_short(&neg, 0), Ok((-32768, 2)));
    assert_eq!(read_tag_int(&neg, 0), Ok((i32::MIN, 4)));
    assert_eq!(read_tag_short(&neg, 4), Ok((-32641, 2)));
}

#[test]
fn floats_keep_their_bits() {
    let one: Vec<u8> = 1.5f32.to_be_bytes().to_vec();
    let (bits, n) = read_tag_float(&one, 0).unwrap();
    assert_eq!(n, 4);
    assert_eq!(f32::from_bits(bits), 1.5);
    let d: Vec<u8> = (-2.25f64).to_be_bytes().to_vec();
    let (bits, n) = read_tag_double(&d, 0).unwrap();
    assert_eq!(n, 8);
    assert_eq!(f64::from_bits(bits), -2.25);
}

#[test]
fn short_reads_fault() {
    let data: Vec<u8> = vec![0x00, 0x01, 0x02];
    assert_eq!(read_tag_int(&data, 0), Err(DecodeError::OutOfBounds));
    assert_eq!(read_tag_short(&data, 2), Err(DecodeError::OutOfBounds));
    assert_eq!(read_tag_byte(&data, 3), Err(DecodeError::OutOfBounds));
    assert_eq!(read_tag_byte(&data, usize::MAX), Err(DecodeError::OutOfBounds));
    assert_eq!(read_tag_long(&data, 0), Err(DecodeError::OutOfBounds));
    assert_eq!(read_tag_double(&data, 0), Err(DecodeError::OutOfBounds));
    assert_eq!(read_tag_float(&data, 0), Err(DecodeError::OutOfBounds));
}

#[test]
fn strings_decode_utf8() {
    let data: Vec<u8> = vec![0x00, 0x05, b'h', 0xc3, 0xa9, b'l', b'o', 0xff];
    assert_eq!(read_tag_string(&data, 0), Ok(("h\u{e9}lo".to_string(), 7)));
    let empty: Vec<u8> = vec![0x00, 0x00];
    assert_eq!(read_tag_string(&empty, 0), Ok((String::new(), 2)));
}

#[test]
fn strings_fault_on_bad_utf8_or_short_payload() {
    let bad: Vec<u8> = vec![0x00, 0x02, 0xc3, 0x28];
    assert_eq!(read_tag_string(&bad, 0), Err(DecodeError::InvalidUtf8));
    let short: Vec<u8> = vec![0x00, 0x04, b'a', b'b'];
    assert_eq!(read_tag_string(&short, 0), Err(DecodeError::OutOfBounds));
    let no_len: Vec<u8> = vec![0x00];
    assert_eq!(read_tag_string(&no_len, 0), Err(DecodeError::OutOfBounds));
}

#[test]
fn arrays_decode_their_elements() {
    let bytes: Vec<u8> = vec![0, 0, 0, 3, 0x01, 0xff, 0x7f];
    assert_eq!(
        read_tag_byte_array(&bytes, 0),
        Ok((vec![Value::Byte(1), Value::Byte(-1), Value::Byte(127)], 7))
    );
    let ints: Vec<u8> = vec![0, 0, 0, 2, 0, 0, 0, 7, 0xff, 0xff, 0xff, 0xfe];
    assert_eq!(read_tag_int_array(&ints, 0), Ok((vec![Value::Int(7), Value::Int(-2)], 12)));
    let longs: Vec<u8> = vec![0, 0, 0, 1, 0, 0, 0, 0, 0, 0, 1, 0];
    assert_eq!(read_tag_long_array(&longs, 0), Ok((vec![Value::Long(256)], 12)));
    let none: Vec<u8> = vec![0, 0, 0, 0];
    assert_eq!(read_tag_long_array(&none, 0), Ok((vec![], 4)));
}

#[test]
fn arrays_fault_on_bad_counts() {
    let neg: Vec<u8> = vec![0xff, 0xff, 0xff, 0xff];
    assert_eq!(read_tag_int_array(&neg, 0), Err(DecodeError::NegativeCount(-1)));
    let long_count: Vec<u8> = vec![0, 0, 0, 2, 0, 0, 0, 1];
    assert_eq!(read_tag_int_array(&long_count, 0), Err(DecodeError::OutOfBounds));
    let huge: Vec<u8> = vec![0x7f, 0xff, 0xff, 0xff, 1];
    assert_eq!(read_tag_byte_array(&huge, 0), Err(DecodeError::OutOfBounds));
}

#[test]
fn list_size_is_five_plus_elements() {
    // kind Short, two elements
    let data: Vec<u8> = vec![0x02, 0, 0, 0, 2, 0x00, 0x05, 0xff, 0xfe];
    assert_eq!(read_tag_list(&data, 0, 4), Ok((vec![Value::Short(5), Value::Short(-2)], 9)));
}

#[test]
fn empty_list_takes_five_bytes_whatever_its_kind() {
    for kind in [0u8, 1, 9, 10, 0x0d, 0xff] {
        let data: Vec<u8> = vec![kind, 0, 0, 0, 0];
        assert_eq!(read_tag_list(&data, 0, 4), Ok((vec![], 5)));
    }
}

#[test]
fn list_faults() {
    let neg: Vec<u8> = vec![0x01, 0xff, 0xff, 0xff, 0xfe];
    assert_eq!(read_tag_list(&neg, 0, 4), Err(DecodeError::NegativeCount(-2)));
    let end_kind: Vec<u8> = vec![0x00, 0, 0, 0, 1, 0];
    assert_eq!(read_tag_list(&end_kind, 0, 4), Err(DecodeError::UnknownTag(0)));
    let short: Vec<u8> = vec![0x03, 0, 0, 0, 1, 0, 0];
    assert_eq!(read_tag_list(&short, 0, 4), Err(DecodeError::OutOfBounds));
    let too_many: Vec<u8> = vec![0x01, 0, 0, 0, 3, 1, 2];
    assert_eq!(read_tag_list(&too_many, 0, 4), Err(DecodeError::OutOfBounds));
}

#[test]
fn nested_lists_decode() {
    // list of lists of bytes: [[7], []]
    let data: Vec<u8> = vec![0x09, 0, 0, 0, 2, 0x01, 0, 0, 0, 1, 7, 0x01, 0, 0, 0, 0];
    assert_eq!(
        read_tag_list(&data, 0, 4),
        Ok((vec![Value::Sequence(vec![Value::Byte(7)]), Value::Sequence(vec![])], 16))
    );
}

#[test]
fn compound_size_is_fields_plus_end() {
    // Byte "a" = 1, String "s" = "hi", End
    let data: Vec<u8> = vec![
        0x01, 0, 1, b'a', 1, 0x08, 0, 1, b's', 0, 2, b'h', b'i', 0x00,
    ];
    assert_eq!(
        read_tag_compound(&data, 0, 4),
        Ok((vec![field("a", Value::Byte(1)), field("s", text("hi"))], 14))
    );
    let empty: Vec<u8> = vec![0x00];
    assert_eq!(read_tag_compound(&empty, 0, 4), Ok((vec![], 1)));
}

#[test]
fn compound_later_duplicate_wins_in_place() {
    let data: Vec<u8> = vec![
        0x01, 0, 1, b'k', 1, 0x01, 0, 1, b'z', 2, 0x02, 0, 1, b'k', 0, 9, 0x00,
    ];
    assert_eq!(
        read_tag_compound(&data, 0, 4),
        Ok((vec![field("k", Value::Short(9)), field("z", Value::Byte(2))], 17))
    );
}

#[test]
fn compound_without_end_faults() {
    let data: Vec<u8> = vec![0x01, 0, 1, b'a', 1];
    assert_eq!(read_tag_compound(&data, 0, 4), Err(DecodeError::OutOfBounds));
}

#[test]
fn depth_limit_faults() {
    // compound holding a compound holding nothing
    let data: Vec<u8> = vec![0x0a, 0, 1, b'c', 0x00, 0x00];
    assert_eq!(decode_tag(&data, 0, 10, 0), Err(DecodeError::DepthExceeded));
    assert_eq!(decode_tag(&data, 0, 10, 1), Err(DecodeError::DepthExceeded));
    assert_eq!(
        decode_tag(&data, 0, 10, 2),
        Ok((Value::Mapping(vec![field("c", Value::Mapping(vec![]))]), 6))
    );
    let list: Vec<u8> = vec![0x01, 0, 0, 0, 0];
    assert_eq!(decode_tag(&list, 0, 9, 0), Err(DecodeError::DepthExceeded));
}

#[test]
fn dispatch_rejects_unknown_kinds() {
    let data: Vec<u8> = vec![0; 8];
    assert_eq!(decode_tag(&data, 0, 13, 4), Err(DecodeError::UnknownTag(13)));
    assert_eq!(decode_tag(&data, 0, 0, 4), Err(DecodeError::UnknownTag(0)));
    assert_eq!(decode_tag(&data, 0, 3, 4), Ok((Value::Int(0), 4)));
}

#[test]
fn scenario_single_short_field() {
    let data: Vec<u8> = vec![0x0a, 0x00, 0x00, 0x02, 0x00, 0x01, b'x', 0x00, 0x2a, 0x00];
    assert_eq!(decode_nbt_data(&data), Ok(Value::Mapping(vec![field("x", Value::Short(42))])));
    assert_eq!(
        decode_document(&data, 8),
        Ok((Value::Mapping(vec![field("x", Value::Short(42))]), 10))
    );
}

#[test]
fn scenario_int_list_field() {
    let mut data: Vec<u8> = vec![0x0a, 0x00, 0x00, 0x09, 0x00, 0x05];
    data.extend_from_slice(b"items");
    data.extend_from_slice(&[0x03, 0, 0, 0, 2, 0, 0, 0, 1, 0, 0, 0, 2, 0x00]);
    assert_eq!(
        decode_nbt_data(&data),
        Ok(Value::Mapping(vec![field("items", Value::Sequence(vec![Value::Int(1), Value::Int(2)]))]))
    );
}

#[test]
fn scenario_empty_list_field() {
    let mut data: Vec<u8> = vec![0x0a, 0x00, 0x00, 0x09, 0x00, 0x05];
    data.extend_from_slice(b"items");
    data.extend_from_slice(&[0x01, 0, 0, 0, 0, 0x00]);
    assert_eq!(
        decode_nbt_data(&data),
        Ok(Value::Mapping(vec![field("items", Value::Sequence(vec![]))]))
    );
}

#[test]
fn scenario_nested_compound() {
    let data: Vec<u8> = vec![
        0x0a, 0x00, 0x00, // root
        0x0a, 0x00, 0x01, b'p', // nested compound "p"
        0x03, 0x00, 0x01, b'n', 0, 0, 0, 5, // Int "n" = 5
        0x00, // end of "p"
        0x01, 0x00, 0x01, b'q', 0x07, // Byte "q" = 7, after the nested compound
        0x00, // end of root
    ];
    assert_eq!(
        decode_document(&data, 8),
        Ok((
            Value::Mapping(vec![
                field("p", Value::Mapping(vec![field("n", Value::Int(5))])),
                field("q", Value::Byte(7)),
            ]),
            22
        ))
    );
}

#[test]
fn scenario_unknown_tag_kind_faults() {
    let at_field: Vec<u8> = vec![0x0a, 0x00, 0x00, 0x0d, 0x00, 0x01, b'x', 0x00, 0x00];
    assert_eq!(decode_nbt_data(&at_field), Err(DecodeError::UnknownTag(0x0d)));
    let at_root: Vec<u8> = vec![0x0d, 0x00, 0x00, 0x00];
    assert_eq!(decode_nbt_data(&at_root), Err(DecodeError::UnknownTag(0x0d)));
    let in_list: Vec<u8> = vec![0x0a, 0x00, 0x00, 0x09, 0x00, 0x01, b'l', 0x0d, 0, 0, 0, 1, 0, 0x00];
    assert_eq!(decode_nbt_data(&in_list), Err(DecodeError::UnknownTag(0x0d)));
}

#[test]
fn truncated_documents_fault() {
    let mut data: Vec<u8> = vec![0x0a, 0x00, 0x00, 0x09, 0x00, 0x05];
    data.extend_from_slice(b"items");
    data.extend_from_slice(&[0x03, 0, 0, 0, 2, 0, 0, 0, 1, 0, 0, 0, 2, 0x00]);
    assert!(decode_nbt_data(&data).is_ok());
    for k in 0..data.len() {
        let cut: Vec<u8> = data[..k].to_vec();
        assert!(decode_nbt_data(&cut).is_err(), "a cut at {} decoded", k);
    }
}

#[test]
fn document_with_named_root_and_trailing_bytes() {
    let data: Vec<u8> = vec![0x0a, 0x00, 0x02, b'r', b't', 0x01, 0x00, 0x01, b'b', 0x03, 0x00, 0xee];
    assert_eq!(
        decode_document(&data, 8),
        Ok((Value::Mapping(vec![field("b", Value::Byte(3))]), 11))
    );
    let empty: Vec<u8> = vec![];
    assert_eq!(decode_nbt_data(&empty), Err(DecodeError::OutOfBounds));
}

#[test]
fn scalars_written_big_endian_decode_back() {
    for v in [i16::MIN, -1, 0, 42, i16::MAX] {
        let data: Vec<u8> = v.to_be_bytes().to_vec();
        assert_eq!(decode_tag(&data, 0, 2, 0), Ok((Value::Short(v), 2)));
    }
    for v in [i32::MIN, -5, 0, 70000, i32::MAX] {
        let data: Vec<u8> = v.to_be_bytes().to_vec();
        assert_eq!(decode_tag(&data, 0, 3, 0), Ok((Value::Int(v), 4)));
    }
    for v in [i64::MIN, -3, 0, 1 << 40, i64::MAX] {
        let data: Vec<u8> = v.to_be_bytes().to_vec();
        assert_eq!(decode_tag(&data, 0, 4, 0), Ok((Value::Long(v), 8)));
    }
    let s = "gr\u{fc}\u{df}e \u{1f600}";
    let mut data: Vec<u8> = (s.len() as u16).to_be_bytes().to_vec();
    data.extend_from_slice(s.as_bytes());
    assert_eq!(decode_tag(&data, 0, 8, 0), Ok((text(s), 2 + s.len())));
}
