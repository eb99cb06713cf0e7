use binarypack::binarypack::{unpack, Unpacked, UnpackedMap, Unpacker};
use binarypack::error::Error;

fn map_from(pairs: Vec<(Unpacked, Unpacked)>) -> UnpackedMap {
    let mut map = UnpackedMap::new();
    for (k, v) in pairs {
        map.insert(k, v);
    }
    map
}


#[test]
fn round_trip_nested_value() {
    let value = Unpacked::Mapping(map_from(vec![
        (
            Unpacked::String("list".to_string()),
            Unpacked::Array(vec![
                Unpacked::Int8(-5),
                Unpacked::Int16(-300),
                Unpacked::Uint32(70000),
                Unpacked::Int64(-1),
                Unpacked::Bool(true),
                Unpacked::Null,
            ]),
        ),
        (Unpacked::Raw(vec![0, 1, 2]), Unpacked::Double(2.5f64.to_bits())),
    ]));
    let bytes = value.pack();
    assert_eq!(unpack(&bytes).unwrap(), value);
}

#[test]
fn canonical_minimal_tag() {
    assert_eq!(Unpacked::Uint8(5).pack(), vec![0x05]);
    assert_eq!(Unpacked::Uint8(200).pack(), vec![0xcc, 0xc8]);
}

#[test]
fn width_boundary() {
    assert_eq!(Unpacked::Uint16(258).pack(), vec![0xcd, 0x01, 0x02]);
    assert_eq!(Unpacked::Uint16(5).pack(), vec![0xcd, 0x00, 0x05]);
    assert_eq!(
        unpack(&[0xcf, 1, 2, 3, 4, 5, 6, 7, 8]).unwrap(),
        Unpacked::Uint64(72623859790382856)
    );
}

#[test]
fn negative_fixint_boundary() {
    assert_eq!(Unpacked::Int8(-31).pack(), vec![0xe1]);
    assert_eq!(unpack(&[0xe1]).unwrap(), Unpacked::Int8(-31));
    assert_eq!(Unpacked::Int8(-32).pack(), vec![0xe0]);
    assert_eq!(Unpacked::Int8(-1).pack(), vec![0xff]);
    assert_eq!(Unpacked::Int8(-33).pack(), vec![0xd0, 0xdf]);
    assert_eq!(Unpacked::Int8(5).pack(), vec![0xd0, 0x05]);
}

#[test]
fn truncated_input() {
    assert_eq!(unpack(&[]), Err(Error::EndOfData));
    assert_eq!(unpack(&[0xa3, 1, 2]), Err(Error::EndOfData));
    assert_eq!(unpack(&[0xda, 0x00, 0x05, 1, 2]), Err(Error::EndOfData));
    assert_eq!(unpack(&[0xd8, 0x00]), Err(Error::EndOfData));
    assert_eq!(unpack(&[0x93, 1, 2]), Err(Error::EndOfData));
    assert_eq!(unpack(&[0x82, 1, 2, 3]), Err(Error::EndOfData));
    assert_eq!(unpack(&[0xcd, 1]), Err(Error::EndOfData));
}

#[test]
fn invalid_text_is_a_string_parse_error() {
    assert_eq!(unpack(&[0xa2 ^ 0x10, 0xff, 0xfe]), Err(Error::StringParseError));
    assert_eq!(
        Unpacker::new(&[0xc3, 0x28]).unpack_string(2),
        Err(Error::StringParseError)
    );
}

#[test]
fn float_bit_exactness() {
    let bytes = [0xca, 0x3e, 0x20, 0x00, 0x00];
    let value = unpack(&bytes).unwrap();
    assert_eq!(value, Unpacked::Float(0.15625f32.to_bits()));
    assert_eq!(value.pack(), bytes.to_vec());
}

#[test]
fn decode_encode_decode_is_a_fixed_point() {
    let bytes = [0x92, 0xa1, 0x41, 0x81, 0x01, 0xcb, 0, 0, 0, 0, 0, 0, 0xf0, 0x3f];
    let first = unpack(&bytes).unwrap();
    let second = unpack(&first.pack()).unwrap();
    assert_eq!(second, first);
}

#[test]
fn trailing_bytes_are_ignored() {
    assert_eq!(unpack(&[0x07, 0xff, 0xff]).unwrap(), Unpacked::Uint8(7));
}

#[test]
fn unknown_tag_decodes_to_undefined_and_encodes_as_null() {
    let value = unpack(&[0xc1]).unwrap();
    assert_eq!(value, Unpacked::Undefined);
    assert_eq!(value.pack(), vec![0xc0]);
    assert_eq!(unpack(&[0xd4, 9]).unwrap(), Unpacked::Undefined);
}

#[test]
fn fixed_size_and_16_bit_length_boundary() {
    let fifteen = Unpacked::Raw(vec![7; 15]);
    assert_eq!(fifteen.pack()[0], 0xaf);
    let sixteen = Unpacked::Raw(vec![7; 16]);
    let bytes = sixteen.pack();
    assert_eq!(&bytes[0..3], &[0xda, 0x00, 0x10]);
    assert_eq!(unpack(&bytes).unwrap(), sixteen);

    let items: Vec<Unpacked> = (0..16).map(|i| Unpacked::Uint8(i as u8)).collect();
    let array = Unpacked::Array(items);
    let bytes = array.pack();
    assert_eq!(&bytes[0..3], &[0xdc, 0x00, 0x10]);
    assert_eq!(unpack(&bytes).unwrap(), array);
}

#[test]
fn thirty_two_bit_length() {
    let big = Unpacked::Raw(vec![1; 0x10000]);
    let bytes = big.pack();
    assert_eq!(&bytes[0..5], &[0xdb, 0x00, 0x01, 0x00, 0x00]);
    assert_eq!(bytes.len(), 5 + 0x10000);
    assert_eq!(unpack(&bytes).unwrap(), big);
}

#[test]
fn text_uses_utf8_byte_length() {
    let text = Unpacked::String("é".to_string());
    assert_eq!(text.pack(), vec![0xb2, 0xc3, 0xa9]);
    assert_eq!(unpack(&[0xb2, 0xc3, 0xa9]).unwrap(), text);
}

#[test]
fn duplicate_keys_keep_first_key_and_last_value() {
    let bytes = [0x82, 0x01, 0x02, 0x01, 0x03];
    let value = unpack(&bytes).unwrap();
    match &value {
        Unpacked::Mapping(m) => {
            assert_eq!(m.len(), 1);
            assert_eq!(m.entry(0), &(Unpacked::Uint8(1), Unpacked::Uint8(3)));
        }
        _ => panic!("expected a map"),
    }
}

#[test]
fn map_equality_ignores_order() {
    let a = Unpacked::Mapping(map_from(vec![
        (Unpacked::Uint8(1), Unpacked::Null),
        (Unpacked::Uint8(2), Unpacked::Bool(false)),
    ]));
    let b = Unpacked::Mapping(map_from(vec![
        (Unpacked::Uint8(2), Unpacked::Bool(false)),
        (Unpacked::Uint8(1), Unpacked::Null),
    ]));
    let c = Unpacked::Mapping(map_from(vec![
        (Unpacked::Uint8(2), Unpacked::Bool(true)),
        (Unpacked::Uint8(1), Unpacked::Null),
    ]));
    assert_eq!(a, b);
    assert_ne!(a, c);
    assert_ne!(Unpacked::Uint8(1), Unpacked::Uint16(1));
    assert_ne!(
        Unpacked::Array(vec![Unpacked::Null]),
        Unpacked::Array(vec![Unpacked::Null, Unpacked::Null])
    );
}

#[test]
fn signed_readers_use_twos_complement() {
    let a = [0x80, 0x00, 0x00, 0x00];
    assert_eq!(Unpacker::new(&a).unpack_int16().unwrap(), -32768);
    assert_eq!(Unpacker::new(&a).unpack_int32().unwrap(), i32::MIN);
    let b = [0xff, 0xff, 0xff, 0xff, 0xff, 0xff, 0xff, 0xfe];
    assert_eq!(Unpacker::new(&b).unpack_int64().unwrap(), -2);
    assert_eq!(Unpacker::new(&b[..1]).unpack_uint16(), Err(Error::EndOfData));
}

#[test]
fn cursor_advances_over_consecutive_values() {
    let bytes = [0x01, 0xcd, 0x01, 0x02, 0xa2, 9, 8];
    let mut cursor = Unpacker::new(&bytes);
    assert_eq!(cursor.unpack().unwrap(), Unpacked::Uint8(1));
    assert_eq!(cursor.unpack().unwrap(), Unpacked::Uint16(258));
    assert_eq!(cursor.unpack().unwrap(), Unpacked::Raw(vec![9, 8]));
    assert_eq!(cursor.unpack(), Err(Error::EndOfData));
}

#[test]
fn clone_is_structurally_equal() {
    let value = Unpacked::Array(vec![
        Unpacked::String("x".to_string()),
        Unpacked::Mapping(map_from(vec![(Unpacked::Raw(vec![1]), Unpacked::Int32(-7))])),
    ]);
    let copy = value.clone();
    assert_eq!(copy, value);
    assert_eq!(copy.pack(), value.pack());
}

#[test]
fn map_insert_keeps_keys_unique() {
    let mut map = UnpackedMap::new();
    map.insert(Unpacked::Uint8(1), Unpacked::Uint8(1));
    map.insert(Unpacked::Uint8(1), Unpacked::Uint8(2));
    map.insert(Unpacked::Uint16(1), Unpacked::Null);
    assert_eq!(map.len(), 2);
    assert_eq!(map.entry(0), &(Unpacked::Uint8(1), Unpacked::Uint8(2)));
    let value = Unpacked::Mapping(map);
    assert_eq!(value, value);
    assert_eq!(unpack(&value.pack()).unwrap(), value);
}

#[test]
fn every_strict_prefix_of_an_encoding_is_end_of_data() {
    let value = Unpacked::Array(vec![
        Unpacked::String("héllo".to_string()),
        Unpacked::Mapping(map_from(vec![(Unpacked::Uint8(1), Unpacked::Uint32(9))])),
        Unpacked::Raw(vec![5; 20]),
    ]);
    let bytes = value.pack();
    for k in 0..bytes.len() {
        assert_eq!(unpack(&bytes[..k]), Err(Error::EndOfData));
    }
    assert_eq!(unpack(&bytes).unwrap(), value);
}

#[test]
fn trailing_bytes_leave_a_decode_unchanged() {
    let value = Unpacked::Array(vec![Unpacked::Int16(-2), Unpacked::Null]);
    let mut bytes = value.pack();
    bytes.extend_from_slice(&[0xc1, 0xff, 0x00]);
    let mut cursor = Unpacker::new(&bytes);
    assert_eq!(cursor.unpack().unwrap(), value);
    assert_eq!(cursor.unpack_raw(3).unwrap(), vec![0xc1, 0xff, 0x00]);
}
