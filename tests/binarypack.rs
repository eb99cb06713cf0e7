use binarypack::binarypack::{unpack, Unpacked, UnpackedMap, Unpacker};
use binarypack::error::Error;

fn map_from(pairs: Vec<(Unpacked, Unpacked)>) -> UnpackedMap {
    let mut map = UnpackedMap::new();
    for (k, v) in pairs {
        map.insert(k, v);
    }
    map
}


fn decode(bytes: &[u8]) -> Unpacked {
    Unpacker::new(bytes).unpack().unwrap()
}

fn is_undefined(value: &Unpacked) -> bool {
    matches!(value, Unpacked::Undefined)
}

#[test]
fn test_unpack_uint8() {
    let a = [1, 2, 3, 4, 5, 6, 7, 8];
    assert_eq!(Unpacker::new(&a).unpack_uint8().unwrap(), 1);
    assert_eq!(Unpacker::new(&a).unpack().expect("!"), Unpacked::Uint8(1));
}

#[test]
fn test_unpack_int8() {
    let a = [1, 2, 3, 4, 5, 6, 7, 8];
    assert_eq!(Unpacker::new(&a).unpack_int8().unwrap(), 1);
    let a = [255];
    assert_eq!(Unpacker::new(&a).unpack_int8().unwrap(), -1);
}

#[test]
fn test_unpack_uint16() {
    let a = [1, 2, 3, 4, 5, 6, 7, 8];
    assert_eq!(Unpacker::new(&a).unpack_uint16().unwrap(), 258);
}

#[test]
fn test_unpack_uint32() {
    let a = [1, 2, 3, 4, 5, 6, 7, 8];
    assert_eq!(Unpacker::new(&a).unpack_uint32().unwrap(), 16909060);
}

#[test]
fn test_unpack_uint64() {
    let a = [1, 2, 3, 4, 5, 6, 7, 8];
    assert_eq!(
        Unpacker::new(&a).unpack_uint64().unwrap(),
        72623859790382856
    );
}

#[test]
fn test_unpack_raw() {
    let a = [1, 2, 3, 4, 5, 6, 7, 8];
    assert_eq!(Unpacker::new(&a).unpack_raw(3).unwrap(), vec!(1, 2, 3));
}

#[test]
fn test_unpack_string() {
    let a = [
        0x68, 0x65, 0x6c, 0x6c, 0x6f, 0x20, 0x77, 0x6f, 0x72, 0x6c, 0x64, 0x21,
    ];
    assert_eq!(
        Unpacker::new(&a).unpack_string(a.len()).unwrap(),
        "hello world!"
    );
}

#[test]
fn test_unpack_array() {
    let a = [1, 2, 3, 4, 5];
    assert_eq!(
        Unpacker::new(&a).unpack_array(a.len()).unwrap(),
        vec!(
            Unpacked::Uint8(1),
            Unpacked::Uint8(2),
            Unpacked::Uint8(3),
            Unpacked::Uint8(4),
            Unpacked::Uint8(5)
        )
    );
}

#[test]
fn test_unpack_map() {
    let a = [1, 2, 3, 4];
    let expected = Unpacked::Mapping(map_from(vec![
        (Unpacked::Uint8(1), Unpacked::Uint8(2)),
        (Unpacked::Uint8(3), Unpacked::Uint8(4)),
    ]));
    let got = Unpacked::Mapping(Unpacker::new(&a).unpack_map(a.len() / 2).unwrap());
    assert_eq!(got, expected);
}

#[test]
fn test_unpack_float() {
    // 0b00111110001000000000000000000000 = 0.15625
    let a = [0b00111110, 0b00100000, 0b00000000, 0b00000000];
    assert_eq!(f32::from_bits(Unpacker::new(&a).unpack_float().unwrap()), 0.15625);
}

#[test]
fn test_unpack_double() {
    let a = [
        0b00111111, 0b11010101, 0b01010101, 0b01010101, 0b01010101, 0b01010101, 0b01010101,
        0b01010101,
    ];
    assert_eq!(
        f64::from_bits(Unpacker::new(&a).unpack_double().unwrap()),
        0.3333333333333333
    );
}

#[test]
fn test_unpack() {
    let packed = [1];
    assert_eq!(decode(&packed), Unpacked::Uint8(1));

    let packed = [1 ^ 0xe0];
    assert_eq!(decode(&packed), Unpacked::Int8(-31));

    let packed = [2 ^ 0xa0, 1, 2];
    assert_eq!(decode(&packed), Unpacked::Raw(vec!(1, 2)));

    let packed = [2 ^ 0xb0, 65, 66];
    assert_eq!(decode(&packed), Unpacked::String("AB".to_string()));

    let packed = [2 ^ 0x90, 2 ^ 0xb0, 65, 66, 1];
    let v = vec![Unpacked::String("AB".to_string()), Unpacked::Uint8(1)];
    assert_eq!(decode(&packed), Unpacked::Array(v));

    let packed = [2 ^ 0x80, 1 ^ 0xb0, 65, 1, 1 ^ 0xb0, 66, 2];
    let m = vec![
        (Unpacked::String("A".to_string()), Unpacked::Uint8(1)),
        (Unpacked::String("B".to_string()), Unpacked::Uint8(2)),
    ];
    assert_eq!(decode(&packed), Unpacked::Mapping(map_from(m)));

    let packed = [0xc0];
    assert_eq!(decode(&packed), Unpacked::Null);

    let packed = [0xc2];
    assert_eq!(decode(&packed), Unpacked::Bool(false));

    let packed = [0xc3];
    assert_eq!(decode(&packed), Unpacked::Bool(true));

    let packed = [0xca, 0b00111110, 0b00100000, 0b00000000, 0b00000000];
    assert_eq!(decode(&packed), Unpacked::Float(0.15625f32.to_bits()));

    let packed = [
        0xcb, 0b00111111, 0b11010101, 0b01010101, 0b01010101, 0b01010101, 0b01010101,
        0b01010101, 0b01010101,
    ];
    assert_eq!(decode(&packed), Unpacked::Double(0.3333333333333333f64.to_bits()));

    let packed = [0xcc, 255];
    assert_eq!(decode(&packed), Unpacked::Uint8(255));

    let packed = [0xcd, 255, 255];
    assert_eq!(decode(&packed), Unpacked::Uint16(u16::MAX));

    let packed = [0xce, 255, 255, 255, 255];
    assert_eq!(decode(&packed), Unpacked::Uint32(u32::MAX));

    let packed = [0xcf, 255, 255, 255, 255, 255, 255, 255, 255];
    assert_eq!(decode(&packed), Unpacked::Uint64(u64::MAX));

    let packed = [0xd0, 255];
    assert_eq!(decode(&packed), Unpacked::Int8(-1));

    let packed = [0xd1, 255, 255];
    assert_eq!(decode(&packed), Unpacked::Int16(-1));

    let packed = [0xd2, 255, 255, 255, 255];
    assert_eq!(decode(&packed), Unpacked::Int32(-1));

    let packed = [0xd3, 255, 255, 255, 255, 255, 255, 255, 255];
    assert_eq!(decode(&packed), Unpacked::Int64(-1));

    let packed = [0xd8, 0, 1, 65];
    assert_eq!(decode(&packed), Unpacked::String("A".to_string()));

    let packed = [0xc1];
    assert!(is_undefined(&decode(&packed)));
}

#[test]
fn pack_uint8() {
    assert_eq!(Unpacked::Uint8(0x79).pack(), vec!(0x79));
    assert_eq!(Unpacked::Uint8(0x80).pack(), vec!(0xcc, 0x80));

    let expected = Unpacked::Uint8(100u8);
    assert_eq!(decode(&expected.pack()), expected);
}

#[test]
fn pack_uint16() {
    assert_eq!(Unpacked::Uint16(258).pack(), vec!(0xcd, 0x1, 0x2));

    let expected = Unpacked::Uint16(258);
    assert_eq!(decode(&expected.pack()), expected);
}

#[test]
fn pack_float() {
    assert_eq!(
        Unpacked::Float(0.15625f32.to_bits()).pack(),
        vec!(0xca, 0b00111110, 0b00100000, 0b00000000, 0b00000000)
    );

    let expected = Unpacked::Float(0.15625f32.to_bits());
    assert_eq!(decode(&expected.pack()), expected);
}

#[test]
fn pack_double() {
    assert_eq!(
        Unpacked::Double(0.3333333333333333f64.to_bits()).pack(),
        vec!(
            0xcb, 0b00111111, 0b11010101, 0b01010101, 0b01010101, 0b01010101, 0b01010101,
            0b01010101, 0b01010101
        )
    );

    let expected = Unpacked::Double(0.3333333333333333f64.to_bits());
    assert_eq!(decode(&expected.pack()), expected);
}

#[test]
fn pack_bool() {
    let expected = Unpacked::Bool(true);
    assert_eq!(decode(&expected.pack()), expected);

    let expected = Unpacked::Bool(false);
    assert_eq!(decode(&expected.pack()), expected);
}

#[test]
fn pack_null() {
    let expected = Unpacked::Null;
    assert_eq!(decode(&expected.pack()), expected);
}

#[test]
fn binarypack_unpack() {
    let a = [1, 2, 3];
    match unpack(&a).unwrap() {
        Unpacked::Uint8(s) => {
            println!("u8: {}", s);
        }
        _ => {}
    }
}

#[test]
fn unpack_reports_end_of_data() {
    assert_eq!(unpack(&[]), Err(Error::EndOfData));
}
