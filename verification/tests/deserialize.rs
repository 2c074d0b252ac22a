use binn_rs::{Allocation, IntMap, List, Object, SubType, Value};

#[test]
fn deserialize_list_primitives() {
    let bytes: Vec<u8> = vec![
        0xE0, 0x6A, 0x13, 0x00, 0x01, 0x02, 0x20, 0x3E, 0x21, 0x3D, 0x40, 0x18, 0x76, 0x41,
        0x18, 0x11, 0x60, 0x03, 0xBB, 0x99, 0xD6, 0x61, 0x03, 0xAC, 0x30, 0x21, 0x62, 0x3F,
        0x20, 0x4E, 0xA5, 0x80, 0x00, 0x16, 0x3F, 0xD3, 0x4D, 0xBE, 0xAF, 0xD6, 0x81, 0x00,
        0x15, 0xE3, 0xF5, 0x0E, 0x8E, 0x31, 0x21, 0x82, 0x3F, 0xE3, 0xB7, 0x17, 0x58, 0xE2,
        0x19, 0x65, 0xA0, 0x04, 0x54, 0x65, 0x78, 0x74, 0x00, 0xA1, 0x08, 0x44, 0x61, 0x74,
        0x65, 0x54, 0x69, 0x6D, 0x65, 0x00, 0xA2, 0x04, 0x44, 0x61, 0x74, 0x65, 0x00, 0xA3,
        0x04, 0x54, 0x69, 0x6D, 0x65, 0x00, 0xA4, 0x07, 0x44, 0x65, 0x63, 0x69, 0x6D, 0x61,
        0x6C, 0x00, 0xC0, 0x04, 0x62, 0x61, 0x62, 0x61,
    ];
    let value = Value::deserialize(bytes.as_slice()).unwrap();
    let list: List = value.try_into().unwrap();

    let expected = vec![
        Value::Null,
        Value::True,
        Value::False,
        Value::UInt8(62),
        Value::Int8(61),
        Value::UInt16(6262),
        Value::Int16(6161),
        Value::UInt32(62626262),
        Value::Int32(61616161),
        Value::Float(0.6262f32.to_bits()),
        Value::UInt64(6262626262626262),
        Value::Int64(6161616161616161),
        Value::Double(0.6161f64.to_bits()),
        Value::Text("Text"),
        Value::DateTime("DateTime"),
        Value::Date("Date"),
        Value::Time("Time"),
        Value::DecimalStr("Decimal"),
        Value::Blob(&[0x62, 0x61, 0x62, 0x61]),
    ];

    assert_eq!(expected.len(), list.count());

    let actual = list.iter();
    assert_eq!(actual.len(), expected.len());
    for (actual, expected) in actual.iter().zip(expected.iter()) {
        assert_eq!(actual, expected);
    }
}

#[test]
fn deserialize_list_user_types() {
    let bytes: Vec<u8> = vec![
        0xE0, 0x4C, 0x0E, 0x05, 0x10, 0x14, 0x26, 0x3E, 0x30, 0x28, 0x3D, 0x47, 0x18, 0x76,
        0x50, 0x50, 0x18, 0x11, 0x68, 0x03, 0xBB, 0x99, 0xD6, 0x70, 0xA0, 0x03, 0xAC, 0x30,
        0x21, 0x89, 0x00, 0x16, 0x3F, 0xD3, 0x4D, 0xBE, 0xAF, 0xD6, 0x91, 0x40, 0x00, 0x15,
        0xE3, 0xF5, 0x0E, 0x8E, 0x31, 0x21, 0xAA, 0x04, 0x54, 0x65, 0x78, 0x74, 0x00, 0xB2,
        0x85, 0x04, 0x44, 0x61, 0x74, 0x65, 0x00, 0xCF, 0x04, 0x62, 0x61, 0x62, 0x61, 0xDF,
        0xFF, 0x04, 0x61, 0x62, 0x61, 0x62,
    ];
    let value = Value::deserialize(bytes.as_slice()).unwrap();
    let list: List = value.try_into().unwrap();

    let expected = vec![
        Value::Empty(SubType::new(5).unwrap()),
        Value::Empty(SubType::new(20).unwrap()),
        Value::Byte(SubType::new(6).unwrap(), 62),
        Value::Byte(SubType::new(40).unwrap(), 61),
        Value::Word(SubType::new(7).unwrap(), 6262),
        Value::Word(SubType::new(80).unwrap(), 6161),
        Value::DWord(SubType::new(8).unwrap(), 62626262),
        Value::DWord(SubType::new(160).unwrap(), 61616161),
        Value::QWord(SubType::new(9).unwrap(), 6262626262626262),
        Value::QWord(SubType::new(320).unwrap(), 6161616161616161),
        Value::UserText(SubType::new(10).unwrap(), "Text"),
        Value::UserText(SubType::new(645).unwrap(), "Date"),
        Value::UserBlob(SubType::new(15).unwrap(), &[0x62, 0x61, 0x62, 0x61]),
        Value::UserBlob(SubType::new(4095).unwrap(), &[0x61, 0x62, 0x61, 0x62]),
    ];

    assert_eq!(expected.len(), list.count());

    let actual = list.iter();
    assert_eq!(actual.len(), expected.len());
    for (actual, expected) in actual.iter().zip(expected.iter()) {
        assert_eq!(actual, expected);
    }
}

#[test]
fn deserialize_list_containers() {
    let bytes: Vec<u8> = vec![
        0xE0, 0x38, 0x03, 0xE0, 0x08, 0x03, 0x00, 0x20, 0x3E, 0x21, 0x3D, 0xE1, 0x14, 0x03,
        0xF0, 0x9F, 0x8F, 0xB3, 0x00, 0x0F, 0x60, 0x70, 0x4D, 0x20, 0x3E, 0x00, 0x00, 0x00,
        0x2A, 0x21, 0x3D, 0xE2, 0x19, 0x03, 0x06, 0x76, 0x5F, 0x6E, 0x75, 0x6C, 0x6C, 0x00,
        0x04, 0x6E, 0x5F, 0x75, 0x38, 0x20, 0x3E, 0x04, 0x6E, 0x5F, 0x69, 0x38, 0x21, 0x3D,
    ];
    let value = Value::deserialize(bytes.as_slice()).unwrap();
    let list: List = value.try_into().unwrap();

    assert_eq!(list.count(), 3);

    let mut items = list.iter().into_iter();
    let child_expected = vec![
        (-257978445, "v_null", Value::Null),
        (257978445, "n_u8", Value::UInt8(62)),
        (42, "n_i8", Value::Int8(61)),
    ];

    let child = items.next().unwrap();
    let child: List = child.try_into().unwrap();
    assert_eq!(child.count(), child_expected.len());
    let actual = child.iter();
    assert_eq!(actual.len(), child_expected.len());
    for (actual, (_, _, expected)) in actual.iter().zip(child_expected.iter()) {
        assert_eq!(actual, expected);
    }

    let child = items.next().unwrap();
    let child: IntMap = child.try_into().unwrap();
    assert_eq!(child.count(), child_expected.len());
    let actual = child.iter();
    assert_eq!(actual.len(), child_expected.len());
    for ((actual_key, actual_val), (expected_key, _, expected_val)) in
        actual.iter().zip(child_expected.iter())
    {
        assert_eq!(actual_key, expected_key);
        assert_eq!(actual_val, expected_val);
    }

    let child = items.next().unwrap();
    let child: Object = child.try_into().unwrap();
    assert_eq!(child.count(), child_expected.len());
    let actual = child.iter();
    assert_eq!(actual.len(), child_expected.len());
    for ((actual_key, actual_val), (_, expected_key, expected_val)) in
        actual.iter().zip(child_expected.iter())
    {
        assert_eq!(actual_key, expected_key);
        assert_eq!(actual_val, expected_val);
    }

    assert!(items.next().is_none());
}

#[test]
fn deserialize_map_primitives() {
    let bytes: Vec<u8> = vec![
        0xE1, 0x80, 0x00, 0x00, 0xB9, 0x13, 0x00, 0x00, 0x00, 0x01, 0x00, 0x00, 0x00, 0x00,
        0x0A, 0x01, 0x00, 0x00, 0x00, 0x14, 0x02, 0x00, 0x00, 0x00, 0x1E, 0x20, 0x3E, 0x00,
        0x00, 0x00, 0x28, 0x21, 0x3D, 0x00, 0x00, 0x00, 0x32, 0x40, 0x18, 0x76, 0x00, 0x00,
        0x00, 0x64, 0x41, 0x18, 0x11, 0x00, 0x00, 0x00, 0x96, 0x60, 0x03, 0xBB, 0x99, 0xD6,
        0x00, 0x00, 0x00, 0xC8, 0x61, 0x03, 0xAC, 0x30, 0x21, 0x00, 0x00, 0x01, 0xF4, 0x62,
        0x3F, 0x20, 0x4E, 0xA5, 0x00, 0x00, 0x03, 0xE8, 0x80, 0x00, 0x16, 0x3F, 0xD3, 0x4D,
        0xBE, 0xAF, 0xD6, 0x00, 0x00, 0x27, 0x10, 0x81, 0x00, 0x15, 0xE3, 0xF5, 0x0E, 0x8E,
        0x31, 0x21, 0x00, 0x01, 0x86, 0xA0, 0x82, 0x3F, 0xE3, 0xB7, 0x17, 0x58, 0xE2, 0x19,
        0x65, 0x00, 0x03, 0x0D, 0x40, 0xA0, 0x04, 0x54, 0x65, 0x78, 0x74, 0x00, 0x00, 0x4C,
        0x4B, 0x40, 0xA1, 0x08, 0x44, 0x61, 0x74, 0x65, 0x54, 0x69, 0x6D, 0x65, 0x00, 0x00,
        0x98, 0x96, 0x80, 0xA2, 0x04, 0x44, 0x61, 0x74, 0x65, 0x00, 0x02, 0xFA, 0xF0, 0x80,
        0xA3, 0x04, 0x54, 0x69, 0x6D, 0x65, 0x00, 0x3B, 0x9A, 0xCA, 0x00, 0xA4, 0x07, 0x44,
        0x65, 0x63, 0x69, 0x6D, 0x61, 0x6C, 0x00, 0x77, 0x35, 0x94, 0x00, 0xC0, 0x04, 0x62,
        0x61, 0x62, 0x61,
    ];
    let value = Value::deserialize(bytes.as_slice()).unwrap();
    let map: IntMap = value.try_into().unwrap();

    let expected = vec![
        (1, Value::Null),
        (10, Value::True),
        (20, Value::False),
        (30, Value::UInt8(62)),
        (40, Value::Int8(61)),
        (50, Value::UInt16(6262)),
        (100, Value::Int16(6161)),
        (150, Value::UInt32(62626262)),
        (200, Value::Int32(61616161)),
        (500, Value::Float(0.6262f32.to_bits())),
        (1000, Value::UInt64(6262626262626262)),
        (10000, Value::Int64(6161616161616161)),
        (100000, Value::Double(0.6161f64.to_bits())),
        (200000, Value::Text("Text")),
        (5000000, Value::DateTime("DateTime")),
        (10000000, Value::Date("Date")),
        (50000000, Value::Time("Time")),
        (1000000000, Value::DecimalStr("Decimal")),
        (2000000000, Value::Blob(&[0x62, 0x61, 0x62, 0x61])),
    ];

    assert_eq!(expected.len(), map.count());

    let actual = map.iter();
    assert_eq!(actual.len(), expected.len());
    for ((actual_key, actual_val), (expected_key, expected_val)) in
        actual.iter().zip(expected.iter())
    {
        assert_eq!(actual_key, expected_key);
        assert_eq!(actual_val, expected_val);
    }
}

#[test]
fn deserialize_map_user_types() {
    let bytes: Vec<u8> = vec![
        0xE1, 0x80, 0x00, 0x00, 0x87, 0x0E, 0x00, 0x00, 0x00, 0x0A, 0x05, 0xFF, 0xFF, 0xFF,
        0xF6, 0x10, 0x14, 0x00, 0x00, 0x00, 0x14, 0x26, 0x3E, 0xFF, 0xFF, 0xFF, 0xEC, 0x30,
        0x28, 0x3D, 0x00, 0x00, 0x01, 0x1F, 0x47, 0x18, 0x76, 0xFF, 0xFF, 0xFE, 0xE1, 0x50,
        0x50, 0x18, 0x11, 0x00, 0x00, 0x04, 0xD2, 0x68, 0x03, 0xBB, 0x99, 0xD6, 0xFF, 0xFF,
        0xFB, 0x2E, 0x70, 0xA0, 0x03, 0xAC, 0x30, 0x21, 0x00, 0x00, 0x16, 0x16, 0x89, 0x00,
        0x16, 0x3F, 0xD3, 0x4D, 0xBE, 0xAF, 0xD6, 0xFF, 0xFF, 0xE9, 0xEA, 0x91, 0x40, 0x00,
        0x15, 0xE3, 0xF5, 0x0E, 0x8E, 0x31, 0x21, 0x00, 0x2A, 0x0F, 0x47, 0xAA, 0x04, 0x54,
        0x65, 0x78, 0x74, 0x00, 0xFF, 0xD5, 0xF0, 0xB9, 0xB2, 0x85, 0x04, 0x44, 0x61, 0x74,
        0x65, 0x00, 0x7F, 0xFF, 0xFF, 0xFF, 0xCF, 0x04, 0x62, 0x61, 0x62, 0x61, 0x80, 0x00,
        0x00, 0x00, 0xDF, 0xFF, 0x04, 0x61, 0x62, 0x61, 0x62,
    ];
    let value = Value::deserialize(bytes.as_slice()).unwrap();
    let map: IntMap = value.try_into().unwrap();

    let expected = vec![
        (10, Value::Empty(SubType::new(5).unwrap())),
        (-10, Value::Empty(SubType::new(20).unwrap())),
        (20, Value::Byte(SubType::new(6).unwrap(), 62)),
        (-20, Value::Byte(SubType::new(40).unwrap(), 61)),
        (287, Value::Word(SubType::new(7).unwrap(), 6262)),
        (-287, Value::Word(SubType::new(80).unwrap(), 6161)),
        (1234, Value::DWord(SubType::new(8).unwrap(), 62626262)),
        (-1234, Value::DWord(SubType::new(160).unwrap(), 61616161)),
        (5654, Value::QWord(SubType::new(9).unwrap(), 6262626262626262)),
        (-5654, Value::QWord(SubType::new(320).unwrap(), 6161616161616161)),
        (2756423, Value::UserText(SubType::new(10).unwrap(), "Text")),
        (-2756423, Value::UserText(SubType::new(645).unwrap(), "Date")),
        (2147483647, Value::UserBlob(SubType::new(15).unwrap(), &[0x62, 0x61, 0x62, 0x61])),
        (-2147483648, Value::UserBlob(SubType::new(4095).unwrap(), &[0x61, 0x62, 0x61, 0x62])),
    ];

    assert_eq!(expected.len(), map.count());

    let actual = map.iter();
    assert_eq!(actual.len(), expected.len());
    for ((actual_key, actual_val), (expected_key, expected_val)) in
        actual.iter().zip(expected.iter())
    {
        assert_eq!(actual_key, expected_key);
        assert_eq!(actual_val, expected_val);
    }
}

#[test]
fn deserialize_map_containers() {
    let bytes: Vec<u8> = vec![
        0xE1, 0x44, 0x03, 0x00, 0x00, 0x00, 0x0A, 0xE0, 0x08, 0x03, 0x00, 0x20, 0x3E, 0x21,
        0x3D, 0x00, 0x00, 0x00, 0x14, 0xE1, 0x14, 0x03, 0xF0, 0x9F, 0x8F, 0xB3, 0x00, 0x0F,
        0x60, 0x70, 0x4D, 0x20, 0x3E, 0x00, 0x00, 0x00, 0x2A, 0x21, 0x3D, 0x00, 0x00, 0x00,
        0x1E, 0xE2, 0x19, 0x03, 0x06, 0x76, 0x5F, 0x6E, 0x75, 0x6C, 0x6C, 0x00, 0x04, 0x6E,
        0x5F, 0x75, 0x38, 0x20, 0x3E, 0x04, 0x6E, 0x5F, 0x69, 0x38, 0x21, 0x3D,
    ];
    let value = Value::deserialize(bytes.as_slice()).unwrap();
    let map: IntMap = value.try_into().unwrap();

    assert_eq!(map.count(), 3);

    let mut items = map.iter().into_iter();
    let child_expected = vec![
        (-257978445, "v_null", Value::Null),
        (257978445, "n_u8", Value::UInt8(62)),
        (42, "n_i8", Value::Int8(61)),
    ];

    let (key, child) = items.next().unwrap();
    assert_eq!(key, 10);
    let child: List = child.try_into().unwrap();
    assert_eq!(child.count(), child_expected.len());
    let actual = child.iter();
    assert_eq!(actual.len(), child_expected.len());
    for (actual, (_, _, expected)) in actual.iter().zip(child_expected.iter()) {
        assert_eq!(actual, expected);
    }

    let (key, child) = items.next().unwrap();
    assert_eq!(key, 20);
    let child: IntMap = child.try_into().unwrap();
    assert_eq!(child.count(), child_expected.len());
    let actual = child.iter();
    assert_eq!(actual.len(), child_expected.len());
    for ((actual_key, actual_val), (expected_key, _, expected_val)) in
        actual.iter().zip(child_expected.iter())
    {
        assert_eq!(actual_key, expected_key);
        assert_eq!(actual_val, expected_val);
    }

    let (key, child) = items.next().unwrap();
    assert_eq!(key, 30);
    let child: Object = child.try_into().unwrap();
    assert_eq!(child.count(), child_expected.len());
    let actual = child.iter();
    assert_eq!(actual.len(), child_expected.len());
    for ((actual_key, actual_val), (_, expected_key, expected_val)) in
        actual.iter().zip(child_expected.iter())
    {
        assert_eq!(actual_key, expected_key);
        assert_eq!(actual_val, expected_val);
    }

    assert!(items.next().is_none());
}

#[test]
fn deserialize_obj_primitives() {
    let bytes: Vec<u8> = vec![
        0xE2, 0x80, 0x00, 0x00, 0xEE, 0x13, 0x06, 0x76, 0x5F, 0x6E, 0x75, 0x6C, 0x6C, 0x00,
        0x06, 0x76, 0x5F, 0x74, 0x72, 0x75, 0x65, 0x01, 0x07, 0x76, 0x5F, 0x66, 0x61, 0x6C,
        0x73, 0x65, 0x02, 0x04, 0x6E, 0x5F, 0x75, 0x38, 0x20, 0x3E, 0x04, 0x6E, 0x5F, 0x69,
        0x38, 0x21, 0x3D, 0x05, 0x6E, 0x5F, 0x75, 0x31, 0x36, 0x40, 0x18, 0x76, 0x05, 0x6E,
        0x5F, 0x69, 0x31, 0x36, 0x41, 0x18, 0x11, 0x05, 0x6E, 0x5F, 0x75, 0x33, 0x32, 0x60,
        0x03, 0xBB, 0x99, 0xD6, 0x05, 0x6E, 0x5F, 0x69, 0x33, 0x32, 0x61, 0x03, 0xAC, 0x30,
        0x21, 0x05, 0x6E, 0x5F, 0x66, 0x33, 0x32, 0x62, 0x3F, 0x20, 0x4E, 0xA5, 0x05, 0x6E,
        0x5F, 0x75, 0x36, 0x34, 0x80, 0x00, 0x16, 0x3F, 0xD3, 0x4D, 0xBE, 0xAF, 0xD6, 0x05,
        0x6E, 0x5F, 0x69, 0x36, 0x34, 0x81, 0x00, 0x15, 0xE3, 0xF5, 0x0E, 0x8E, 0x31, 0x21,
        0x05, 0x6E, 0x5F, 0x66, 0x36, 0x34, 0x82, 0x3F, 0xE3, 0xB7, 0x17, 0x58, 0xE2, 0x19,
        0x65, 0x06, 0x73, 0x5F, 0x74, 0x65, 0x78, 0x74, 0xA0, 0x04, 0x54, 0x65, 0x78, 0x74,
        0x00, 0x0A, 0x73, 0x5F, 0x64, 0x61, 0x74, 0x65, 0x74, 0x69, 0x6D, 0x65, 0xA1, 0x08,
        0x44, 0x61, 0x74, 0x65, 0x54, 0x69, 0x6D, 0x65, 0x00, 0x06, 0x73, 0x5F, 0x64, 0x61,
        0x74, 0x65, 0xA2, 0x04, 0x44, 0x61, 0x74, 0x65, 0x00, 0x06, 0x73, 0x5F, 0x74, 0x69,
        0x6D, 0x65, 0xA3, 0x04, 0x54, 0x69, 0x6D, 0x65, 0x00, 0x09, 0x73, 0x5F, 0x64, 0x65,
        0x63, 0x69, 0x6D, 0x61, 0x6C, 0xA4, 0x07, 0x44, 0x65, 0x63, 0x69, 0x6D, 0x61, 0x6C,
        0x00, 0x06, 0x62, 0x5F, 0x62, 0x6C, 0x6F, 0x62, 0xC0, 0x04, 0x62, 0x61, 0x62, 0x61,
    ];
    let value = Value::deserialize(bytes.as_slice()).unwrap();
    let obj: Object = value.try_into().unwrap();

    let expected = vec![
        ("v_null", Value::Null),
        ("v_true", Value::True),
        ("v_false", Value::False),
        ("n_u8", Value::UInt8(62)),
        ("n_i8", Value::Int8(61)),
        ("n_u16", Value::UInt16(6262)),
        ("n_i16", Value::Int16(6161)),
        ("n_u32", Value::UInt32(62626262)),
        ("n_i32", Value::Int32(61616161)),
        ("n_f32", Value::Float(0.6262f32.to_bits())),
        ("n_u64", Value::UInt64(6262626262626262)),
        ("n_i64", Value::Int64(6161616161616161)),
        ("n_f64", Value::Double(0.6161f64.to_bits())),
        ("s_text", Value::Text("Text")),
        ("s_datetime", Value::DateTime("DateTime")),
        ("s_date", Value::Date("Date")),
        ("s_time", Value::Time("Time")),
        ("s_decimal", Value::DecimalStr("Decimal")),
        ("b_blob", Value::Blob(&[0x62, 0x61, 0x62, 0x61])),
    ];

    assert_eq!(expected.len(), obj.count());

    let actual = obj.iter();
    assert_eq!(actual.len(), expected.len());
    for ((actual_key, actual_val), (expected_key, expected_val)) in
        actual.iter().zip(expected.iter())
    {
        assert_eq!(actual_key, expected_key);
        assert_eq!(actual_val, expected_val);
    }
}

#[test]
fn deserialize_obj_user_types() {
    let bytes: Vec<u8> = vec![
        0xE2, 0x80, 0x00, 0x00, 0xA9, 0x0E, 0x06, 0x65, 0x6D, 0x70, 0x74, 0x79, 0x31, 0x05,
        0x06, 0x65, 0x6D, 0x70, 0x74, 0x79, 0x32, 0x10, 0x14, 0x05, 0x62, 0x79, 0x74, 0x65,
        0x31, 0x26, 0x3E, 0x05, 0x62, 0x79, 0x74, 0x65, 0x32, 0x30, 0x28, 0x3D, 0x05, 0x77,
        0x6F, 0x72, 0x64, 0x31, 0x47, 0x18, 0x76, 0x05, 0x77, 0x6F, 0x72, 0x64, 0x32, 0x50,
        0x50, 0x18, 0x11, 0x06, 0x64, 0x77, 0x6F, 0x72, 0x64, 0x31, 0x68, 0x03, 0xBB, 0x99,
        0xD6, 0x06, 0x64, 0x77, 0x6F, 0x72, 0x64, 0x32, 0x70, 0xA0, 0x03, 0xAC, 0x30, 0x21,
        0x06, 0x71, 0x77, 0x6F, 0x72, 0x64, 0x31, 0x89, 0x00, 0x16, 0x3F, 0xD3, 0x4D, 0xBE,
        0xAF, 0xD6, 0x06, 0x71, 0x77, 0x6F, 0x72, 0x64, 0x32, 0x91, 0x40, 0x00, 0x15, 0xE3,
        0xF5, 0x0E, 0x8E, 0x31, 0x21, 0x05, 0x74, 0x65, 0x78, 0x74, 0x31, 0xAA, 0x04, 0x54,
        0x65, 0x78, 0x74, 0x00, 0x05, 0x74, 0x65, 0x78, 0x74, 0x32, 0xB2, 0x85, 0x04, 0x44,
        0x61, 0x74, 0x65, 0x00, 0x05, 0x62, 0x6C, 0x6F, 0x62, 0x31, 0xCF, 0x04, 0x62, 0x61,
        0x62, 0x61, 0x05, 0x62, 0x6C, 0x6F, 0x62, 0x32, 0xDF, 0xFF, 0x04, 0x61, 0x62, 0x61,
        0x62,
    ];
    let value = Value::deserialize(bytes.as_slice()).unwrap();
    let obj: Object = value.try_into().unwrap();

    let expected = vec![
        ("empty1", Value::Empty(SubType::new(5).unwrap())),
        ("empty2", Value::Empty(SubType::new(20).unwrap())),
        ("byte1", Value::Byte(SubType::new(6).unwrap(), 62)),
        ("byte2", Value::Byte(SubType::new(40).unwrap(), 61)),
        ("word1", Value::Word(SubType::new(7).unwrap(), 6262)),
        ("word2", Value::Word(SubType::new(80).unwrap(), 6161)),
        ("dword1", Value::DWord(SubType::new(8).unwrap(), 62626262)),
        ("dword2", Value::DWord(SubType::new(160).unwrap(), 61616161)),
        ("qword1", Value::QWord(SubType::new(9).unwrap(), 6262626262626262)),
        ("qword2", Value::QWord(SubType::new(320).unwrap(), 6161616161616161)),
        ("text1", Value::UserText(SubType::new(10).unwrap(), "Text")),
        ("text2", Value::UserText(SubType::new(645).unwrap(), "Date")),
        ("blob1", Value::UserBlob(SubType::new(15).unwrap(), &[0x62, 0x61, 0x62, 0x61])),
        ("blob2", Value::UserBlob(SubType::new(4095).unwrap(), &[0x61, 0x62, 0x61, 0x62])),
    ];

    assert_eq!(expected.len(), obj.count());

    let actual = obj.iter();
    assert_eq!(actual.len(), expected.len());
    for ((actual_key, actual_val), (expected_key, expected_val)) in
        actual.iter().zip(expected.iter())
    {
        assert_eq!(actual_key, expected_key);
        assert_eq!(actual_val, expected_val);
    }
}

#[test]
fn deserialize_obj_containers() {
    let bytes: Vec<u8> = vec![
        0xE2, 0x45, 0x03, 0x04, 0x6C, 0x69, 0x73, 0x74, 0xE0, 0x08, 0x03, 0x00, 0x20, 0x3E,
        0x21, 0x3D, 0x03, 0x6D, 0x61, 0x70, 0xE1, 0x14, 0x03, 0xF0, 0x9F, 0x8F, 0xB3, 0x00,
        0x0F, 0x60, 0x70, 0x4D, 0x20, 0x3E, 0x00, 0x00, 0x00, 0x2A, 0x21, 0x3D, 0x03, 0x6F,
        0x62, 0x6A, 0xE2, 0x19, 0x03, 0x06, 0x76, 0x5F, 0x6E, 0x75, 0x6C, 0x6C, 0x00, 0x04,
        0x6E, 0x5F, 0x75, 0x38, 0x20, 0x3E, 0x04, 0x6E, 0x5F, 0x69, 0x38, 0x21, 0x3D,
    ];
    let value = Value::deserialize(bytes.as_slice()).unwrap();
    let obj: Object = value.try_into().unwrap();

    assert_eq!(obj.count(), 3);

    let mut items = obj.iter().into_iter();
    let child_expected = vec![
        (-257978445, "v_null", Value::Null),
        (257978445, "n_u8", Value::UInt8(62)),
        (42, "n_i8", Value::Int8(61)),
    ];

    let (key, child) = items.next().unwrap();
    assert_eq!(key, "list");
    let child: List = child.try_into().unwrap();
    assert_eq!(child.count(), child_expected.len());
    let actual = child.iter();
    assert_eq!(actual.len(), child_expected.len());
    for (actual, (_, _, expected)) in actual.iter().zip(child_expected.iter()) {
        assert_eq!(actual, expected);
    }

    let (key, child) = items.next().unwrap();
    assert_eq!(key, "map");
    let child: IntMap = child.try_into().unwrap();
    assert_eq!(child.count(), child_expected.len());
    let actual = child.iter();
    assert_eq!(actual.len(), child_expected.len());
    for ((actual_key, actual_val), (expected_key, _, expected_val)) in
        actual.iter().zip(child_expected.iter())
    {
        assert_eq!(actual_key, expected_key);
        assert_eq!(actual_val, expected_val);
    }

    let (key, child) = items.next().unwrap();
    assert_eq!(key, "obj");
    let child: Object = child.try_into().unwrap();
    assert_eq!(child.count(), child_expected.len());
    let actual = child.iter();
    assert_eq!(actual.len(), child_expected.len());
    for ((actual_key, actual_val), (_, expected_key, expected_val)) in
        actual.iter().zip(child_expected.iter())
    {
        assert_eq!(actual_key, expected_key);
        assert_eq!(actual_val, expected_val);
    }

    assert!(items.next().is_none());
}
