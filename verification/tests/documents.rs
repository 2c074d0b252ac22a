use binn_rs::{Allocation, IntMap, List, Object, SubType, Value};

#[test]
fn document_0_is_written() {
    let expected: Vec<u8> = vec![
        0xE1, 0x03, 0x00,
    ];

    let mut buf = vec![0xA5u8; 4];
    let mut root = IntMap::empty_mut(Allocation::from(buf.as_mut_slice())).unwrap();
    assert_eq!(expected, root.as_bytes());
}

#[test]
fn document_0_is_read() {
    let bytes: Vec<u8> = vec![
        0xE1, 0x03, 0x00,
    ];

    let root: IntMap = Value::deserialize(bytes.as_slice()).unwrap().try_into().unwrap();
    assert_eq!(root.as_bytes(), bytes.as_slice());
    assert_eq!(root.count(), 0);
    let root_items = root.iter();
    assert_eq!(root_items.len(), 0);
}

#[test]
fn document_1_is_written() {
    let expected: Vec<u8> = vec![
        0xE0, 0x80, 0x00, 0x00, 0xCB, 0x06, 0x02, 0xA2, 0x0A, 0x30, 0x7A, 0x20, 0x30, 0x20,
        0x78, 0x20, 0x61, 0x61, 0x31, 0x00, 0x41, 0xCC, 0x1B, 0xE0, 0x74, 0x05, 0x21, 0xB3,
        0x61, 0x69, 0xC2, 0xB4, 0x31, 0xA2, 0x05, 0x79, 0x7A, 0x63, 0x30, 0x61, 0x00, 0xE0,
        0x5D, 0x04, 0xE1, 0x28, 0x04, 0x09, 0xE8, 0x84, 0x00, 0x81, 0x57, 0x9E, 0x96, 0xA2,
        0xC6, 0x59, 0xF3, 0xCB, 0x8F, 0x20, 0x1B, 0xAF, 0x41, 0x93, 0xB5, 0x17, 0x45, 0xF7,
        0x4E, 0xC0, 0x05, 0x3A, 0xB4, 0x6F, 0x15, 0x2D, 0xA0, 0xE3, 0xAE, 0x4F, 0x22, 0xE7,
        0xE1, 0x2D, 0x05, 0x87, 0xA2, 0x34, 0x59, 0x61, 0x7E, 0xAD, 0xB7, 0xD7, 0x65, 0x3A,
        0xF5, 0x48, 0x20, 0xF8, 0x1C, 0x6B, 0xC9, 0x45, 0x20, 0x22, 0xF7, 0x68, 0x96, 0xEF,
        0x50, 0x10, 0xF3, 0x43, 0x0A, 0x99, 0x3F, 0xA6, 0x81, 0xE4, 0x05, 0x7D, 0x49, 0x7D,
        0x52, 0x72, 0x0C, 0x20, 0x9E, 0xE0, 0x03, 0x00, 0x61, 0xCD, 0xED, 0xE9, 0xB5, 0xE0,
        0x3B, 0x06, 0xE2, 0x08, 0x01, 0x03, 0x6B, 0x30, 0x78, 0x02, 0xA2, 0x21, 0x20, 0x62,
        0x31, 0x61, 0x78, 0x7A, 0x39, 0x39, 0x61, 0x62, 0x62, 0x31, 0x78, 0x78, 0x31, 0x63,
        0x63, 0x20, 0x62, 0x7A, 0x79, 0x20, 0x79, 0x31, 0x62, 0x31, 0x62, 0x79, 0x79, 0x30,
        0x31, 0x61, 0x63, 0x00, 0x21, 0x71, 0x41, 0xB1, 0xE3, 0x50, 0x10, 0xF7, 0x14, 0x4F,
        0x63, 0x13, 0x61, 0xC3, 0xC2, 0x94, 0x98,
    ];

    let mut buf = vec![0xA5u8; 205];
    let mut root = List::empty_mut(Allocation::from(buf.as_mut_slice())).unwrap();
    root.add_value(Value::from(false)).unwrap();
    root.add_value(Value::Date("0z 0 x aa1")).unwrap();
    root.add_value(Value::from(-13285i16)).unwrap();
    {
        let mut root_3: List =
            root.add_value(List::empty().into()).unwrap().try_into().unwrap();
        root_3.add_value(Value::from(-77i8)).unwrap();
        root_3.add_value(Value::from(1774367793i32)).unwrap();
        root_3.add_value(Value::Date("yzc0a")).unwrap();
        {
            let mut root_3_3: List =
                root_3.add_value(List::empty().into()).unwrap().try_into().unwrap();
            {
                let mut root_3_3_0: IntMap =
                    root_3_3.add_value(IntMap::empty().into()).unwrap().try_into().unwrap();
                root_3_3_0.add_value(166233088, Value::from(6313649353476666315i64)).unwrap();
                root_3_3_0.add_value(-1893721169, Value::from(-27723i16)).unwrap();
                root_3_3_0.add_value(390461262, Value::from([0x3au8, 0xb4u8, 0x6fu8, 0x15u8, 0x2du8].as_slice())).unwrap();
                root_3_3_0.add_value(-1595691441, Value::Byte(SubType::new(2).unwrap(), 231)).unwrap();
                assert_eq!(root_3_3_0.count(), 4);
            }
            {
                let mut root_3_3_1: IntMap =
                    root_3_3.add_value(IntMap::empty().into()).unwrap().try_into().unwrap();
                root_3_3_1.add_value(-2019412903, Value::from(2125314007i32)).unwrap();
                root_3_3_1.add_value(1698362696, Value::from(248u8)).unwrap();
                root_3_3_1.add_value(476825925, Value::from(34u8)).unwrap();
                root_3_3_1.add_value(-144140561, Value::Word(SubType::new(16).unwrap(), 62275)).unwrap();
                root_3_3_1.add_value(177815462, Value::from(-2016067503589789172i64)).unwrap();
                assert_eq!(root_3_3_1.count(), 5);
            }
            root_3_3.add_value(Value::from(158u8)).unwrap();
            {
                let mut root_3_3_3: List =
                    root_3_3.add_value(List::empty().into()).unwrap().try_into().unwrap();
                assert_eq!(root_3_3_3.count(), 0);
            }
            assert_eq!(root_3_3.count(), 4);
        }
        root_3.add_value(Value::from(-840046155i32)).unwrap();
        assert_eq!(root_3.count(), 5);
    }
    {
        let mut root_4: List =
            root.add_value(List::empty().into()).unwrap().try_into().unwrap();
        {
            let mut root_4_0: Object =
                root_4.add_value(Object::empty().into()).unwrap().try_into().unwrap();
            root_4_0.add_value("k0x", Value::from(false)).unwrap();
            assert_eq!(root_4_0.count(), 1);
        }
        root_4.add_value(Value::Date(" b1axz99abb1xx1cc bzy y1b1byy01ac")).unwrap();
        root_4.add_value(Value::from(113i8)).unwrap();
        root_4.add_value(Value::from(-19997i16)).unwrap();
        root_4.add_value(Value::Word(SubType::new(16).unwrap(), 63252)).unwrap();
        root_4.add_value(Value::Word(SubType::new(15).unwrap(), 25363)).unwrap();
        assert_eq!(root_4.count(), 6);
    }
    root.add_value(Value::from(-1010658152i32)).unwrap();
    assert_eq!(expected, root.as_bytes());
}

#[test]
fn document_1_is_read() {
    let bytes: Vec<u8> = vec![
        0xE0, 0x80, 0x00, 0x00, 0xCB, 0x06, 0x02, 0xA2, 0x0A, 0x30, 0x7A, 0x20, 0x30, 0x20,
        0x78, 0x20, 0x61, 0x61, 0x31, 0x00, 0x41, 0xCC, 0x1B, 0xE0, 0x74, 0x05, 0x21, 0xB3,
        0x61, 0x69, 0xC2, 0xB4, 0x31, 0xA2, 0x05, 0x79, 0x7A, 0x63, 0x30, 0x61, 0x00, 0xE0,
        0x5D, 0x04, 0xE1, 0x28, 0x04, 0x09, 0xE8, 0x84, 0x00, 0x81, 0x57, 0x9E, 0x96, 0xA2,
        0xC6, 0x59, 0xF3, 0xCB, 0x8F, 0x20, 0x1B, 0xAF, 0x41, 0x93, 0xB5, 0x17, 0x45, 0xF7,
        0x4E, 0xC0, 0x05, 0x3A, 0xB4, 0x6F, 0x15, 0x2D, 0xA0, 0xE3, 0xAE, 0x4F, 0x22, 0xE7,
        0xE1, 0x2D, 0x05, 0x87, 0xA2, 0x34, 0x59, 0x61, 0x7E, 0xAD, 0xB7, 0xD7, 0x65, 0x3A,
        0xF5, 0x48, 0x20, 0xF8, 0x1C, 0x6B, 0xC9, 0x45, 0x20, 0x22, 0xF7, 0x68, 0x96, 0xEF,
        0x50, 0x10, 0xF3, 0x43, 0x0A, 0x99, 0x3F, 0xA6, 0x81, 0xE4, 0x05, 0x7D, 0x49, 0x7D,
        0x52, 0x72, 0x0C, 0x20, 0x9E, 0xE0, 0x03, 0x00, 0x61, 0xCD, 0xED, 0xE9, 0xB5, 0xE0,
        0x3B, 0x06, 0xE2, 0x08, 0x01, 0x03, 0x6B, 0x30, 0x78, 0x02, 0xA2, 0x21, 0x20, 0x62,
        0x31, 0x61, 0x78, 0x7A, 0x39, 0x39, 0x61, 0x62, 0x62, 0x31, 0x78, 0x78, 0x31, 0x63,
        0x63, 0x20, 0x62, 0x7A, 0x79, 0x20, 0x79, 0x31, 0x62, 0x31, 0x62, 0x79, 0x79, 0x30,
        0x31, 0x61, 0x63, 0x00, 0x21, 0x71, 0x41, 0xB1, 0xE3, 0x50, 0x10, 0xF7, 0x14, 0x4F,
        0x63, 0x13, 0x61, 0xC3, 0xC2, 0x94, 0x98,
    ];

    let root: List = Value::deserialize(bytes.as_slice()).unwrap().try_into().unwrap();
    assert_eq!(root.as_bytes(), bytes.as_slice());
    assert_eq!(root.count(), 6);
    let root_items = root.iter();
    assert_eq!(root_items.len(), 6);
    assert_eq!(root_items[0], Value::False);
    assert_eq!(root_items[1], Value::Date("0z 0 x aa1"));
    assert_eq!(root_items[2], Value::Int16(-13285));
    match &root_items[3] {
        Value::List(root_3) => {
            assert_eq!(root_3.count(), 5);
            let root_3_items = root_3.iter();
            assert_eq!(root_3_items.len(), 5);
            assert_eq!(root_3_items[0], Value::Int8(-77));
            assert_eq!(root_3_items[1], Value::Int32(1774367793));
            assert_eq!(root_3_items[2], Value::Date("yzc0a"));
            match &root_3_items[3] {
                Value::List(root_3_3) => {
                    assert_eq!(root_3_3.count(), 4);
                    let root_3_3_items = root_3_3.iter();
                    assert_eq!(root_3_3_items.len(), 4);
                    match &root_3_3_items[0] {
                        Value::IntMap(root_3_3_0) => {
                            assert_eq!(root_3_3_0.count(), 4);
                            let root_3_3_0_items = root_3_3_0.iter();
                            assert_eq!(root_3_3_0_items.len(), 4);
                            assert_eq!(root_3_3_0_items[0].0, 166233088);
                            assert_eq!(root_3_3_0_items[0].1, Value::Int64(6313649353476666315));
                            assert_eq!(root_3_3_0_items[1].0, -1893721169);
                            assert_eq!(root_3_3_0_items[1].1, Value::Int16(-27723));
                            assert_eq!(root_3_3_0_items[2].0, 390461262);
                            assert_eq!(root_3_3_0_items[2].1, Value::Blob(&[0x3a, 0xb4, 0x6f, 0x15, 0x2d]));
                            assert_eq!(root_3_3_0_items[3].0, -1595691441);
                            assert_eq!(root_3_3_0_items[3].1, Value::Byte(SubType::new(2).unwrap(), 231));
                        },
                        other => panic!("not a container: {:?}", other),
                    }
                    match &root_3_3_items[1] {
                        Value::IntMap(root_3_3_1) => {
                            assert_eq!(root_3_3_1.count(), 5);
                            let root_3_3_1_items = root_3_3_1.iter();
                            assert_eq!(root_3_3_1_items.len(), 5);
                            assert_eq!(root_3_3_1_items[0].0, -2019412903);
                            assert_eq!(root_3_3_1_items[0].1, Value::Int32(2125314007));
                            assert_eq!(root_3_3_1_items[1].0, 1698362696);
                            assert_eq!(root_3_3_1_items[1].1, Value::UInt8(248));
                            assert_eq!(root_3_3_1_items[2].0, 476825925);
                            assert_eq!(root_3_3_1_items[2].1, Value::UInt8(34));
                            assert_eq!(root_3_3_1_items[3].0, -144140561);
                            assert_eq!(root_3_3_1_items[3].1, Value::Word(SubType::new(16).unwrap(), 62275));
                            assert_eq!(root_3_3_1_items[4].0, 177815462);
                            assert_eq!(root_3_3_1_items[4].1, Value::Int64(-2016067503589789172));
                        },
                        other => panic!("not a container: {:?}", other),
                    }
                    assert_eq!(root_3_3_items[2], Value::UInt8(158));
                    match &root_3_3_items[3] {
                        Value::List(root_3_3_3) => {
                            assert_eq!(root_3_3_3.count(), 0);
                            let root_3_3_3_items = root_3_3_3.iter();
                            assert_eq!(root_3_3_3_items.len(), 0);
                        },
                        other => panic!("not a container: {:?}", other),
                    }
                },
                other => panic!("not a container: {:?}", other),
            }
            assert_eq!(root_3_items[4], Value::Int32(-840046155));
        },
        other => panic!("not a container: {:?}", other),
    }
    match &root_items[4] {
        Value::List(root_4) => {
            assert_eq!(root_4.count(), 6);
            let root_4_items = root_4.iter();
            assert_eq!(root_4_items.len(), 6);
            match &root_4_items[0] {
                Value::Object(root_4_0) => {
                    assert_eq!(root_4_0.count(), 1);
                    let root_4_0_items = root_4_0.iter();
                    assert_eq!(root_4_0_items.len(), 1);
                    assert_eq!(root_4_0_items[0].0, "k0x");
                    assert_eq!(root_4_0_items[0].1, Value::False);
                },
                other => panic!("not a container: {:?}", other),
            }
            assert_eq!(root_4_items[1], Value::Date(" b1axz99abb1xx1cc bzy y1b1byy01ac"));
            assert_eq!(root_4_items[2], Value::Int8(113));
            assert_eq!(root_4_items[3], Value::Int16(-19997));
            assert_eq!(root_4_items[4], Value::Word(SubType::new(16).unwrap(), 63252));
            assert_eq!(root_4_items[5], Value::Word(SubType::new(15).unwrap(), 25363));
        },
        other => panic!("not a container: {:?}", other),
    }
    assert_eq!(root_items[5], Value::Int32(-1010658152));
}

#[test]
fn document_2_is_written() {
    let expected: Vec<u8> = vec![
        0xE2, 0x80, 0x00, 0x01, 0xB6, 0x09, 0x04, 0x6B, 0x30, 0x78, 0x78, 0x60, 0x24, 0xD0,
        0x15, 0xB2, 0x06, 0x6B, 0x31, 0x78, 0x78, 0x78, 0x78, 0xC1, 0x06, 0x18, 0x7B, 0x73,
        0x14, 0xD7, 0x0E, 0x04, 0x6B, 0x32, 0x78, 0x78, 0x21, 0xD3, 0x06, 0x6B, 0x33, 0x78,
        0x78, 0x78, 0x78, 0x61, 0x30, 0xF1, 0x25, 0xA7, 0x07, 0x6B, 0x34, 0x78, 0x78, 0x78,
        0x78, 0x78, 0xE0, 0x04, 0x01, 0x02, 0x02, 0x6B, 0x35, 0xE1, 0x80, 0x00, 0x00, 0xA9,
        0x09, 0x98, 0x8E, 0xFF, 0xB2, 0xC0, 0x02, 0xFD, 0x2B, 0xFB, 0x92, 0x8D, 0x4E, 0x02,
        0x8F, 0xCA, 0x7F, 0x4C, 0x00, 0x0D, 0xAD, 0x9C, 0x40, 0xE0, 0x23, 0x09, 0x02, 0x02,
        0x60, 0x02, 0x9E, 0x04, 0xE6, 0x01, 0x60, 0x65, 0xB0, 0xCA, 0xC7, 0x40, 0x90, 0x2D,
        0x41, 0x49, 0x70, 0xA5, 0x09, 0x62, 0x61, 0x61, 0x61, 0x62, 0x63, 0x63, 0x62, 0x62,
        0x00, 0x01, 0x9D, 0xD9, 0x4D, 0x3B, 0x01, 0xCD, 0x71, 0xA7, 0x5E, 0xC0, 0x02, 0xD8,
        0x43, 0xD9, 0x75, 0x55, 0xCC, 0xE2, 0x45, 0x06, 0x07, 0x6B, 0x30, 0x78, 0x78, 0x78,
        0x78, 0x78, 0xC0, 0x09, 0x86, 0x9B, 0xE9, 0x7E, 0x73, 0x84, 0x47, 0x09, 0xCD, 0x05,
        0x6B, 0x31, 0x78, 0x78, 0x78, 0x61, 0x09, 0x39, 0x9A, 0x76, 0x02, 0x6B, 0x32, 0x1F,
        0xFF, 0x05, 0x6B, 0x33, 0x78, 0x78, 0x78, 0x81, 0xD2, 0xA3, 0x0D, 0xD7, 0xD2, 0xBA,
        0x64, 0x89, 0x04, 0x6B, 0x34, 0x78, 0x78, 0x02, 0x03, 0x6B, 0x35, 0x78, 0xA5, 0x03,
        0x61, 0x63, 0x61, 0x00, 0xEF, 0x81, 0xED, 0x3D, 0xE0, 0x03, 0x00, 0x06, 0x51, 0x75,
        0x55, 0x80, 0x36, 0x95, 0x95, 0x03, 0xFC, 0xA7, 0xCB, 0x3C, 0x04, 0x6B, 0x36, 0x78,
        0x78, 0xE2, 0x62, 0x03, 0x05, 0x6B, 0x30, 0x78, 0x78, 0x78, 0xA2, 0x24, 0x79, 0x30,
        0x78, 0x20, 0x30, 0x31, 0x61, 0x7A, 0x20, 0x7A, 0x78, 0x39, 0x62, 0x31, 0x7A, 0x20,
        0x63, 0x39, 0x20, 0x78, 0x30, 0x62, 0x31, 0x30, 0x63, 0x78, 0x31, 0x31, 0x63, 0x61,
        0x39, 0x7A, 0x20, 0x79, 0x63, 0x20, 0x00, 0x02, 0x6B, 0x31, 0xE0, 0x20, 0x02, 0xDF,
        0xA0, 0x07, 0xB2, 0xF7, 0x13, 0xE2, 0x66, 0x20, 0xD3, 0xA0, 0x10, 0x62, 0x39, 0x79,
        0x61, 0x39, 0x39, 0x39, 0x30, 0x79, 0x62, 0x62, 0x79, 0x79, 0x61, 0x30, 0x31, 0x00,
        0x03, 0x6B, 0x32, 0x78, 0xAF, 0x08, 0x62, 0x61, 0x61, 0x63, 0x63, 0x62, 0x62, 0x63,
        0x00, 0x02, 0x6B, 0x37, 0xE0, 0x40, 0x09, 0xE0, 0x1D, 0x05, 0x61, 0x00, 0xAB, 0xD9,
        0x01, 0x40, 0x5D, 0xB2, 0x61, 0x56, 0x76, 0x29, 0x8C, 0xC1, 0x09, 0x20, 0x17, 0x0F,
        0xB1, 0xE5, 0xB6, 0x1B, 0x6E, 0x12, 0x21, 0xE7, 0x00, 0xE1, 0x03, 0x00, 0x81, 0x36,
        0x19, 0x65, 0x43, 0xF3, 0xC5, 0x70, 0xC9, 0x41, 0x7A, 0x22, 0x20, 0xC9, 0xB0, 0x10,
        0x04, 0x62, 0x63, 0x63, 0x62, 0x00, 0x60, 0xD4, 0x94, 0x60, 0xD7, 0x00, 0x07, 0x6B,
        0x38, 0x78, 0x78, 0x78, 0x78, 0x78, 0xE1, 0x1A, 0x02, 0x72, 0xB9, 0xE2, 0xAD, 0xB0,
        0x10, 0x08, 0x62, 0x62, 0x61, 0x63, 0x62, 0x61, 0x62, 0x61, 0x00, 0x2B, 0xFD, 0x22,
        0xF1, 0x40, 0xD2, 0x70,
    ];

    let mut buf = vec![0xA5u8; 438];
    let mut root = Object::empty_mut(Allocation::from(buf.as_mut_slice())).unwrap();
    root.add_value("k0xx", Value::from(617616818u32)).unwrap();
    root.add_value("k1xxxx", Value::UserBlob(SubType::new(1).unwrap(), &[0x18, 0x7b, 0x73, 0x14, 0xd7, 0x0e])).unwrap();
    root.add_value("k2xx", Value::from(-45i8)).unwrap();
    root.add_value("k3xxxx", Value::from(821110183i32)).unwrap();
    {
        let mut root_4: List =
            root.add_value("k4xxxxx", List::empty().into()).unwrap().try_into().unwrap();
        root_4.add_value(Value::from(false)).unwrap();
        assert_eq!(root_4.count(), 1);
    }
    {
        let mut root_5: IntMap =
            root.add_value("k5", IntMap::empty().into()).unwrap().try_into().unwrap();
        root_5.add_value(-1735458894, Value::from([0xfdu8, 0x2bu8].as_slice())).unwrap();
        root_5.add_value(-74281650, Value::from(false)).unwrap();
        root_5.add_value(-1882554548, Value::Null).unwrap();
        {
            let mut root_5_3: List =
                root_5.add_value(229481536, List::empty().into()).unwrap().try_into().unwrap();
            root_5_3.add_value(Value::from(false)).unwrap();
            root_5_3.add_value(Value::from(false)).unwrap();
            root_5_3.add_value(Value::from(43910374u32)).unwrap();
            root_5_3.add_value(Value::from(true)).unwrap();
            root_5_3.add_value(Value::from(1706085063u32)).unwrap();
            root_5_3.add_value(Value::from(36909u16)).unwrap();
            root_5_3.add_value(Value::from(18800i16)).unwrap();
            root_5_3.add_value(Value::UserText(SubType::new(5).unwrap(), "baaabccbb")).unwrap();
            root_5_3.add_value(Value::from(true)).unwrap();
            assert_eq!(root_5_3.count(), 9);
        }
        root_5.add_value(-1646703301, Value::from(true)).unwrap();
        root_5.add_value(-848189602, Value::from([0xd8u8, 0x43u8].as_slice())).unwrap();
        {
            let mut root_5_6: Object =
                root_5.add_value(-646621748, Object::empty().into()).unwrap().try_into().unwrap();
            root_5_6.add_value("k0xxxxx", Value::from([0x86u8, 0x9bu8, 0xe9u8, 0x7eu8, 0x73u8, 0x84u8, 0x47u8, 0x09u8, 0xcdu8].as_slice())).unwrap();
            root_5_6.add_value("k1xxx", Value::from(154770038i32)).unwrap();
            root_5_6.add_value("k2", Value::Empty(SubType::new(4095).unwrap())).unwrap();
            root_5_6.add_value("k3xxx", Value::from(-3268753683936287607i64)).unwrap();
            root_5_6.add_value("k4xx", Value::from(false)).unwrap();
            root_5_6.add_value("k5x", Value::UserText(SubType::new(5).unwrap(), "aca")).unwrap();
            assert_eq!(root_5_6.count(), 6);
        }
        {
            let mut root_5_7: List =
                root_5.add_value(-276697795, List::empty().into()).unwrap().try_into().unwrap();
            assert_eq!(root_5_7.count(), 0);
        }
        root_5.add_value(106001749, Value::from(3933213693934291772u64)).unwrap();
        assert_eq!(root_5.count(), 9);
    }
    {
        let mut root_6: Object =
            root.add_value("k6xx", Object::empty().into()).unwrap().try_into().unwrap();
        root_6.add_value("k0xxx", Value::Date("y0x 01az zx9b1z c9 x0b10cx11ca9z yc ")).unwrap();
        {
            let mut root_6_1: List =
                root_6.add_value("k1", List::empty().into()).unwrap().try_into().unwrap();
            root_6_1.add_value(Value::UserBlob(SubType::new(4000).unwrap(), &[0xb2, 0xf7, 0x13, 0xe2, 0x66, 0x20, 0xd3])).unwrap();
            root_6_1.add_value(Value::from("b9ya9990ybbyya01")).unwrap();
            assert_eq!(root_6_1.count(), 2);
        }
        root_6.add_value("k2x", Value::UserText(SubType::new(15).unwrap(), "baaccbbc")).unwrap();
        assert_eq!(root_6.count(), 3);
    }
    {
        let mut root_7: List =
            root.add_value("k7", List::empty().into()).unwrap().try_into().unwrap();
        {
            let mut root_7_0: List =
                root_7.add_value(List::empty().into()).unwrap().try_into().unwrap();
            root_7_0.add_value(Value::from(11262209i32)).unwrap();
            root_7_0.add_value(Value::from(23986u16)).unwrap();
            root_7_0.add_value(Value::from(1450584460i32)).unwrap();
            root_7_0.add_value(Value::UserBlob(SubType::new(1).unwrap(), &[0x20, 0x17, 0x0f, 0xb1, 0xe5, 0xb6, 0x1b, 0x6e, 0x12])).unwrap();
            root_7_0.add_value(Value::from(-25i8)).unwrap();
            assert_eq!(root_7_0.count(), 5);
        }
        root_7.add_value(Value::Null).unwrap();
        {
            let mut root_7_2: IntMap =
                root_7.add_value(IntMap::empty().into()).unwrap().try_into().unwrap();
            assert_eq!(root_7_2.count(), 0);
        }
        root_7.add_value(Value::from(3898258294992892105i64)).unwrap();
        root_7.add_value(Value::from(31266i16)).unwrap();
        root_7.add_value(Value::from(201u8)).unwrap();
        root_7.add_value(Value::UserText(SubType::new(16).unwrap(), "bccb")).unwrap();
        root_7.add_value(Value::from(3566493911u32)).unwrap();
        root_7.add_value(Value::Null).unwrap();
        assert_eq!(root_7.count(), 9);
    }
    {
        let mut root_8: IntMap =
            root.add_value("k8xxxxx", IntMap::empty().into()).unwrap().try_into().unwrap();
        root_8.add_value(1924784813, Value::UserText(SubType::new(16).unwrap(), "bbacbaba")).unwrap();
        root_8.add_value(738009841, Value::from(53872u16)).unwrap();
        assert_eq!(root_8.count(), 2);
    }
    assert_eq!(expected, root.as_bytes());
}

#[test]
fn document_2_is_read() {
    let bytes: Vec<u8> = vec![
        0xE2, 0x80, 0x00, 0x01, 0xB6, 0x09, 0x04, 0x6B, 0x30, 0x78, 0x78, 0x60, 0x24, 0xD0,
        0x15, 0xB2, 0x06, 0x6B, 0x31, 0x78, 0x78, 0x78, 0x78, 0xC1, 0x06, 0x18, 0x7B, 0x73,
        0x14, 0xD7, 0x0E, 0x04, 0x6B, 0x32, 0x78, 0x78, 0x21, 0xD3, 0x06, 0x6B, 0x33, 0x78,
        0x78, 0x78, 0x78, 0x61, 0x30, 0xF1, 0x25, 0xA7, 0x07, 0x6B, 0x34, 0x78, 0x78, 0x78,
        0x78, 0x78, 0xE0, 0x04, 0x01, 0x02, 0x02, 0x6B, 0x35, 0xE1, 0x80, 0x00, 0x00, 0xA9,
        0x09, 0x98, 0x8E, 0xFF, 0xB2, 0xC0, 0x02, 0xFD, 0x2B, 0xFB, 0x92, 0x8D, 0x4E, 0x02,
        0x8F, 0xCA, 0x7F, 0x4C, 0x00, 0x0D, 0xAD, 0x9C, 0x40, 0xE0, 0x23, 0x09, 0x02, 0x02,
        0x60, 0x02, 0x9E, 0x04, 0xE6, 0x01, 0x60, 0x65, 0xB0, 0xCA, 0xC7, 0x40, 0x90, 0x2D,
        0x41, 0x49, 0x70, 0xA5, 0x09, 0x62, 0x61, 0x61, 0x61, 0x62, 0x63, 0x63, 0x62, 0x62,
        0x00, 0x01, 0x9D, 0xD9, 0x4D, 0x3B, 0x01, 0xCD, 0x71, 0xA7, 0x5E, 0xC0, 0x02, 0xD8,
        0x43, 0xD9, 0x75, 0x55, 0xCC, 0xE2, 0x45, 0x06, 0x07, 0x6B, 0x30, 0x78, 0x78, 0x78,
        0x78, 0x78, 0xC0, 0x09, 0x86, 0x9B, 0xE9, 0x7E, 0x73, 0x84, 0x47, 0x09, 0xCD, 0x05,
        0x6B, 0x31, 0x78, 0x78, 0x78, 0x61, 0x09, 0x39, 0x9A, 0x76, 0x02, 0x6B, 0x32, 0x1F,
        0xFF, 0x05, 0x6B, 0x33, 0x78, 0x78, 0x78, 0x81, 0xD2, 0xA3, 0x0D, 0xD7, 0xD2, 0xBA,
        0x64, 0x89, 0x04, 0x6B, 0x34, 0x78, 0x78, 0x02, 0x03, 0x6B, 0x35, 0x78, 0xA5, 0x03,
        0x61, 0x63, 0x61, 0x00, 0xEF, 0x81, 0xED, 0x3D, 0xE0, 0x03, 0x00, 0x06, 0x51, 0x75,
        0x55, 0x80, 0x36, 0x95, 0x95, 0x03, 0xFC, 0xA7, 0xCB, 0x3C, 0x04, 0x6B, 0x36, 0x78,
        0x78, 0xE2, 0x62, 0x03, 0x05, 0x6B, 0x30, 0x78, 0x78, 0x78, 0xA2, 0x24, 0x79, 0x30,
        0x78, 0x20, 0x30, 0x31, 0x61, 0x7A, 0x20, 0x7A, 0x78, 0x39, 0x62, 0x31, 0x7A, 0x20,
        0x63, 0x39, 0x20, 0x78, 0x30, 0x62, 0x31, 0x30, 0x63, 0x78, 0x31, 0x31, 0x63, 0x61,
        0x39, 0x7A, 0x20, 0x79, 0x63, 0x20, 0x00, 0x02, 0x6B, 0x31, 0xE0, 0x20, 0x02, 0xDF,
        0xA0, 0x07, 0xB2, 0xF7, 0x13, 0xE2, 0x66, 0x20, 0xD3, 0xA0, 0x10, 0x62, 0x39, 0x79,
        0x61, 0x39, 0x39, 0x39, 0x30, 0x79, 0x62, 0x62, 0x79, 0x79, 0x61, 0x30, 0x31, 0x00,
        0x03, 0x6B, 0x32, 0x78, 0xAF, 0x08, 0x62, 0x61, 0x61, 0x63, 0x63, 0x62, 0x62, 0x63,
        0x00, 0x02, 0x6B, 0x37, 0xE0, 0x40, 0x09, 0xE0, 0x1D, 0x05, 0x61, 0x00, 0xAB, 0xD9,
        0x01, 0x40, 0x5D, 0xB2, 0x61, 0x56, 0x76, 0x29, 0x8C, 0xC1, 0x09, 0x20, 0x17, 0x0F,
        0xB1, 0xE5, 0xB6, 0x1B, 0x6E, 0x12, 0x21, 0xE7, 0x00, 0xE1, 0x03, 0x00, 0x81, 0x36,
        0x19, 0x65, 0x43, 0xF3, 0xC5, 0x70, 0xC9, 0x41, 0x7A, 0x22, 0x20, 0xC9, 0xB0, 0x10,
        0x04, 0x62, 0x63, 0x63, 0x62, 0x00, 0x60, 0xD4, 0x94, 0x60, 0xD7, 0x00, 0x07, 0x6B,
        0x38, 0x78, 0x78, 0x78, 0x78, 0x78, 0xE1, 0x1A, 0x02, 0x72, 0xB9, 0xE2, 0xAD, 0xB0,
        0x10, 0x08, 0x62, 0x62, 0x61, 0x63, 0x62, 0x61, 0x62, 0x61, 0x00, 0x2B, 0xFD, 0x22,
        0xF1, 0x40, 0xD2, 0x70,
    ];

    let root: Object = Value::deserialize(bytes.as_slice()).unwrap().try_into().unwrap();
    assert_eq!(root.as_bytes(), bytes.as_slice());
    assert_eq!(root.count(), 9);
    let root_items = root.iter();
    assert_eq!(root_items.len(), 9);
    assert_eq!(root_items[0].0, "k0xx");
    assert_eq!(root_items[0].1, Value::UInt32(617616818));
    assert_eq!(root_items[1].0, "k1xxxx");
    assert_eq!(root_items[1].1, Value::UserBlob(SubType::new(1).unwrap(), &[0x18, 0x7b, 0x73, 0x14, 0xd7, 0x0e]));
    assert_eq!(root_items[2].0, "k2xx");
    assert_eq!(root_items[2].1, Value::Int8(-45));
    assert_eq!(root_items[3].0, "k3xxxx");
    assert_eq!(root_items[3].1, Value::Int32(821110183));
    assert_eq!(root_items[4].0, "k4xxxxx");
    match &root_items[4].1 {
        Value::List(root_4) => {
            assert_eq!(root_4.count(), 1);
            let root_4_items = root_4.iter();
            assert_eq!(root_4_items.len(), 1);
            assert_eq!(root_4_items[0], Value::False);
        },
        other => panic!("not a container: {:?}", other),
    }
    assert_eq!(root_items[5].0, "k5");
    match &root_items[5].1 {
        Value::IntMap(root_5) => {
            assert_eq!(root_5.count(), 9);
            let root_5_items = root_5.iter();
            assert_eq!(root_5_items.len(), 9);
            assert_eq!(root_5_items[0].0, -1735458894);
            assert_eq!(root_5_items[0].1, Value::Blob(&[0xfd, 0x2b]));
            assert_eq!(root_5_items[1].0, -74281650);
            assert_eq!(root_5_items[1].1, Value::False);
            assert_eq!(root_5_items[2].0, -1882554548);
            assert_eq!(root_5_items[2].1, Value::Null);
            assert_eq!(root_5_items[3].0, 229481536);
            match &root_5_items[3].1 {
                Value::List(root_5_3) => {
                    assert_eq!(root_5_3.count(), 9);
                    let root_5_3_items = root_5_3.iter();
                    assert_eq!(root_5_3_items.len(), 9);
                    assert_eq!(root_5_3_items[0], Value::False);
                    assert_eq!(root_5_3_items[1], Value::False);
                    assert_eq!(root_5_3_items[2], Value::UInt32(43910374));
                    assert_eq!(root_5_3_items[3], Value::True);
                    assert_eq!(root_5_3_items[4], Value::UInt32(1706085063));
                    assert_eq!(root_5_3_items[5], Value::UInt16(36909));
                    assert_eq!(root_5_3_items[6], Value::Int16(18800));
                    assert_eq!(root_5_3_items[7], Value::UserText(SubType::new(5).unwrap(), "baaabccbb"));
                    assert_eq!(root_5_3_items[8], Value::True);
                },
                other => panic!("not a container: {:?}", other),
            }
            assert_eq!(root_5_items[4].0, -1646703301);
            assert_eq!(root_5_items[4].1, Value::True);
            assert_eq!(root_5_items[5].0, -848189602);
            assert_eq!(root_5_items[5].1, Value::Blob(&[0xd8, 0x43]));
            assert_eq!(root_5_items[6].0, -646621748);
            match &root_5_items[6].1 {
                Value::Object(root_5_6) => {
                    assert_eq!(root_5_6.count(), 6);
                    let root_5_6_items = root_5_6.iter();
                    assert_eq!(root_5_6_items.len(), 6);
                    assert_eq!(root_5_6_items[0].0, "k0xxxxx");
                    assert_eq!(root_5_6_items[0].1, Value::Blob(&[0x86, 0x9b, 0xe9, 0x7e, 0x73, 0x84, 0x47, 0x09, 0xcd]));
                    assert_eq!(root_5_6_items[1].0, "k1xxx");
                    assert_eq!(root_5_6_items[1].1, Value::Int32(154770038));
                    assert_eq!(root_5_6_items[2].0, "k2");
                    assert_eq!(root_5_6_items[2].1, Value::Empty(SubType::new(4095).unwrap()));
                    assert_eq!(root_5_6_items[3].0, "k3xxx");
                    assert_eq!(root_5_6_items[3].1, Value::Int64(-3268753683936287607));
                    assert_eq!(root_5_6_items[4].0, "k4xx");
                    assert_eq!(root_5_6_items[4].1, Value::False);
                    assert_eq!(root_5_6_items[5].0, "k5x");
                    assert_eq!(root_5_6_items[5].1, Value::UserText(SubType::new(5).unwrap(), "aca"));
                },
                other => panic!("not a container: {:?}", other),
            }
            assert_eq!(root_5_items[7].0, -276697795);
            match &root_5_items[7].1 {
                Value::List(root_5_7) => {
                    assert_eq!(root_5_7.count(), 0);
                    let root_5_7_items = root_5_7.iter();
                    assert_eq!(root_5_7_items.len(), 0);
                },
                other => panic!("not a container: {:?}", other),
            }
            assert_eq!(root_5_items[8].0, 106001749);
            assert_eq!(root_5_items[8].1, Value::UInt64(3933213693934291772));
        },
        other => panic!("not a container: {:?}", other),
    }
    assert_eq!(root_items[6].0, "k6xx");
    match &root_items[6].1 {
        Value::Object(root_6) => {
            assert_eq!(root_6.count(), 3);
            let root_6_items = root_6.iter();
            assert_eq!(root_6_items.len(), 3);
            assert_eq!(root_6_items[0].0, "k0xxx");
            assert_eq!(root_6_items[0].1, Value::Date("y0x 01az zx9b1z c9 x0b10cx11ca9z yc "));
            assert_eq!(root_6_items[1].0, "k1");
            match &root_6_items[1].1 {
                Value::List(root_6_1) => {
                    assert_eq!(root_6_1.count(), 2);
                    let root_6_1_items = root_6_1.iter();
                    assert_eq!(root_6_1_items.len(), 2);
                    assert_eq!(root_6_1_items[0], Value::UserBlob(SubType::new(4000).unwrap(), &[0xb2, 0xf7, 0x13, 0xe2, 0x66, 0x20, 0xd3]));
                    assert_eq!(root_6_1_items[1], Value::Text("b9ya9990ybbyya01"));
                },
                other => panic!("not a container: {:?}", other),
            }
            assert_eq!(root_6_items[2].0, "k2x");
            assert_eq!(root_6_items[2].1, Value::UserText(SubType::new(15).unwrap(), "baaccbbc"));
        },
        other => panic!("not a container: {:?}", other),
    }
    assert_eq!(root_items[7].0, "k7");
    match &root_items[7].1 {
        Value::List(root_7) => {
            assert_eq!(root_7.count(), 9);
            let root_7_items = root_7.iter();
            assert_eq!(root_7_items.len(), 9);
            match &root_7_items[0] {
                Value::List(root_7_0) => {
                    assert_eq!(root_7_0.count(), 5);
                    let root_7_0_items = root_7_0.iter();
                    assert_eq!(root_7_0_items.len(), 5);
                    assert_eq!(root_7_0_items[0], Value::Int32(11262209));
                    assert_eq!(root_7_0_items[1], Value::UInt16(23986));
                    assert_eq!(root_7_0_items[2], Value::Int32(1450584460));
                    assert_eq!(root_7_0_items[3], Value::UserBlob(SubType::new(1).unwrap(), &[0x20, 0x17, 0x0f, 0xb1, 0xe5, 0xb6, 0x1b, 0x6e, 0x12]));
                    assert_eq!(root_7_0_items[4], Value::Int8(-25));
                },
                other => panic!("not a container: {:?}", other),
            }
            assert_eq!(root_7_items[1], Value::Null);
            match &root_7_items[2] {
                Value::IntMap(root_7_2) => {
                    assert_eq!(root_7_2.count(), 0);
                    let root_7_2_items = root_7_2.iter();
                    assert_eq!(root_7_2_items.len(), 0);
                },
                other => panic!("not a container: {:?}", other),
            }
            assert_eq!(root_7_items[3], Value::Int64(3898258294992892105));
            assert_eq!(root_7_items[4], Value::Int16(31266));
            assert_eq!(root_7_items[5], Value::UInt8(201));
            assert_eq!(root_7_items[6], Value::UserText(SubType::new(16).unwrap(), "bccb"));
            assert_eq!(root_7_items[7], Value::UInt32(3566493911));
            assert_eq!(root_7_items[8], Value::Null);
        },
        other => panic!("not a container: {:?}", other),
    }
    assert_eq!(root_items[8].0, "k8xxxxx");
    match &root_items[8].1 {
        Value::IntMap(root_8) => {
            assert_eq!(root_8.count(), 2);
            let root_8_items = root_8.iter();
            assert_eq!(root_8_items.len(), 2);
            assert_eq!(root_8_items[0].0, 1924784813);
            assert_eq!(root_8_items[0].1, Value::UserText(SubType::new(16).unwrap(), "bbacbaba"));
            assert_eq!(root_8_items[1].0, 738009841);
            assert_eq!(root_8_items[1].1, Value::UInt16(53872));
        },
        other => panic!("not a container: {:?}", other),
    }
}

#[test]
fn document_3_is_written() {
    let expected: Vec<u8> = vec![
        0xE1, 0x29, 0x02, 0xD1, 0xD4, 0xFC, 0x15, 0xE1, 0x19, 0x03, 0x90, 0xE8, 0xC6, 0x7F,
        0xA2, 0x01, 0x7A, 0x00, 0x5F, 0x8E, 0xDA, 0xB1, 0x42, 0x97, 0x16, 0x0B, 0xEE, 0x3B,
        0x27, 0x42, 0x74, 0xF9, 0xE2, 0xFB, 0xFD, 0xC8, 0xA5, 0x02, 0x62, 0x62, 0x00,
    ];

    let mut buf = vec![0xA5u8; 42];
    let mut root = IntMap::empty_mut(Allocation::from(buf.as_mut_slice())).unwrap();
    {
        let mut root_0: IntMap =
            root.add_value(-774570987, IntMap::empty().into()).unwrap().try_into().unwrap();
        root_0.add_value(-1863793025, Value::Date("z")).unwrap();
        root_0.add_value(1603197617, Value::Word(SubType::new(2).unwrap(), 38678)).unwrap();
        root_0.add_value(200162087, Value::Word(SubType::new(2).unwrap(), 29945)).unwrap();
        assert_eq!(root_0.count(), 3);
    }
    root.add_value(-486801976, Value::UserText(SubType::new(5).unwrap(), "bb")).unwrap();
    assert_eq!(expected, root.as_bytes());
}

#[test]
fn document_3_is_read() {
    let bytes: Vec<u8> = vec![
        0xE1, 0x29, 0x02, 0xD1, 0xD4, 0xFC, 0x15, 0xE1, 0x19, 0x03, 0x90, 0xE8, 0xC6, 0x7F,
        0xA2, 0x01, 0x7A, 0x00, 0x5F, 0x8E, 0xDA, 0xB1, 0x42, 0x97, 0x16, 0x0B, 0xEE, 0x3B,
        0x27, 0x42, 0x74, 0xF9, 0xE2, 0xFB, 0xFD, 0xC8, 0xA5, 0x02, 0x62, 0x62, 0x00,
    ];

    let root: IntMap = Value::deserialize(bytes.as_slice()).unwrap().try_into().unwrap();
    assert_eq!(root.as_bytes(), bytes.as_slice());
    assert_eq!(root.count(), 2);
    let root_items = root.iter();
    assert_eq!(root_items.len(), 2);
    assert_eq!(root_items[0].0, -774570987);
    match &root_items[0].1 {
        Value::IntMap(root_0) => {
            assert_eq!(root_0.count(), 3);
            let root_0_items = root_0.iter();
            assert_eq!(root_0_items.len(), 3);
            assert_eq!(root_0_items[0].0, -1863793025);
            assert_eq!(root_0_items[0].1, Value::Date("z"));
            assert_eq!(root_0_items[1].0, 1603197617);
            assert_eq!(root_0_items[1].1, Value::Word(SubType::new(2).unwrap(), 38678));
            assert_eq!(root_0_items[2].0, 200162087);
            assert_eq!(root_0_items[2].1, Value::Word(SubType::new(2).unwrap(), 29945));
        },
        other => panic!("not a container: {:?}", other),
    }
    assert_eq!(root_items[1].0, -486801976);
    assert_eq!(root_items[1].1, Value::UserText(SubType::new(5).unwrap(), "bb"));
}

#[test]
fn document_4_is_written() {
    let expected: Vec<u8> = vec![
        0xE1, 0x80, 0x00, 0x00, 0xAB, 0x03, 0x4F, 0x21, 0xA7, 0x07, 0xAF, 0x03, 0x62, 0x63,
        0x61, 0x00, 0x36, 0xEC, 0x7F, 0x90, 0xA0, 0x04, 0x39, 0x78, 0x61, 0x63, 0x00, 0xD7,
        0x36, 0x8A, 0xC6, 0xE0, 0x80, 0x00, 0x00, 0x8C, 0x10, 0x81, 0xCD, 0x8C, 0x00, 0x6D,
        0x6E, 0x6B, 0xBD, 0xAB, 0x20, 0xDA, 0x20, 0xF5, 0x01, 0x80, 0x07, 0x9E, 0x03, 0x31,
        0x8D, 0x61, 0x9B, 0x09, 0x00, 0xA2, 0x12, 0x31, 0x61, 0x63, 0x31, 0x30, 0x31, 0x30,
        0x31, 0x63, 0x78, 0x31, 0x63, 0x63, 0x31, 0x63, 0x63, 0x61, 0x31, 0x00, 0x21, 0x36,
        0xA5, 0x09, 0x62, 0x61, 0x62, 0x62, 0x63, 0x62, 0x63, 0x62, 0x62, 0x00, 0x60, 0xCC,
        0x17, 0x45, 0x56, 0xC1, 0x07, 0xF3, 0xD2, 0x7F, 0x86, 0x70, 0x49, 0xDE, 0xA0, 0x1F,
        0x39, 0x61, 0x62, 0x78, 0x79, 0x62, 0x62, 0x62, 0x30, 0x39, 0x31, 0x7A, 0x31, 0x63,
        0x7A, 0x61, 0x62, 0x7A, 0x20, 0x78, 0x79, 0x39, 0x61, 0x78, 0x7A, 0x39, 0x31, 0x20,
        0x61, 0x61, 0x30, 0x00, 0x60, 0xE2, 0x01, 0x25, 0xB6, 0xC0, 0x12, 0x1F, 0x10, 0x0C,
        0x6D, 0x50, 0x36, 0x98, 0xB5, 0xC7, 0x7B, 0x83, 0xC6, 0x8A, 0x7E, 0xAC, 0x5B, 0x82,
        0x77, 0x01, 0x00,
    ];

    let mut buf = vec![0xA5u8; 171];
    let mut root = IntMap::empty_mut(Allocation::from(buf.as_mut_slice())).unwrap();
    root.add_value(1327605511, Value::UserText(SubType::new(15).unwrap(), "bca")).unwrap();
    root.add_value(921468816, Value::from("9xac")).unwrap();
    {
        let mut root_2: List =
            root.add_value(-684291386, List::empty().into()).unwrap().try_into().unwrap();
        root_2.add_value(Value::from(-3635530329190842965i64)).unwrap();
        root_2.add_value(Value::from(218u8)).unwrap();
        root_2.add_value(Value::from(245u8)).unwrap();
        root_2.add_value(Value::from(true)).unwrap();
        root_2.add_value(Value::from(548879715946044169u64)).unwrap();
        root_2.add_value(Value::Null).unwrap();
        root_2.add_value(Value::Date("1ac10101cx1cc1cca1")).unwrap();
        root_2.add_value(Value::from(54i8)).unwrap();
        root_2.add_value(Value::UserText(SubType::new(5).unwrap(), "babbcbcbb")).unwrap();
        root_2.add_value(Value::from(3424077142u32)).unwrap();
        root_2.add_value(Value::UserBlob(SubType::new(1).unwrap(), &[0xf3, 0xd2, 0x7f, 0x86, 0x70, 0x49, 0xde])).unwrap();
        root_2.add_value(Value::from("9abxybbb091z1czabz xy9axz91 aa0")).unwrap();
        root_2.add_value(Value::from(3791726006u32)).unwrap();
        root_2.add_value(Value::from([0x1fu8, 0x10u8, 0x0cu8, 0x6du8, 0x50u8, 0x36u8, 0x98u8, 0xb5u8, 0xc7u8, 0x7bu8, 0x83u8, 0xc6u8, 0x8au8, 0x7eu8, 0xacu8, 0x5bu8, 0x82u8, 0x77u8].as_slice())).unwrap();
        root_2.add_value(Value::from(true)).unwrap();
        root_2.add_value(Value::Null).unwrap();
        assert_eq!(root_2.count(), 16);
    }
    assert_eq!(expected, root.as_bytes());
}

#[test]
fn document_4_is_read() {
    let bytes: Vec<u8> = vec![
        0xE1, 0x80, 0x00, 0x00, 0xAB, 0x03, 0x4F, 0x21, 0xA7, 0x07, 0xAF, 0x03, 0x62, 0x63,
        0x61, 0x00, 0x36, 0xEC, 0x7F, 0x90, 0xA0, 0x04, 0x39, 0x78, 0x61, 0x63, 0x00, 0xD7,
        0x36, 0x8A, 0xC6, 0xE0, 0x80, 0x00, 0x00, 0x8C, 0x10, 0x81, 0xCD, 0x8C, 0x00, 0x6D,
        0x6E, 0x6B, 0xBD, 0xAB, 0x20, 0xDA, 0x20, 0xF5, 0x01, 0x80, 0x07, 0x9E, 0x03, 0x31,
        0x8D, 0x61, 0x9B, 0x09, 0x00, 0xA2, 0x12, 0x31, 0x61, 0x63, 0x31, 0x30, 0x31, 0x30,
        0x31, 0x63, 0x78, 0x31, 0x63, 0x63, 0x31, 0x63, 0x63, 0x61, 0x31, 0x00, 0x21, 0x36,
        0xA5, 0x09, 0x62, 0x61, 0x62, 0x62, 0x63, 0x62, 0x63, 0x62, 0x62, 0x00, 0x60, 0xCC,
        0x17, 0x45, 0x56, 0xC1, 0x07, 0xF3, 0xD2, 0x7F, 0x86, 0x70, 0x49, 0xDE, 0xA0, 0x1F,
        0x39, 0x61, 0x62, 0x78, 0x79, 0x62, 0x62, 0x62, 0x30, 0x39, 0x31, 0x7A, 0x31, 0x63,
        0x7A, 0x61, 0x62, 0x7A, 0x20, 0x78, 0x79, 0x39, 0x61, 0x78, 0x7A, 0x39, 0x31, 0x20,
        0x61, 0x61, 0x30, 0x00, 0x60, 0xE2, 0x01, 0x25, 0xB6, 0xC0, 0x12, 0x1F, 0x10, 0x0C,
        0x6D, 0x50, 0x36, 0x98, 0xB5, 0xC7, 0x7B, 0x83, 0xC6, 0x8A, 0x7E, 0xAC, 0x5B, 0x82,
        0x77, 0x01, 0x00,
    ];

    let root: IntMap = Value::deserialize(bytes.as_slice()).unwrap().try_into().unwrap();
    assert_eq!(root.as_bytes(), bytes.as_slice());
    assert_eq!(root.count(), 3);
    let root_items = root.iter();
    assert_eq!(root_items.len(), 3);
    assert_eq!(root_items[0].0, 1327605511);
    assert_eq!(root_items[0].1, Value::UserText(SubType::new(15).unwrap(), "bca"));
    assert_eq!(root_items[1].0, 921468816);
    assert_eq!(root_items[1].1, Value::Text("9xac"));
    assert_eq!(root_items[2].0, -684291386);
    match &root_items[2].1 {
        Value::List(root_2) => {
            assert_eq!(root_2.count(), 16);
            let root_2_items = root_2.iter();
            assert_eq!(root_2_items.len(), 16);
            assert_eq!(root_2_items[0], Value::Int64(-3635530329190842965));
            assert_eq!(root_2_items[1], Value::UInt8(218));
            assert_eq!(root_2_items[2], Value::UInt8(245));
            assert_eq!(root_2_items[3], Value::True);
            assert_eq!(root_2_items[4], Value::UInt64(548879715946044169));
            assert_eq!(root_2_items[5], Value::Null);
            assert_eq!(root_2_items[6], Value::Date("1ac10101cx1cc1cca1"));
            assert_eq!(root_2_items[7], Value::Int8(54));
            assert_eq!(root_2_items[8], Value::UserText(SubType::new(5).unwrap(), "babbcbcbb"));
            assert_eq!(root_2_items[9], Value::UInt32(3424077142));
            assert_eq!(root_2_items[10], Value::UserBlob(SubType::new(1).unwrap(), &[0xf3, 0xd2, 0x7f, 0x86, 0x70, 0x49, 0xde]));
            assert_eq!(root_2_items[11], Value::Text("9abxybbb091z1czabz xy9axz91 aa0"));
            assert_eq!(root_2_items[12], Value::UInt32(3791726006));
            assert_eq!(root_2_items[13], Value::Blob(&[0x1f, 0x10, 0x0c, 0x6d, 0x50, 0x36, 0x98, 0xb5, 0xc7, 0x7b, 0x83, 0xc6, 0x8a, 0x7e, 0xac, 0x5b, 0x82, 0x77]));
            assert_eq!(root_2_items[14], Value::True);
            assert_eq!(root_2_items[15], Value::Null);
        },
        other => panic!("not a container: {:?}", other),
    }
}

#[test]
fn document_5_is_written() {
    let expected: Vec<u8> = vec![
        0xE1, 0x20, 0x03, 0x4E, 0xA6, 0xFB, 0x83, 0xD0, 0x10, 0x05, 0x5B, 0xFA, 0x3E, 0xA5,
        0xBC, 0xC3, 0xD7, 0x15, 0x7C, 0xC1, 0x04, 0x1C, 0xAE, 0xFB, 0x30, 0x61, 0x00, 0x90,
        0xFD, 0xE2, 0x03, 0x00,
    ];

    let mut buf = vec![0xA5u8; 32];
    let mut root = IntMap::empty_mut(Allocation::from(buf.as_mut_slice())).unwrap();
    root.add_value(1319566211, Value::UserBlob(SubType::new(16).unwrap(), &[0x5b, 0xfa, 0x3e, 0xa5, 0xbc])).unwrap();
    root.add_value(-1009314436, Value::UserBlob(SubType::new(1).unwrap(), &[0x1c, 0xae, 0xfb, 0x30])).unwrap();
    {
        let mut root_2: Object =
            root.add_value(1627427069, Object::empty().into()).unwrap().try_into().unwrap();
        assert_eq!(root_2.count(), 0);
    }
    assert_eq!(expected, root.as_bytes());
}

#[test]
fn document_5_is_read() {
    let bytes: Vec<u8> = vec![
        0xE1, 0x20, 0x03, 0x4E, 0xA6, 0xFB, 0x83, 0xD0, 0x10, 0x05, 0x5B, 0xFA, 0x3E, 0xA5,
        0xBC, 0xC3, 0xD7, 0x15, 0x7C, 0xC1, 0x04, 0x1C, 0xAE, 0xFB, 0x30, 0x61, 0x00, 0x90,
        0xFD, 0xE2, 0x03, 0x00,
    ];

    let root: IntMap = Value::deserialize(bytes.as_slice()).unwrap().try_into().unwrap();
    assert_eq!(root.as_bytes(), bytes.as_slice());
    assert_eq!(root.count(), 3);
    let root_items = root.iter();
    assert_eq!(root_items.len(), 3);
    assert_eq!(root_items[0].0, 1319566211);
    assert_eq!(root_items[0].1, Value::UserBlob(SubType::new(16).unwrap(), &[0x5b, 0xfa, 0x3e, 0xa5, 0xbc]));
    assert_eq!(root_items[1].0, -1009314436);
    assert_eq!(root_items[1].1, Value::UserBlob(SubType::new(1).unwrap(), &[0x1c, 0xae, 0xfb, 0x30]));
    assert_eq!(root_items[2].0, 1627427069);
    match &root_items[2].1 {
        Value::Object(root_2) => {
            assert_eq!(root_2.count(), 0);
            let root_2_items = root_2.iter();
            assert_eq!(root_2_items.len(), 0);
        },
        other => panic!("not a container: {:?}", other),
    }
}

#[test]
fn count_promotion_in_a_nested_list() {
    let expected: Vec<u8> = vec![
        0xE2, 0x80, 0x00, 0x00, 0x9E, 0x02, 0x05, 0x66, 0x69, 0x72, 0x73, 0x74, 0x20, 0x01,
        0x04, 0x6D, 0x61, 0x6E, 0x79, 0xE0, 0x80, 0x00, 0x00, 0x8B, 0x80, 0x00, 0x00, 0x82,
        0x01, 0x01, 0x01, 0x01, 0x01, 0x01, 0x01, 0x01, 0x01, 0x01, 0x01, 0x01, 0x01, 0x01,
        0x01, 0x01, 0x01, 0x01, 0x01, 0x01, 0x01, 0x01, 0x01, 0x01, 0x01, 0x01, 0x01, 0x01,
        0x01, 0x01, 0x01, 0x01, 0x01, 0x01, 0x01, 0x01, 0x01, 0x01, 0x01, 0x01, 0x01, 0x01,
        0x01, 0x01, 0x01, 0x01, 0x01, 0x01, 0x01, 0x01, 0x01, 0x01, 0x01, 0x01, 0x01, 0x01,
        0x01, 0x01, 0x01, 0x01, 0x01, 0x01, 0x01, 0x01, 0x01, 0x01, 0x01, 0x01, 0x01, 0x01,
        0x01, 0x01, 0x01, 0x01, 0x01, 0x01, 0x01, 0x01, 0x01, 0x01, 0x01, 0x01, 0x01, 0x01,
        0x01, 0x01, 0x01, 0x01, 0x01, 0x01, 0x01, 0x01, 0x01, 0x01, 0x01, 0x01, 0x01, 0x01,
        0x01, 0x01, 0x01, 0x01, 0x01, 0x01, 0x01, 0x01, 0x01, 0x01, 0x01, 0x01, 0x01, 0x01,
        0x01, 0x01, 0x01, 0x01, 0x01, 0x01, 0x01, 0x01, 0x01, 0x01, 0x01, 0x01, 0x01, 0x01,
        0x01, 0x01, 0x01, 0x01,
    ];

    let mut buf = vec![0u8; 158];
    let mut root = Object::empty_mut(Allocation::from(buf.as_mut_slice())).unwrap();
    root.add_value("first", Value::from(1u8)).unwrap();
    {
        let mut many: List =
            root.add_value("many", List::empty().into()).unwrap().try_into().unwrap();
        for _ in 0..130 {
            many.add_value(Value::True).unwrap();
        }
        assert_eq!(many.count(), 130);
    }
    assert_eq!(root.count(), 2);
    assert_eq!(expected, root.as_bytes());
    let read: Object = Value::deserialize(&expected).unwrap().try_into().unwrap();
    assert_eq!(read, root);
}
