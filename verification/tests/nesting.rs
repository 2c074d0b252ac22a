use binn_rs::{Allocation, IntMap, List, Object, Value};

#[test]
fn nested_containers_promote_every_length() {
    let expected: Vec<u8> = vec![
        0xE2, 0x80, 0x00, 0x00, 0xBE, 0x02, 0x04, 0x68, 0x65, 0x61, 0x64, 0x20, 0x01, 0x04,
        0x6E, 0x65, 0x73, 0x74, 0xE1, 0x80, 0x00, 0x00, 0xAC, 0x02, 0x00, 0x00, 0x00, 0x07,
        0xA0, 0x05, 0x66, 0x69, 0x72, 0x73, 0x74, 0x00, 0x00, 0x00, 0x00, 0x08, 0xE0, 0x80,
        0x00, 0x00, 0x96, 0x10, 0x80, 0x00, 0x00, 0x00, 0x00, 0x00, 0x00, 0x03, 0xE8, 0x80,
        0x00, 0x00, 0x00, 0x00, 0x00, 0x00, 0x03, 0xE9, 0x80, 0x00, 0x00, 0x00, 0x00, 0x00,
        0x00, 0x03, 0xEA, 0x80, 0x00, 0x00, 0x00, 0x00, 0x00, 0x00, 0x03, 0xEB, 0x80, 0x00,
        0x00, 0x00, 0x00, 0x00, 0x00, 0x03, 0xEC, 0x80, 0x00, 0x00, 0x00, 0x00, 0x00, 0x00,
        0x03, 0xED, 0x80, 0x00, 0x00, 0x00, 0x00, 0x00, 0x00, 0x03, 0xEE, 0x80, 0x00, 0x00,
        0x00, 0x00, 0x00, 0x00, 0x03, 0xEF, 0x80, 0x00, 0x00, 0x00, 0x00, 0x00, 0x00, 0x03,
        0xF0, 0x80, 0x00, 0x00, 0x00, 0x00, 0x00, 0x00, 0x03, 0xF1, 0x80, 0x00, 0x00, 0x00,
        0x00, 0x00, 0x00, 0x03, 0xF2, 0x80, 0x00, 0x00, 0x00, 0x00, 0x00, 0x00, 0x03, 0xF3,
        0x80, 0x00, 0x00, 0x00, 0x00, 0x00, 0x00, 0x03, 0xF4, 0x80, 0x00, 0x00, 0x00, 0x00,
        0x00, 0x00, 0x03, 0xF5, 0x80, 0x00, 0x00, 0x00, 0x00, 0x00, 0x00, 0x03, 0xF6, 0x80,
        0x00, 0x00, 0x00, 0x00, 0x00, 0x00, 0x03, 0xF7,
    ];

    let mut buf = vec![0; 512];
    let mut root = Object::empty_mut(Allocation::from(buf.as_mut_slice())).unwrap();
    root.add_value("head", Value::from(1u8)).unwrap();
    {
        let mut middle: IntMap =
            root.add_value("nest", IntMap::empty().into()).unwrap().try_into().unwrap();
        middle.add_value(7, Value::from("first")).unwrap();
        let mut inner: List =
            middle.add_value(8, List::empty().into()).unwrap().try_into().unwrap();
        for i in 0..16u64 {
            inner.add_value(Value::from(1000 + i)).unwrap();
        }
        assert_eq!(inner.count(), 16);
        assert_eq!(inner.as_bytes().len(), 6 + 16 * 9);
    }
    assert_eq!(root.count(), 2);
    assert_eq!(expected, root.as_bytes());
}

#[test]
fn parent_is_used_again_after_each_child() {
    let expected: Vec<u8> = vec![
        0xE2, 0x1E, 0x04, 0x01, 0x61, 0xE0, 0x07, 0x02, 0x20, 0x01, 0x20, 0x02, 0x01, 0x62,
        0x40, 0x02, 0x03, 0x01, 0x63, 0xE1, 0x08, 0x01, 0x00, 0x00, 0x00, 0x01, 0x01, 0x01,
        0x64, 0x00,
    ];

    let mut buf = vec![0; 64];
    let mut root = Object::empty_mut(Allocation::from(buf.as_mut_slice())).unwrap();
    {
        let mut a: List = root.add_value("a", List::empty().into()).unwrap().try_into().unwrap();
        a.add_value(Value::from(1u8)).unwrap();
        a.add_value(Value::from(2u8)).unwrap();
    }
    root.add_value("b", Value::from(515u16)).unwrap();
    {
        let mut c: IntMap =
            root.add_value("c", IntMap::empty().into()).unwrap().try_into().unwrap();
        c.add_value(1, Value::from(true)).unwrap();
    }
    root.add_value("d", Value::Null).unwrap();
    assert_eq!(root.count(), 4);
    assert_eq!(expected, root.as_bytes());
}

#[test]
fn child_is_used_after_an_ancestor_was_promoted() {
    let expected: Vec<u8> = vec![
        0xE0, 0x80, 0x00, 0x00, 0x8D, 0x02, 0xC0, 0x64, 0x00, 0x01, 0x02, 0x03, 0x04, 0x05,
        0x06, 0x07, 0x08, 0x09, 0x0A, 0x0B, 0x0C, 0x0D, 0x0E, 0x0F, 0x10, 0x11, 0x12, 0x13,
        0x14, 0x15, 0x16, 0x17, 0x18, 0x19, 0x1A, 0x1B, 0x1C, 0x1D, 0x1E, 0x1F, 0x20, 0x21,
        0x22, 0x23, 0x24, 0x25, 0x26, 0x27, 0x28, 0x29, 0x2A, 0x2B, 0x2C, 0x2D, 0x2E, 0x2F,
        0x30, 0x31, 0x32, 0x33, 0x34, 0x35, 0x36, 0x37, 0x38, 0x39, 0x3A, 0x3B, 0x3C, 0x3D,
        0x3E, 0x3F, 0x40, 0x41, 0x42, 0x43, 0x44, 0x45, 0x46, 0x47, 0x48, 0x49, 0x4A, 0x4B,
        0x4C, 0x4D, 0x4E, 0x4F, 0x50, 0x51, 0x52, 0x53, 0x54, 0x55, 0x56, 0x57, 0x58, 0x59,
        0x5A, 0x5B, 0x5C, 0x5D, 0x5E, 0x5F, 0x60, 0x61, 0x62, 0x63, 0xE0, 0x21, 0x01, 0xE0,
        0x1E, 0x03, 0x80, 0x00, 0x00, 0x00, 0x00, 0x00, 0x00, 0x00, 0x00, 0x80, 0x00, 0x00,
        0x00, 0x00, 0x00, 0x00, 0x00, 0x01, 0x80, 0x00, 0x00, 0x00, 0x00, 0x00, 0x00, 0x00,
        0x02,
    ];

    let filler: Vec<u8> = (0..100u8).collect();
    let mut buf = vec![0; 256];
    let mut root = List::empty_mut(Allocation::from(buf.as_mut_slice())).unwrap();
    root.add_value(Value::from(filler.as_slice())).unwrap();
    assert_eq!(root.as_bytes().len(), 3 + 102);
    {
        let mut middle: List = root.add_value(List::empty().into()).unwrap().try_into().unwrap();
        let mut inner: List = middle.add_value(List::empty().into()).unwrap().try_into().unwrap();
        // 105 + 3 + 3 = 111 bytes so far; two values of 9 bytes push the root over 127
        inner.add_value(Value::from(0u64)).unwrap();
        inner.add_value(Value::from(1u64)).unwrap();
        inner.add_value(Value::from(2u64)).unwrap();
        assert_eq!(inner.as_bytes().len(), 3 + 27);
        assert_eq!(inner.get(2), Some(Value::UInt64(2)));
    }
    assert_eq!(root.count(), 2);
    assert_eq!(expected, root.as_bytes());
}
