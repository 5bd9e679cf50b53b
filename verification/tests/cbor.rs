use passkey::cbor::{decode_cbor, read_uint, silent, Cbor};

#[test]
fn detects_presence_free_get_assertion() {
    // command 2, map {5: {"up": false}}
    assert!(silent(&[0x02, 0xa1, 0x05, 0xa1, 0x62, b'u', b'p', 0xf4]));
    assert!(!silent(&[0x02, 0xa1, 0x05, 0xa1, 0x62, b'u', b'p', 0xf5]));
    assert!(!silent(&[0x04]));
}

#[test]
fn presence_is_waived_by_one_option() {
    // map {1: "a", 5: {"uv": true, "up": false}}
    assert!(silent(&[
        0x02, 0xa2, 0x01, 0x61, b'a', 0x05, 0xa2, 0x62, b'u', b'v', 0xf5, 0x62, b'u', b'p', 0xf4
    ]));
    assert!(!silent(&[0x01, 0xa1, 0x05, 0xa1, 0x62, b'u', b'p', 0xf4]));
    assert!(!silent(&[0x02, 0xa1, 0x06, 0xa1, 0x62, b'u', b'p', 0xf4]));
    assert!(!silent(&[0x02, 0xa1, 0x05, 0xa1, 0x62, b'u', b'v', 0xf4]));
    assert!(!silent(&[0x02, 0xa1, 0x05, 0x81, 0x62]));
    assert!(!silent(&[]));
}

fn integer(input: &[u8]) -> Option<i64> {
    match decode_cbor(input, &mut 0, 0) {
        Ok(Cbor::Integer(value)) => Some(value),
        _ => None,
    }
}

#[test]
fn integers() {
    assert_eq!(integer(&[0x17]), Some(23));
    assert_eq!(integer(&[0x18, 0x64]), Some(100));
    assert_eq!(integer(&[0x19, 0x03, 0xe8]), Some(1000));
    assert_eq!(integer(&[0x1a, 0x00, 0x0f, 0x42, 0x40]), Some(1_000_000));
    assert_eq!(integer(&[0x1b, 0, 0, 0, 0xe8, 0xd4, 0xa5, 0x10, 0]), Some(1_000_000_000_000));
    assert_eq!(integer(&[0x20]), Some(-1));
    assert_eq!(integer(&[0x39, 0x03, 0xe7]), Some(-1000));
    assert_eq!(integer(&[0x3b, 0x7f, 255, 255, 255, 255, 255, 255, 255]), Some(i64::MIN));
    assert_eq!(integer(&[0x1b, 0x80, 0, 0, 0, 0, 0, 0, 0]), None);
    assert_eq!(integer(&[0x1c]), None);
    assert_eq!(integer(&[0x18]), None);
    assert_eq!(integer(&[]), None);
    assert_eq!(integer(&[0xc0, 0x05]), Some(5));
}

#[test]
fn other_items() {
    let decode = |input: &[u8]| {
        let mut offset = 0;
        let item = decode_cbor(input, &mut offset, 0);
        (item, offset)
    };
    assert!(matches!(decode(&[0xf4]), (Ok(Cbor::Bool(false)), 1)));
    assert!(matches!(decode(&[0xf5]), (Ok(Cbor::Bool(true)), 1)));
    assert!(matches!(decode(&[0xf6]), (Ok(Cbor::Null), 1)));
    assert!(matches!(decode(&[0xf7]), (Err(()), 1)));
    assert!(matches!(decode(&[0x42, 1, 2, 3]), (Ok(Cbor::Bytes(bytes)), 3) if bytes == [1, 2]));
    assert!(matches!(decode(&[0x42, 1]), (Err(()), _)));
    assert!(matches!(decode(&[0x62, 0xc3, 0xa9]), (Ok(Cbor::Text(text)), 3) if text == "\u{e9}"));
    assert!(matches!(decode(&[0x61, 0xff]), (Err(()), _)));
    assert!(matches!(decode(&[0x82, 1, 2]), (Ok(Cbor::Array(items)), 3) if items.len() == 2));
    assert!(matches!(decode(&[0x82, 1]), (Err(()), _)));
    assert!(matches!(decode(&[0xa1, 1, 2]), (Ok(Cbor::Mapping(pairs)), 3) if pairs.len() == 1));
}

#[test]
fn items_are_not_nested_too_deep() {
    let mut deep = vec![0x81; 8];
    deep.push(0);
    assert!(decode_cbor(&deep, &mut 0, 0).is_ok());
    deep.insert(0, 0x81);
    assert!(decode_cbor(&deep, &mut 0, 0).is_err());
}

#[test]
fn decoding_reads_only_the_item() {
    let mut offset = 1;
    assert!(decode_cbor(&[0xff, 0x82, 0x01, 0x41, 0x09, 0xff], &mut offset, 0).is_ok());
    assert_eq!(offset, 5);
}

#[test]
fn whole_item_is_whole_at_a_lesser_depth() {
    let item = [0x82, 0x81, 0x07, 0xa1, 0x01, 0x02];
    for depth in 0..=6 {
        let mut offset = 0;
        assert!(decode_cbor(&item, &mut offset, depth).is_ok());
        assert_eq!(offset, item.len());
    }
    assert!(decode_cbor(&item, &mut 0, 7).is_err());
}

#[test]
fn numbers_in_bytes() {
    let mut offset = 1;
    assert_eq!(read_uint(&[0, 1, 2, 3], &mut offset, 2), Ok(0x0102));
    assert_eq!(offset, 3);
    assert_eq!(read_uint(&[0, 1, 2, 3], &mut offset, 2), Err(()));
    assert_eq!(offset, 3);
    assert_eq!(read_uint(&[], &mut usize::MAX.clone(), 2), Err(()));
}
