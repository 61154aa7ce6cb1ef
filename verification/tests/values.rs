use bytes::BytesMut;
use feature_base::feature::value::{FeatureValue, ValueKind};
use feature_base::store::page::Page;
use std::io::Cursor;

#[test]
fn test_value_serialize() {
    let v = ValueKind::Int(212);
    let v2 = ValueKind::Float(212222.0f64.to_bits());

    let mut feature_value = FeatureValue::new();
    feature_value.set(1, v);

    let mut feature_value2 = FeatureValue::new();
    feature_value2.set(1, v2);

    let mut page = Page::new(5, 1, 0, u64::MAX);
    page.put("xxx杨".to_string(), feature_value).unwrap();
    page.put("xxx杨2".to_string(), feature_value2).unwrap();

    let mut buf = BytesMut::new();
    page.encode(&mut buf).unwrap();
    println!("buf:{:?}", buf.len());
    println!("buf:{:?}", buf);

    let mut cursor: Cursor<&[u8]> = Cursor::new(&*buf);
    let v = Page::decode(&mut cursor).expect("aaa");
    println!("v:{:?}", v);
    println!("v.need_space:{:?}", v.need_space());
    println!("buf:{:?}", buf.len());
    println!("buf:{:?}", buf);

    assert_eq!(v.need_space(), buf.len());
    assert_eq!(v.slot_id(), 5);
    assert_eq!(v.id(), 1);
    assert_eq!(v.len(), 2);
    assert_eq!(
        v.get(&"xxx杨".to_string()).unwrap().get(1),
        Some(ValueKind::Int(212))
    );
    assert_eq!(
        v.get(&"xxx杨2".to_string()).unwrap().get(1),
        Some(ValueKind::Float(212222.0f64.to_bits()))
    );
}

#[test]
fn a_value_kind_takes_nine_bytes() {
    let mut buf = BytesMut::new();
    ValueKind::Int(212).encode(&mut buf).unwrap();
    assert_eq!(&buf[..], &[1u8, 0, 0, 0, 0, 0, 0, 0, 212][..]);
    assert_eq!(ValueKind::Int(212).need_space(), 9);
    let mut buf = BytesMut::new();
    ValueKind::Float(1.5f64.to_bits()).encode(&mut buf).unwrap();
    assert_eq!(&buf[..], &[2u8, 0x3f, 0xf8, 0, 0, 0, 0, 0, 0][..]);
    let mut cursor: Cursor<&[u8]> = Cursor::new(&buf[..]);
    assert_eq!(
        ValueKind::decode(&mut cursor).unwrap(),
        ValueKind::Float(1.5f64.to_bits())
    );
    assert_eq!(cursor.position(), 9);
}

#[test]
fn a_value_kind_with_an_unknown_tag_is_bad() {
    let bytes = [3u8, 0, 0, 0, 0, 0, 0, 0, 1];
    let mut cursor: Cursor<&[u8]> = Cursor::new(&bytes[..]);
    assert_eq!(ValueKind::decode(&mut cursor).unwrap_err().code, 10000);
    let short = [1u8, 0, 0];
    let mut cursor: Cursor<&[u8]> = Cursor::new(&short[..]);
    assert_eq!(ValueKind::decode(&mut cursor).unwrap_err().code, 20001);
    let empty: [u8; 0] = [];
    let mut cursor: Cursor<&[u8]> = Cursor::new(&empty[..]);
    assert_eq!(ValueKind::decode(&mut cursor).unwrap_err().code, 20001);
}

#[test]
fn a_feature_value_is_written_with_its_count_and_its_windows_in_order() {
    let mut value = FeatureValue::new();
    value.set(512, ValueKind::Int(3));
    value.set(1, ValueKind::Int(212));
    assert_eq!(value.len(), 2);
    assert_eq!(value.need_space(), 4 + 2 * 17);
    assert_eq!(value.entry(0), (1, ValueKind::Int(212)));
    assert_eq!(value.entry(1), (512, ValueKind::Int(3)));
    let mut buf = BytesMut::new();
    value.encode(&mut buf).unwrap();
    let expected: Vec<u8> = vec![
        0, 0, 0, 2, 0, 0, 0, 0, 0, 0, 0, 1, 1, 0, 0, 0, 0, 0, 0, 0, 212, 0, 0, 0, 0, 0, 0, 2, 0,
        1, 0, 0, 0, 0, 0, 0, 0, 3,
    ];
    assert_eq!(&buf[..], &expected[..]);
    let mut cursor: Cursor<&[u8]> = Cursor::new(&buf[..]);
    let back = FeatureValue::decode(&mut cursor).unwrap();
    assert_eq!(cursor.position(), 38);
    assert_eq!(back.len(), 2);
    assert_eq!(back.get(1), Some(ValueKind::Int(212)));
    assert_eq!(back.get(512), Some(ValueKind::Int(3)));
    assert_eq!(back.get(2), None);
}

#[test]
fn a_feature_value_that_breaks_off_lacks_data() {
    let mut value = FeatureValue::new();
    value.set(1, ValueKind::Int(212));
    let mut buf = BytesMut::new();
    value.encode(&mut buf).unwrap();
    for cut in 0..buf.len() {
        let mut cursor: Cursor<&[u8]> = Cursor::new(&buf[..cut]);
        assert_eq!(FeatureValue::decode(&mut cursor).unwrap_err().code, 20001);
    }
}

#[test]
fn adding_makes_a_window_and_then_adds_to_it() {
    let mut value = FeatureValue::new();
    let pk = "101110001".to_string();
    let first = value
        .add_int(&pk, 1651000000000, 2592000000, 1)
        .unwrap();
    assert_eq!(first.fk, pk);
    assert_eq!(first.tk, 1648512000000);
    assert_eq!(first.undo_v, None);
    assert_eq!(first.redo_v, ValueKind::Int(1));
    let second = value
        .add_int(&pk, 1651000000001, 2592000000, 4)
        .unwrap();
    assert_eq!(second.tk, 1648512000000);
    assert_eq!(second.undo_v, Some(ValueKind::Int(1)));
    assert_eq!(second.redo_v, ValueKind::Int(5));
    assert_eq!(value.get(1648512000000), Some(ValueKind::Int(5)));
    assert_eq!(value.len(), 1);
}

#[test]
fn the_first_and_the_last_time_of_a_window_add_up() {
    let mut value = FeatureValue::new();
    let pk = "k".to_string();
    value.add_int(&pk, 3000, 1000, 7).unwrap();
    let second = value.add_int(&pk, 3000 + 1000 - 1, 1000, 5).unwrap();
    assert_eq!(second.tk, 3000);
    assert_eq!(value.get(3000), Some(ValueKind::Int(12)));
    assert_eq!(value.len(), 1);
    let next = value.add_int(&pk, 4000, 1000, 1).unwrap();
    assert_eq!(next.tk, 4000);
    assert_eq!(next.undo_v, None);
    assert_eq!(value.len(), 2);
}

#[test]
fn a_sum_that_does_not_fit_is_held_at_the_largest_number() {
    let mut value = FeatureValue::new();
    let pk = "k".to_string();
    value.add_int(&pk, 0, 10, u64::MAX - 1).unwrap();
    let record = value.add_int(&pk, 5, 10, 2).unwrap();
    assert_eq!(record.undo_v, Some(ValueKind::Int(u64::MAX - 1)));
    assert_eq!(record.redo_v, ValueKind::Int(u64::MAX));
    assert_eq!(value.get(0), Some(ValueKind::Int(u64::MAX)));
}

#[test]
fn adding_to_a_float_is_a_type_mismatch() {
    let mut value = FeatureValue::new();
    value.set(0, ValueKind::Float(2.5f64.to_bits()));
    let pk = "k".to_string();
    let e = value.add_int(&pk, 3, 10, 1).unwrap_err();
    assert_eq!(e.code, 10002);
    assert_eq!(value.get(0), Some(ValueKind::Float(2.5f64.to_bits())));
    assert_eq!(value.len(), 1);
}

#[test]
fn a_copy_of_a_feature_value_holds_the_same() {
    let mut value = FeatureValue::new();
    value.set(30, ValueKind::Int(1));
    value.set(10, ValueKind::Float(7));
    value.set(20, ValueKind::Int(2));
    let copy = value.duplicate();
    assert_eq!(copy.len(), 3);
    assert_eq!(copy.entry(0), (10, ValueKind::Float(7)));
    assert_eq!(copy.entry(1), (20, ValueKind::Int(2)));
    assert_eq!(copy.entry(2), (30, ValueKind::Int(1)));
}
