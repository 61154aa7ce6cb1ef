use bytes::BytesMut;
use feature_base::feature::value::ValueKind;
use feature_base::store::wal::{
    IdSource, Wal, WalFeatureUpdateValue, WalLogItem, WalLogKind, WalLogValue,
    WalPageBkStoreValue, WalPageIndexStoreValue,
};
use std::io::Cursor;

fn update_value(fk: &str, tk: u64, undo_v: Option<ValueKind>, redo_v: ValueKind) -> WalFeatureUpdateValue {
    WalFeatureUpdateValue { fk: fk.to_string(), tk, undo_v, redo_v }
}

#[test]
fn kinds_have_their_codes() {
    assert_eq!(WalLogKind::Begin.code(), 1);
    assert_eq!(WalLogKind::Commit.code(), 2);
    assert_eq!(WalLogKind::End.code(), 3);
    assert_eq!(WalLogKind::FeatureUpdate.code(), 4);
    assert_eq!(WalLogKind::PageBkStore.code(), 5);
    assert_eq!(WalLogKind::PageIndexStore.code(), 8);
    for code in 0..=255u8 {
        match WalLogKind::try_from(code) {
            Ok(kind) => assert_eq!(kind.code(), code),
            Err(e) => {
                assert_eq!(e.code, 10000);
                assert!(code == 0 || code == 6 || code == 7 || code > 8);
            }
        }
    }
}

#[test]
fn a_begin_record_has_twenty_one_bytes() {
    let item = WalLogItem { tid: 3, kind: WalLogKind::Begin, action_id: 258, value: None };
    assert_eq!(item.need_space(), 17);
    let mut buf = BytesMut::new();
    item.encode(&mut buf).unwrap();
    let expected: Vec<u8> = vec![
        0, 0, 0, 17, 0, 0, 0, 0, 0, 0, 0, 3, 1, 0, 0, 0, 0, 0, 0, 1, 2,
    ];
    assert_eq!(&buf[..], &expected[..]);
    let mut cursor: Cursor<&[u8]> = Cursor::new(&buf[..]);
    let back = WalLogItem::decode(&mut cursor).unwrap();
    assert_eq!(cursor.position(), 21);
    assert_eq!(back.tid, 3);
    assert_eq!(back.kind, WalLogKind::Begin);
    assert_eq!(back.action_id, 258);
    assert!(back.value.is_none());
}

#[test]
fn a_feature_update_is_written_and_read_back() {
    let value = update_value("101110001", 1648512000000, Some(ValueKind::Int(1)), ValueKind::Int(2));
    assert_eq!(value.need_space(), 2 + 9 + 8 + 1 + 9 + 9);
    let mut buf = BytesMut::new();
    value.encode(&mut buf).unwrap();
    assert_eq!(buf.len(), 38);
    assert_eq!(&buf[..2], &[0u8, 9][..]);
    assert_eq!(&buf[2..11], "101110001".as_bytes());
    assert_eq!(buf[19], 1);
    let mut cursor: Cursor<&[u8]> = Cursor::new(&buf[..]);
    let back = WalFeatureUpdateValue::decode(&mut cursor).unwrap();
    assert_eq!(cursor.position(), 38);
    assert_eq!(back.fk, "101110001");
    assert_eq!(back.tk, 1648512000000);
    assert_eq!(back.undo_v, Some(ValueKind::Int(1)));
    assert_eq!(back.redo_v, ValueKind::Int(2));

    let fresh = update_value("k杨", 7, None, ValueKind::Float(3));
    assert_eq!(fresh.need_space(), 2 + 4 + 8 + 1 + 9);
    let mut buf = BytesMut::new();
    fresh.encode(&mut buf).unwrap();
    assert_eq!(buf[2 + 4 + 8], 0);
    let mut cursor: Cursor<&[u8]> = Cursor::new(&buf[..]);
    let back = WalFeatureUpdateValue::decode(&mut cursor).unwrap();
    assert_eq!(back.fk, "k杨");
    assert_eq!(back.undo_v, None);
    assert_eq!(back.redo_v, ValueKind::Float(3));
}

#[test]
fn a_feature_key_that_is_too_long_is_not_written() {
    let long = "x".repeat(65536);
    let value = update_value(&long, 7, None, ValueKind::Int(1));
    assert!(!value.can_encode());
    let mut buf = BytesMut::new();
    buf.extend_from_slice(&[9u8]);
    assert_eq!(value.encode(&mut buf).unwrap_err().code, 10000);
    assert_eq!(&buf[..], &[9u8][..]);
    let fits = update_value(&"x".repeat(65535), 7, None, ValueKind::Int(1));
    assert!(fits.can_encode());
}

#[test]
fn a_key_that_is_no_utf8_is_bad() {
    let bytes: Vec<u8> = vec![0, 2, 0xff, 0xfe, 0, 0, 0, 0, 0, 0, 0, 7, 0, 1, 0, 0, 0, 0, 0, 0, 0, 1];
    let mut cursor: Cursor<&[u8]> = Cursor::new(&bytes[..]);
    assert_eq!(WalFeatureUpdateValue::decode(&mut cursor).unwrap_err().code, 10000);
}

#[test]
fn page_records_are_written_and_read_back() {
    let bk = WalPageBkStoreValue { slot_id: 258, page_id: 3, min_pk: 4, max_pk: u64::MAX };
    assert_eq!(bk.need_space(), 26);
    let mut buf = BytesMut::new();
    bk.encode(&mut buf).unwrap();
    let expected: Vec<u8> = vec![
        1, 2, 0, 0, 0, 0, 0, 0, 0, 3, 0, 0, 0, 0, 0, 0, 0, 4, 255, 255, 255, 255, 255, 255, 255,
        255,
    ];
    assert_eq!(&buf[..], &expected[..]);
    let mut cursor: Cursor<&[u8]> = Cursor::new(&buf[..]);
    assert_eq!(WalPageBkStoreValue::decode(&mut cursor).unwrap(), bk);
    let mut cursor: Cursor<&[u8]> = Cursor::new(&buf[..25]);
    assert_eq!(WalPageBkStoreValue::decode(&mut cursor).unwrap_err().code, 20001);

    let index = WalPageIndexStoreValue::new(4095);
    assert_eq!(index.need_space(), 2);
    let mut buf = BytesMut::new();
    index.encode(&mut buf).unwrap();
    assert_eq!(&buf[..], &[0x0fu8, 0xff][..]);
    let mut cursor: Cursor<&[u8]> = Cursor::new(&buf[..]);
    assert_eq!(WalPageIndexStoreValue::decode(&mut cursor).unwrap(), index);
}

#[test]
fn every_kind_of_record_is_read_back() {
    let items = vec![
        WalLogItem { tid: 1, kind: WalLogKind::Begin, action_id: 10, value: None },
        WalLogItem {
            tid: 1,
            kind: WalLogKind::FeatureUpdate,
            action_id: 11,
            value: Some(WalLogValue::FeatureUpdate(update_value("a", 5, None, ValueKind::Int(1)))),
        },
        WalLogItem {
            tid: 1,
            kind: WalLogKind::PageBkStore,
            action_id: 12,
            value: Some(WalLogValue::PageBkStore(WalPageBkStoreValue {
                slot_id: 1,
                page_id: 2,
                min_pk: 3,
                max_pk: 4,
            })),
        },
        WalLogItem {
            tid: 1,
            kind: WalLogKind::PageIndexStore,
            action_id: 13,
            value: Some(WalLogValue::PageIndexStore(WalPageIndexStoreValue::new(9))),
        },
        WalLogItem { tid: 1, kind: WalLogKind::Commit, action_id: 14, value: None },
        WalLogItem { tid: 1, kind: WalLogKind::End, action_id: 15, value: None },
    ];
    let mut buf = BytesMut::new();
    for item in &items {
        item.encode(&mut buf).unwrap();
    }
    let mut cursor: Cursor<&[u8]> = Cursor::new(&buf[..]);
    for item in &items {
        let start = cursor.position();
        let back = WalLogItem::decode(&mut cursor).unwrap();
        assert_eq!(cursor.position() - start, 4 + item.need_space() as u64);
        assert_eq!(back.tid, item.tid);
        assert_eq!(back.kind, item.kind);
        assert_eq!(back.action_id, item.action_id);
        assert_eq!(format!("{:?}", back.value), format!("{:?}", item.value));
    }
    assert_eq!(WalLogItem::decode(&mut cursor).unwrap_err().code, 20001);
}

#[test]
fn a_record_that_breaks_off_lacks_data() {
    let item = WalLogItem {
        tid: 1,
        kind: WalLogKind::FeatureUpdate,
        action_id: 11,
        value: Some(WalLogValue::FeatureUpdate(update_value("abc", 5, None, ValueKind::Int(1)))),
    };
    let mut buf = BytesMut::new();
    item.encode(&mut buf).unwrap();
    for cut in 0..buf.len() {
        let mut cursor: Cursor<&[u8]> = Cursor::new(&buf[..cut]);
        assert_eq!(WalLogItem::decode(&mut cursor).unwrap_err().code, 20001);
    }
}

#[test]
fn a_record_with_a_wrong_length_or_kind_is_bad() {
    let unknown_kind: Vec<u8> = vec![
        0, 0, 0, 17, 0, 0, 0, 0, 0, 0, 0, 3, 7, 0, 0, 0, 0, 0, 0, 1, 2,
    ];
    let mut cursor: Cursor<&[u8]> = Cursor::new(&unknown_kind[..]);
    assert_eq!(WalLogItem::decode(&mut cursor).unwrap_err().code, 10000);
    let too_short: Vec<u8> = vec![0, 0, 0, 16, 0, 0, 0, 0, 0, 0, 0, 3, 1, 0, 0, 0, 0, 0, 0, 1];
    let mut cursor: Cursor<&[u8]> = Cursor::new(&too_short[..]);
    assert_eq!(WalLogItem::decode(&mut cursor).unwrap_err().code, 10000);
    let too_long: Vec<u8> = vec![
        0, 0, 0, 18, 0, 0, 0, 0, 0, 0, 0, 3, 1, 0, 0, 0, 0, 0, 0, 1, 2, 0,
    ];
    let mut cursor: Cursor<&[u8]> = Cursor::new(&too_long[..]);
    assert_eq!(WalLogItem::decode(&mut cursor).unwrap_err().code, 10000);
}

#[test]
fn a_record_whose_content_is_not_of_its_kind_is_not_written() {
    let item = WalLogItem {
        tid: 1,
        kind: WalLogKind::Begin,
        action_id: 1,
        value: Some(WalLogValue::PageIndexStore(WalPageIndexStoreValue::new(9))),
    };
    assert!(!item.well_formed());
    let mut buf = BytesMut::new();
    assert_eq!(item.encode(&mut buf).unwrap_err().code, 10000);
    assert_eq!(buf.len(), 0);
    let bare = WalLogItem { tid: 1, kind: WalLogKind::FeatureUpdate, action_id: 1, value: None };
    assert!(!bare.well_formed());
}

#[test]
fn the_log_writes_records_in_the_order_of_sending() {
    let mut wal = Wal::new(IdSource { next_tid: 4, next_action_id: 100 });
    let tid = wal.generate_tid();
    assert_eq!(tid, 4);
    assert_eq!(wal.send_begin_log(tid).unwrap(), 100);
    assert_eq!(
        wal.send_feature_update_log(tid, update_value("a", 5, None, ValueKind::Int(1)))
            .unwrap(),
        101
    );
    let commit = wal.commit_log(tid).unwrap();
    assert_eq!(commit, 102);
    assert_eq!(wal.pending(), 3);
    assert!(!wal.is_written(100));
    assert!(!wal.is_written(commit));

    let mut out = BytesMut::new();
    let mut last = None;
    let mut kinds = vec![];
    while let Some(item) = wal.write_next(&mut out) {
        if let Some(before) = last {
            assert!(before < item.action_id);
        }
        last = Some(item.action_id);
        assert!(!wal.is_written(item.action_id));
        assert!(wal.record_written(item.action_id));
        assert_eq!(wal.writer_state().stored_num, item.action_id);
        kinds.push(item.kind);
        if item.action_id < commit {
            assert!(wal.is_written(item.action_id));
            assert!(!wal.is_written(commit));
        }
    }
    assert_eq!(kinds, vec![WalLogKind::Begin, WalLogKind::FeatureUpdate, WalLogKind::Commit]);
    assert!(wal.is_written(commit));
    assert_eq!(wal.pending(), 0);
    assert_eq!(wal.id_source(), IdSource { next_tid: 5, next_action_id: 103 });

    let mut cursor: Cursor<&[u8]> = Cursor::new(&out[..]);
    let mut ids = vec![];
    while let Ok(item) = WalLogItem::decode(&mut cursor) {
        ids.push(item.action_id);
    }
    assert_eq!(ids, vec![100, 101, 102]);
}

#[test]
fn the_log_sends_nothing_that_cannot_be_written() {
    let mut wal = Wal::new(IdSource { next_tid: 0, next_action_id: 0 });
    let long = "x".repeat(70000);
    let e = wal
        .send_feature_update_log(0, update_value(&long, 5, None, ValueKind::Int(1)))
        .unwrap_err();
    assert_eq!(e.code, 10000);
    assert_eq!(wal.pending(), 0);
    assert_eq!(wal.id_source().next_action_id, 0);

    let mut last = Wal::new(IdSource { next_tid: 0, next_action_id: u64::MAX });
    assert!(!last.room_for(1));
    assert_eq!(last.send_begin_log(0).unwrap_err().code, 10000);
    assert_eq!(last.pending(), 0);
    let mut nearly = Wal::new(IdSource { next_tid: 0, next_action_id: u64::MAX - 1 });
    assert!(nearly.room_for(1));
    assert!(!nearly.room_for(2));
    assert_eq!(nearly.send_begin_log(0).unwrap(), u64::MAX - 1);
}

#[test]
fn a_record_counts_as_written_only_when_the_writer_says_so() {
    let mut wal = Wal::new(IdSource { next_tid: 1, next_action_id: 10 });
    let tid = wal.generate_tid();
    assert_eq!(wal.send_begin_log(tid).unwrap(), 10);
    let commit = wal.commit_log(tid).unwrap();
    assert_eq!(commit, 11);
    assert_eq!(wal.next_waiting(), Some(10));

    let mut out = BytesMut::new();
    let begin = wal.write_next(&mut out).unwrap();
    assert_eq!(begin.action_id, 10);
    assert!(!wal.is_written(10));
    assert_eq!(wal.writer_state().stored_num, 0);
    assert!(!wal.record_written(11));
    assert!(!wal.is_written(10));
    assert!(wal.record_written(10));
    assert!(wal.is_written(10));
    assert!(!wal.record_written(10));
    assert_eq!(wal.writer_state().stored_num, 10);
    assert_eq!(wal.next_waiting(), Some(11));

    let end = wal.write_next(&mut out).unwrap();
    assert_eq!(end.action_id, 11);
    assert!(!wal.is_written(commit));
    assert!(wal.record_written(commit));
    assert!(wal.is_written(commit));
    assert_eq!(wal.next_waiting(), None);
    assert!(wal.write_next(&mut out).is_none());
}

#[test]
fn a_lost_record_loses_its_transaction_and_no_other() {
    let mut wal = Wal::new(IdSource { next_tid: 1, next_action_id: 10 });
    let first = wal.generate_tid();
    let second = wal.generate_tid();
    wal.send_begin_log(first).unwrap();
    wal.send_begin_log(second).unwrap();
    let first_commit = wal.commit_log(first).unwrap();
    let second_commit = wal.commit_log(second).unwrap();
    assert_eq!((first_commit, second_commit), (12, 13));

    let mut out = BytesMut::new();
    let begin = wal.write_next(&mut out).unwrap();
    assert_eq!((begin.action_id, begin.tid), (10, first));
    let before = out.len();
    wal.record_lost(begin.action_id);
    assert!(wal.is_lost(10));
    assert!(wal.is_lost(first_commit));
    assert!(!wal.is_lost(second_commit));

    let next = wal.write_next(&mut out).unwrap();
    assert_eq!((next.action_id, next.tid), (11, second));
    assert!(out.len() > before);
    assert!(wal.record_written(11));
    assert!(wal.is_written(11));
    assert_eq!(wal.writer_state().stored_num, 11);

    let held = out.len();
    let of_lost = wal.write_next(&mut out).unwrap();
    assert_eq!((of_lost.action_id, of_lost.tid), (12, first));
    assert!(out.len() > held);
    assert!(!wal.record_written(12));
    assert_eq!(wal.writer_state().stored_num, 11);
    let last = wal.write_next(&mut out).unwrap();
    assert_eq!((last.action_id, last.tid), (13, second));
    assert!(wal.record_written(13));
    assert!(wal.is_written(second_commit));
    assert!(!wal.is_written(first_commit));
    assert!(!wal.is_written(10));
    assert_eq!(wal.writer_state().stored_num, 13);
    assert!(wal.write_next(&mut out).is_none());
    assert_eq!(wal.pending(), 0);
}

#[test]
fn a_record_that_the_writer_does_not_speak_of_is_lost() {
    let mut wal = Wal::new(IdSource { next_tid: 1, next_action_id: 10 });
    let tid = wal.generate_tid();
    wal.send_begin_log(tid).unwrap();
    let commit = wal.commit_log(tid).unwrap();
    let other = wal.generate_tid();
    wal.send_begin_log(other).unwrap();
    let mut out = BytesMut::new();
    assert_eq!(wal.write_next(&mut out).unwrap().action_id, 10);
    let next = wal.write_next(&mut out).unwrap();
    assert_eq!((next.action_id, next.tid), (commit, tid));
    assert!(!wal.record_written(10));
    assert!(!wal.record_written(commit));
    let next = wal.write_next(&mut out).unwrap();
    assert_eq!((next.action_id, next.tid), (12, other));
    assert!(wal.record_written(12));
    assert!(!wal.is_written(commit));
    assert!(wal.is_written(12));
}

#[test]
fn a_transaction_that_is_given_up_is_not_written() {
    let mut wal = Wal::new(IdSource { next_tid: 1, next_action_id: 10 });
    let tid = wal.generate_tid();
    wal.send_begin_log(tid).unwrap();
    let mut out = BytesMut::new();
    let begin = wal.write_next(&mut out).unwrap();
    assert!(wal.record_written(begin.action_id));
    let commit = wal.commit_log(tid).unwrap();
    wal.abandon(tid);
    assert!(wal.is_written(begin.action_id));
    assert!(wal.is_lost(commit));
    let held = out.len();
    assert!(wal.write_next(&mut out).is_none());
    assert_eq!(out.len(), held);
    assert!(!wal.is_written(commit));
    assert!(!wal.is_written(99));
    assert!(!wal.is_written(9));
    assert!(!wal.is_lost(99));
}
