use bytes::BytesMut;
use feature_base::calc_hash;
use feature_base::feature::value::{FeatureValue, ValueKind};
use feature_base::store::flush::page_file_position;
use feature_base::store::page::Page;
use feature_base::store::wal::{IdSource, Wal, WalLogKind};
use feature_base::store::slot::Slot;
use feature_base::store::{Dirty, DirtyRecord};
use std::io::Cursor;

fn counted(window: u64, count: u64) -> FeatureValue {
    let mut value = FeatureValue::new();
    value.set(window, ValueKind::Int(count));
    value
}

fn slot_with_first_page(id: u16) -> Slot {
    let mut slot = Slot::new(id, "/data".to_string());
    let page = slot.new_page(0, u64::MAX).unwrap();
    assert_eq!(page.id(), 0);
    slot.put_page(0, page);
    slot
}

fn kinds_written(wal: &mut Wal) -> Vec<WalLogKind> {
    let mut out = BytesMut::new();
    let mut kinds = vec![];
    while let Some(item) = wal.write_next(&mut out) {
        assert!(wal.record_written(item.action_id));
        kinds.push(item.kind);
    }
    kinds
}

#[test]
fn a_dirty_mark_keeps_the_first_action() {
    let mut dirty = Dirty::new();
    assert!(!dirty.is_dirty());
    assert_eq!(dirty.record(), None);
    assert!(dirty.update(7));
    assert!(dirty.is_dirty());
    assert_eq!(dirty.record(), Some(DirtyRecord { first_action_id: 7, last_action_id: 7 }));
    assert!(!dirty.update(9));
    assert_eq!(dirty.record(), Some(DirtyRecord { first_action_id: 7, last_action_id: 9 }));
    dirty.reset();
    assert!(!dirty.is_dirty());
    assert!(dirty.update(11));
    assert_eq!(dirty.record(), Some(DirtyRecord { first_action_id: 11, last_action_id: 11 }));
}

#[test]
fn a_page_holds_its_keys_in_their_order() {
    let mut page = Page::new(5, 1, 0, u64::MAX);
    page.put("b".to_string(), counted(1, 2)).unwrap();
    page.put("a".to_string(), counted(1, 1)).unwrap();
    page.put("ab".to_string(), counted(1, 3)).unwrap();
    page.put("a".to_string(), counted(1, 9)).unwrap();
    assert_eq!(page.len(), 3);
    assert_eq!(page.key_at(0), "a");
    assert_eq!(page.key_at(1), "ab");
    assert_eq!(page.key_at(2), "b");
    assert_eq!(page.get(&"a".to_string()).unwrap().get(1), Some(ValueKind::Int(9)));
    assert!(page.get(&"c".to_string()).is_none());
    assert_eq!(page.need_space(), 34 + 3 * (2 + 4 + 17) + 1 + 2 + 1);
}

#[test]
fn a_page_takes_no_key_whose_hash_lies_outside_its_range() {
    let key = "101110001".to_string();
    let hash = calc_hash(&key);
    let mut below = Page::new(0, 1, 0, hash);
    assert_eq!(below.put(key.clone(), counted(1, 1)).unwrap_err().code, 10000);
    assert_eq!(below.len(), 0);
    let mut at = Page::new(0, 1, hash, hash + 1);
    at.put(key.clone(), counted(1, 1)).unwrap();
    assert_eq!(at.len(), 1);
    let mut above = Page::new(0, 1, hash + 1, u64::MAX);
    assert_eq!(above.add_int(&key, 5, 10, 1).unwrap_err().code, 10000);
    assert_eq!(above.set_window(&key, 5, ValueKind::Int(1)).unwrap_err().code, 10000);
    assert_eq!(above.len(), 0);
}

#[test]
fn a_page_adds_to_the_window_of_a_key() {
    let mut page = Page::new(0, 0, 0, u64::MAX);
    let key = "k".to_string();
    let first = page.add_int(&key, 25, 10, 1).unwrap();
    assert_eq!((first.fk.as_str(), first.tk, first.undo_v, first.redo_v), ("k", 20, None, ValueKind::Int(1)));
    let second = page.add_int(&key, 29, 10, 1).unwrap();
    assert_eq!(second.undo_v, Some(ValueKind::Int(1)));
    assert_eq!(second.redo_v, ValueKind::Int(2));
    page.set_window(&key, 40, ValueKind::Float(5)).unwrap();
    assert_eq!(page.add_int(&key, 41, 10, 1).unwrap_err().code, 10002);
    let value = page.get(&key).unwrap();
    assert_eq!(value.get(20), Some(ValueKind::Int(2)));
    assert_eq!(value.get(40), Some(ValueKind::Float(5)));
    assert_eq!(page.len(), 1);
}

#[test]
fn a_page_is_written_with_its_head_and_its_entries() {
    let mut page = Page::new(0x0102, 3, 4, u64::MAX);
    let key = "101110001".to_string();
    assert!(calc_hash(&key) >= 4);
    page.put(key, counted(1, 212)).unwrap();
    let mut buf = BytesMut::new();
    page.encode(&mut buf).unwrap();
    let mut expected: Vec<u8> = vec![0, 0, 0, 0, 0, 0, 0, 66, 1, 2, 0, 0, 0, 0, 0, 0, 0, 3];
    expected.extend_from_slice(&[0, 0, 0, 0, 0, 0, 0, 4]);
    expected.extend_from_slice(&[255; 8]);
    expected.extend_from_slice(&[0, 9]);
    expected.extend_from_slice("101110001".as_bytes());
    expected.extend_from_slice(&[0, 0, 0, 1, 0, 0, 0, 0, 0, 0, 0, 1, 1, 0, 0, 0, 0, 0, 0, 0, 212]);
    assert_eq!(&buf[..], &expected[..]);
    assert_eq!(page.need_space(), 66);

    let mut cursor: Cursor<&[u8]> = Cursor::new(&buf[..]);
    let back = Page::decode(&mut cursor).unwrap();
    assert_eq!(cursor.position(), 66);
    assert_eq!((back.slot_id(), back.id(), back.min_pk(), back.max_pk()), (0x0102, 3, 4, u64::MAX));
    assert_eq!(back.len(), 1);
    assert_eq!(back.dirty(), None);
    assert_eq!(
        back.get(&"101110001".to_string()).unwrap().get(1),
        Some(ValueKind::Int(212))
    );
}

#[test]
fn bytes_that_are_no_page_are_told_apart() {
    let short = [0u8; 7];
    let mut cursor: Cursor<&[u8]> = Cursor::new(&short[..]);
    assert_eq!(Page::decode(&mut cursor).unwrap_err().code, 10000);
    let head_only = [0u8; 33];
    let mut cursor: Cursor<&[u8]> = Cursor::new(&head_only[..]);
    assert_eq!(Page::decode(&mut cursor).unwrap_err().code, 20001);

    let mut page = Page::new(1, 3, 0, u64::MAX);
    page.put("abc".to_string(), counted(1, 212)).unwrap();
    let mut buf = BytesMut::new();
    page.encode(&mut buf).unwrap();
    let mut cursor: Cursor<&[u8]> = Cursor::new(&buf[..buf.len() - 1]);
    assert_eq!(Page::decode(&mut cursor).unwrap_err().code, 20001);

    let key = "101110001".to_string();
    let hash = calc_hash(&key);
    let mut narrow = Page::new(1, 3, hash, hash + 1);
    narrow.put(key, counted(1, 1)).unwrap();
    let mut buf = BytesMut::new();
    narrow.encode(&mut buf).unwrap();
    let moved = hash.wrapping_add(1).to_be_bytes();
    let wider = (hash.wrapping_add(2)).to_be_bytes();
    buf[18..26].copy_from_slice(&moved);
    buf[26..34].copy_from_slice(&wider);
    let mut cursor: Cursor<&[u8]> = Cursor::new(&buf[..]);
    assert_eq!(Page::decode(&mut cursor).unwrap_err().code, 10000);
}

#[test]
fn a_page_that_changes_joins_those_that_wait_once() {
    let mut page = Page::new(1, 3, 77, u64::MAX);
    let mut waiting: Vec<u64> = vec![];
    page.after_update(5, &mut waiting);
    assert_eq!(waiting, vec![77]);
    assert_eq!(page.dirty(), Some(DirtyRecord { first_action_id: 5, last_action_id: 5 }));
    page.after_update(8, &mut waiting);
    assert_eq!(waiting, vec![77]);
    assert_eq!(page.dirty(), Some(DirtyRecord { first_action_id: 5, last_action_id: 8 }));
    page.reset_dirty();
    assert_eq!(page.dirty(), None);
    page.after_update(9, &mut waiting);
    assert_eq!(waiting, vec![77, 77]);
}

#[test]
fn pages_have_their_places_in_the_page_files() {
    assert_eq!(page_file_position(0), (0, 0));
    assert_eq!(page_file_position(1), (0, 65536));
    assert_eq!(page_file_position(16383), (0, 16383 * 65536));
    assert_eq!(page_file_position(16384), (1, 0));
    assert_eq!(page_file_position(16385), (1, 65536));
    assert_eq!(page_file_position(262143), (15, 16383 * 65536));
}

#[test]
fn a_slot_hands_out_page_ids_and_takes_them_back() {
    let mut slot = Slot::new(3, "/data".to_string());
    assert_eq!(slot.id(), 3);
    assert_eq!(slot.page_count(), 0);
    assert_eq!(slot.get_page(5).unwrap_err().code, 10000);
    let first = slot.new_page(0, 100).unwrap();
    let second = slot.new_page(100, u64::MAX).unwrap();
    assert_eq!((first.id(), first.slot_id(), first.min_pk(), first.max_pk()), (0, 3, 0, 100));
    assert_eq!(second.id(), 1);
    assert!(slot.page_id_in_use(0));
    assert!(slot.page_id_in_use(1));
    assert!(!slot.page_id_in_use(2));
    slot.freed_page(0);
    assert!(!slot.page_id_in_use(0));
    assert_eq!(slot.new_page(0, 1).unwrap().id(), 0);
    assert_eq!(slot.get_slot_index_path(), "/data/slot_3_index");
    assert_eq!(slot.get_slot_index_path_bk(), "/data/slot_3_index_bk");
    assert_eq!(slot.get_shard_page_store_file(), "/data/slot_3_shard");
    assert_eq!(slot.get_page_store_file(16385), ("/data/slot_3_page_1".to_string(), 65536));
}

#[test]
fn a_slot_finds_the_page_whose_range_holds_a_hash() {
    let mut slot = Slot::new(3, "/data".to_string());
    let first = slot.new_page(0, 100).unwrap();
    let second = slot.new_page(100, u64::MAX).unwrap();
    slot.put_page(0, first);
    slot.put_page(1, second);
    assert_eq!(slot.get_page(0).unwrap().0, 0);
    assert_eq!(slot.get_page(99).unwrap().0, 0);
    assert_eq!(slot.get_page(100).unwrap().0, 100);
    assert_eq!(slot.get_page(100).unwrap().1.id(), 1);
    assert_eq!(slot.get_page(u64::MAX - 1).unwrap().0, 100);
    assert_eq!(slot.get_page(u64::MAX).unwrap_err().code, 10000);
    assert_eq!(slot.page_index(100), Some(1));
    assert_eq!(slot.page_index(u64::MAX), None);
    assert_eq!(slot.index_of_page(100), Some(1));
    assert_eq!(slot.index_of_page(99), None);
}

#[test]
fn up_to_ten_pages_that_wait_are_taken() {
    let mut slot = Slot::new(3, "/data".to_string());
    let bounds: Vec<u64> = (0..12).map(|i| i * 10).collect();
    for i in 0..12usize {
        let upper = if i == 11 { u64::MAX } else { bounds[i + 1] };
        let page = slot.new_page(bounds[i], upper).unwrap();
        slot.put_page(i, page);
    }
    for i in (0..12usize).rev() {
        slot.after_update(i, 5);
    }
    slot.after_update(3, 6);
    let taken = slot.get_wait_store_page();
    assert_eq!(taken, vec![110, 100, 90, 80, 70, 60, 50, 40, 30, 20]);
    assert_eq!(slot.get_wait_store_page(), vec![10, 0]);
    assert_eq!(slot.get_wait_store_page(), Vec::<u64>::new());
}

#[test]
fn a_short_page_is_written_in_place() {
    let mut slot = slot_with_first_page(7);
    let key = "101110001".to_string();
    slot.page_mut(0).add_int(&key, 1651000000000, 2592000000, 1).unwrap();
    slot.after_update(0, 40);
    assert!(slot.page_at(0).dirty().is_some());
    let mut expected = BytesMut::new();
    slot.page_at(0).encode(&mut expected).unwrap();

    let mut wal = Wal::new(IdSource { next_tid: 2, next_action_id: 50 });
    let mut writes = vec![];
    slot.store_page(&mut wal, &mut writes).unwrap();

    assert_eq!(writes.len(), 2);
    assert_eq!(writes[0].path, "/data/slot_7_shard");
    assert_eq!((writes[0].seek_pos, writes[0].truncate), (0, true));
    assert_eq!(writes[0].log_position, 51);
    assert_eq!(&writes[0].bytes[..], &expected[..]);
    assert_eq!(writes[1].path, "/data/slot_7_page_0");
    assert_eq!((writes[1].seek_pos, writes[1].truncate), (0, false));
    assert_eq!(writes[1].log_position, 52);
    assert_eq!(&writes[1].bytes[..], &expected[..]);
    assert_eq!(slot.page_count(), 1);
    assert_eq!(slot.page_at(0).dirty(), None);
    assert_eq!(slot.index_dirty(), None);
    assert_eq!(wal.id_source(), IdSource { next_tid: 3, next_action_id: 53 });
    assert_eq!(
        kinds_written(&mut wal),
        vec![WalLogKind::Begin, WalLogKind::PageBkStore, WalLogKind::Commit]
    );

    let mut more = vec![];
    slot.store_page(&mut wal, &mut more).unwrap();
    slot.store_page_index(&mut wal, &mut more).unwrap();
    assert_eq!(more.len(), 0);
    assert_eq!(wal.pending(), 0);
}

#[test]
fn a_long_page_is_split() {
    let mut slot = slot_with_first_page(7);
    let mut keys = vec![];
    for i in 0..3000u64 {
        let key = format!("user-{}-10001", i);
        slot.page_mut(0).add_int(&key, 1651000000000, 2592000000, i + 1).unwrap();
        keys.push(key);
    }
    slot.after_update(0, 40);
    assert!(slot.page_at(0).need_space() > 65536);
    let mut whole = BytesMut::new();
    slot.page_at(0).encode(&mut whole).unwrap();

    let mut wal = Wal::new(IdSource { next_tid: 2, next_action_id: 50 });
    let mut writes = vec![];
    slot.store_page(&mut wal, &mut writes).unwrap();

    let pages = slot.page_count();
    assert!(pages >= 2);
    assert!(!slot.page_id_in_use(0));
    let mut lower = 0u64;
    let mut held = 0;
    for i in 0..pages {
        let page = slot.page_at(i);
        assert_eq!(slot.page_key(i), lower);
        assert_eq!(page.min_pk(), lower);
        assert!(page.min_pk() < page.max_pk());
        assert!(page.need_space() < 65536);
        assert_eq!(page.slot_id(), 7);
        assert_eq!(page.id(), i as u64 + 1);
        assert!(slot.page_id_in_use(page.id()));
        assert_eq!(page.dirty(), None);
        if i + 1 < pages {
            assert!(page.need_space() > 32768);
        }
        for j in 0..page.len() {
            let hash = calc_hash(page.key_at(j));
            assert!(page.min_pk() <= hash && hash < page.max_pk());
        }
        held += page.len();
        lower = page.max_pk();
    }
    assert_eq!(lower, u64::MAX);
    assert_eq!(held, 3000);
    for (i, key) in keys.iter().enumerate() {
        let (_, page) = slot.get_page(calc_hash(key)).unwrap();
        assert_eq!(
            page.get(key).unwrap().get(1648512000000),
            Some(ValueKind::Int(i as u64 + 1))
        );
    }

    assert_eq!(writes.len(), 1 + pages);
    assert_eq!(writes[0].path, "/data/slot_7_shard");
    assert_eq!(writes[0].log_position, 51);
    assert_eq!(&writes[0].bytes[..], &whole[..]);
    for i in 0..pages {
        let mut expected = BytesMut::new();
        slot.page_at(i).encode(&mut expected).unwrap();
        assert_eq!(writes[1 + i].path, "/data/slot_7_page_0");
        assert_eq!(writes[1 + i].seek_pos, (i as u64 + 1) * 65536);
        assert_eq!(writes[1 + i].log_position, 52);
        assert!(!writes[1 + i].truncate);
        assert_eq!(&writes[1 + i].bytes[..], &expected[..]);
    }
    let mark = slot.index_dirty().unwrap();
    assert_eq!((mark.first_action_id, mark.last_action_id), (51, 51));
    assert_eq!(
        kinds_written(&mut wal),
        vec![WalLogKind::Begin, WalLogKind::PageBkStore, WalLogKind::Commit]
    );

    let mut index_writes = vec![];
    slot.store_page_index(&mut wal, &mut index_writes).unwrap();
    assert_eq!(slot.index_dirty(), None);
    assert_eq!(index_writes.len(), 2);
    assert_eq!(index_writes[0].path, "/data/slot_7_index_bk");
    assert_eq!(index_writes[1].path, "/data/slot_7_index");
    assert!(index_writes[0].truncate && index_writes[1].truncate);
    assert_eq!((index_writes[0].log_position, index_writes[1].log_position), (54, 55));
    let mut expected = vec![];
    for i in 0..pages {
        expected.extend_from_slice(&slot.page_key(i).to_be_bytes());
        expected.extend_from_slice(&slot.page_at(i).id().to_be_bytes());
    }
    assert_eq!(expected.len(), 16 * pages);
    assert_eq!(&index_writes[0].bytes[..], &expected[..]);
    assert_eq!(&index_writes[1].bytes[..], &expected[..]);
    assert_eq!(
        kinds_written(&mut wal),
        vec![WalLogKind::Begin, WalLogKind::PageIndexStore, WalLogKind::Commit]
    );
}

#[test]
fn a_split_that_finds_too_few_ids_changes_nothing() {
    let mut slot = slot_with_first_page(7);
    for i in 0..3000u64 {
        let key = format!("user-{}-10001", i);
        slot.page_mut(0).add_int(&key, 1651000000000, 2592000000, 1).unwrap();
    }
    slot.after_update(0, 40);
    let mut taken = vec![];
    while let Ok(page) = slot.new_page(0, 1) {
        taken.push(page.id());
    }
    assert_eq!(taken.len(), 262143);
    slot.freed_page(9);
    let mut wal = Wal::new(IdSource { next_tid: 2, next_action_id: 50 });
    let mut writes = vec![];
    assert_eq!(slot.store_page(&mut wal, &mut writes).unwrap_err().code, 10000);
    assert_eq!(writes.len(), 0);
    assert_eq!(wal.pending(), 0);
    assert_eq!(slot.page_count(), 1);
    assert_eq!(slot.page_at(0).id(), 0);
    assert_eq!(slot.page_at(0).len(), 3000);
    assert!(!slot.page_id_in_use(9));
    assert!(slot.page_id_in_use(0));
}
