use bytes::BytesMut;
use feature_base::store::recover::read_log;
use feature_base::store::repair::{index_repair, page_repair, unfinished_flushes};
use feature_base::store::slot::Slot;
use feature_base::store::wal::{
    IdSource, Shadowed, Wal, WalPageBkStoreValue, WalPageIndexStoreValue,
};

fn log_of(wal: &mut Wal) -> Vec<u8> {
    let mut out = BytesMut::new();
    while let Some(item) = wal.write_next(&mut out) {
        wal.record_written(item.action_id);
    }
    out.to_vec()
}

fn page_bytes() -> Vec<u8> {
    let mut slot = Slot::new(7, "/data".to_string());
    let page = slot.new_page(0, u64::MAX).unwrap();
    slot.put_page(0, page);
    slot.page_mut(0).add_int(&"101110001".to_string(), 1651000000000, 2592000000, 1).unwrap();
    let mut bytes = BytesMut::new();
    slot.page_at(0).encode(&mut bytes).unwrap();
    bytes.to_vec()
}

#[test]
fn only_what_a_transaction_without_commit_put_in_a_shadow_is_unfinished() {
    let mut wal = Wal::new(IdSource { next_tid: 0, next_action_id: 0 });
    let done = wal.generate_tid();
    wal.send_begin_log(done).unwrap();
    wal.send_page_bk_store_log(
        done,
        WalPageBkStoreValue { slot_id: 1, page_id: 0, min_pk: 0, max_pk: u64::MAX },
    )
    .unwrap();
    wal.commit_log(done).unwrap();
    let torn = wal.generate_tid();
    wal.send_begin_log(torn).unwrap();
    wal.send_page_bk_store_log(
        torn,
        WalPageBkStoreValue { slot_id: 7, page_id: 0, min_pk: 0, max_pk: u64::MAX },
    )
    .unwrap();
    let index = wal.generate_tid();
    wal.send_begin_log(index).unwrap();
    wal.send_page_index_store_log(index, WalPageIndexStoreValue::new(9)).unwrap();

    let items = read_log(&log_of(&mut wal)).unwrap();
    let found = unfinished_flushes(&items);
    assert_eq!(found.len(), 2);
    assert_eq!((found[0].tid, found[1].tid), (torn, index));
    match found[0].told {
        Shadowed::Page(told) => assert_eq!((told.slot_id, told.page_id), (7, 0)),
        Shadowed::Index(_) => panic!("a page was told of"),
    }
    match found[1].told {
        Shadowed::Index(told) => assert_eq!(told.slot_id, 9),
        Shadowed::Page(_) => panic!("an index was told of"),
    }
}

#[test]
fn a_page_in_the_shadow_file_goes_to_its_place_again() {
    let shadow = page_bytes();
    let told = WalPageBkStoreValue { slot_id: 7, page_id: 0, min_pk: 0, max_pk: u64::MAX };
    let write = page_repair(&"/data".to_string(), 4, &told, &shadow).unwrap();
    assert_eq!(write.path, "/data/slot_7_page_0");
    assert_eq!((write.seek_pos, write.truncate, write.log_position), (0, false, 0));
    assert_eq!(write.flush.tid, 4);
    assert_eq!(&write.bytes[..], &shadow[..]);
}

#[test]
fn a_shadow_file_that_holds_another_page_or_none_repairs_nothing() {
    let shadow = page_bytes();
    let dir = "/data".to_string();
    let other = WalPageBkStoreValue { slot_id: 7, page_id: 3, min_pk: 0, max_pk: u64::MAX };
    assert!(page_repair(&dir, 4, &other, &shadow).is_none());
    let range = WalPageBkStoreValue { slot_id: 7, page_id: 0, min_pk: 5, max_pk: u64::MAX };
    assert!(page_repair(&dir, 4, &range, &shadow).is_none());
    let told = WalPageBkStoreValue { slot_id: 7, page_id: 0, min_pk: 0, max_pk: u64::MAX };
    assert!(page_repair(&dir, 4, &told, &shadow[..shadow.len() - 1]).is_none());
    assert!(page_repair(&dir, 4, &told, &[]).is_none());
}

#[test]
fn an_index_in_the_shadow_file_goes_to_the_index_file_again() {
    let mut shadow = vec![];
    shadow.extend_from_slice(&0u64.to_be_bytes());
    shadow.extend_from_slice(&4u64.to_be_bytes());
    let told = WalPageIndexStoreValue::new(9);
    let dir = "/data".to_string();
    let write = index_repair(&dir, 4, &told, &shadow).unwrap();
    assert_eq!(write.path, "/data/slot_9_index");
    assert_eq!((write.seek_pos, write.truncate, write.log_position), (0, true, 0));
    assert_eq!(&write.bytes[..], &shadow[..]);
    assert!(index_repair(&dir, 4, &told, &shadow[..15]).is_none());
    assert!(index_repair(&dir, 4, &told, &[]).is_none());
}
