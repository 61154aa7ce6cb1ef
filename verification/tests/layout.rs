use bytes::BytesMut;
use feature_base::calc_hash;
use feature_base::feature::value::ValueKind;
use feature_base::store::layout::{is_proper, read_index};
use feature_base::store::recover::read_log;
use feature_base::store::repair::finished_indexes;
use feature_base::store::wal::{
    IdSource, Wal, WalFeatureUpdateValue, WalPageIndexStoreValue,
};
use feature_base::store::{slot_id_of, Store};

fn log_with(keys: &[String]) -> Vec<u8> {
    let mut wal = Wal::new(IdSource { next_tid: 0, next_action_id: 0 });
    let tid = wal.generate_tid();
    wal.send_begin_log(tid).unwrap();
    for (i, key) in keys.iter().enumerate() {
        wal.send_feature_update_log(
            tid,
            WalFeatureUpdateValue {
                fk: key.clone(),
                tk: 1000,
                undo_v: None,
                redo_v: ValueKind::Int(i as u64 + 1),
            },
        )
        .unwrap();
    }
    wal.commit_log(tid).unwrap();
    let mut out = BytesMut::new();
    while let Some(item) = wal.write_next(&mut out) {
        assert!(wal.record_written(item.action_id));
    }
    out.to_vec()
}

fn index_of(pairs: &[(u64, u64)]) -> Vec<u8> {
    let mut bytes = vec![];
    for (min_pk, page_id) in pairs {
        bytes.extend_from_slice(&min_pk.to_be_bytes());
        bytes.extend_from_slice(&page_id.to_be_bytes());
    }
    bytes
}

fn keys_of_slot(slot: u16, n: usize) -> Vec<String> {
    let mut keys = vec![];
    let mut i = 0u64;
    while keys.len() < n {
        let key = format!("key-{}", i);
        if slot_id_of(calc_hash(&key)) == slot && calc_hash(&key) != u64::MAX {
            keys.push(key);
        }
        i += 1;
    }
    keys
}

#[test]
fn an_index_is_read_pair_by_pair() {
    let bytes = index_of(&[(0, 4), (77, 1)]);
    assert_eq!(read_index(&bytes), Some(vec![(0, 4), (77, 1)]));
    assert_eq!(read_index(&bytes[..31]), None);
    assert_eq!(read_index(&[]), Some(vec![]));
    assert!(is_proper(&vec![(0, 4), (77, 1)]));
    assert!(is_proper(&vec![(0, 0)]));
    assert!(!is_proper(&vec![]));
    assert!(!is_proper(&vec![(1, 0)]));
    assert!(!is_proper(&vec![(0, 4), (77, 4)]));
    assert!(!is_proper(&vec![(0, 4), (77, 1), (77, 2)]));
    assert!(!is_proper(&vec![(0, 4), (77, 1), (50, 2)]));
    assert!(!is_proper(&vec![(0, 262144)]));
    assert!(!is_proper(&vec![(0, 1), (u64::MAX, 2)]));
}

#[test]
fn the_pages_of_a_slot_are_laid_out_as_its_index_tells() {
    let keys = keys_of_slot(3, 40);
    let mut store = Store::new("/data".to_string(), &log_with(&keys)).unwrap();
    assert_eq!(store.slot(3).page_count(), 1);
    let base = 3u64 << 52;
    let cut = base + (1u64 << 51);
    let index = index_of(&[(0, 7), (base + 1, 0), (cut, 2)]);

    assert!(store.restore_layout(3, &index));
    let slot = store.slot(3);
    assert_eq!(slot.page_count(), 3);
    let expected = [(0u64, 7u64, base + 1), (base + 1, 0, cut), (cut, 2, u64::MAX)];
    let mut held = 0;
    for (i, (min_pk, id, max_pk)) in expected.iter().enumerate() {
        let page = slot.page_at(i);
        assert_eq!(slot.page_key(i), *min_pk);
        assert_eq!((page.min_pk(), page.id(), page.max_pk()), (*min_pk, *id, *max_pk));
        assert_eq!(page.slot_id(), 3);
        let mark = page.dirty().unwrap();
        assert_eq!((mark.first_action_id, mark.last_action_id), (1, 40));
        for j in 0..page.len() {
            let hash = calc_hash(page.key_at(j));
            assert!(*min_pk <= hash && hash < *max_pk);
        }
        held += page.len();
    }
    assert_eq!(held, 40);
    for id in [0u64, 2, 7] {
        assert!(slot.page_id_in_use(id));
    }
    for id in [1u64, 3, 8] {
        assert!(!slot.page_id_in_use(id));
    }
    for (i, key) in keys.iter().enumerate() {
        let (_, page) = store.get_page(calc_hash(key)).unwrap();
        assert_eq!(page.get(key).unwrap().get(1000), Some(ValueKind::Int(i as u64 + 1)));
    }
    let mut slot = store.slot_mut(3);
    assert_eq!(slot.get_wait_store_page(), vec![0, base + 1, cut]);
    let _ = &mut slot;
    assert!(!store.restore_layout(3, &index));
}

#[test]
fn what_is_no_index_of_a_slot_lays_nothing_out() {
    let keys = keys_of_slot(3, 5);
    let mut store = Store::new("/data".to_string(), &log_with(&keys)).unwrap();
    for index in [
        index_of(&[]),
        index_of(&[(5, 0)]),
        index_of(&[(0, 1), (9, 1)]),
        index_of(&[(0, 1), (9, 262144)]),
        index_of(&[(0, 1)])[..15].to_vec(),
    ] {
        assert!(!store.restore_layout(3, &index));
        assert_eq!(store.slot(3).page_count(), 1);
        assert_eq!(store.slot(3).page_at(0).len(), 5);
        assert!(store.slot(3).page_id_in_use(0));
    }
    assert!(!store.restore_layout(5000, &index_of(&[(0, 1)])));
    assert!(store.restore_layout(4, &index_of(&[(0, 9)])));
    assert_eq!(store.slot(4).page_at(0).id(), 9);
    assert_eq!(store.slot(4).page_at(0).dirty(), None);
    assert!(!store.slot(4).page_id_in_use(0));
}

#[test]
fn the_slots_whose_index_was_stored_are_found_in_the_log() {
    let mut wal = Wal::new(IdSource { next_tid: 0, next_action_id: 0 });
    let done = wal.generate_tid();
    wal.send_begin_log(done).unwrap();
    wal.send_page_index_store_log(done, WalPageIndexStoreValue::new(12)).unwrap();
    wal.commit_log(done).unwrap();
    let torn = wal.generate_tid();
    wal.send_begin_log(torn).unwrap();
    wal.send_page_index_store_log(torn, WalPageIndexStoreValue::new(13)).unwrap();
    let mut out = BytesMut::new();
    while let Some(item) = wal.write_next(&mut out) {
        assert!(wal.record_written(item.action_id));
    }
    let items = read_log(&out).unwrap();
    assert_eq!(finished_indexes(&items), vec![12]);
}
