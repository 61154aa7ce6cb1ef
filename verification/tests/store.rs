use bytes::BytesMut;
use feature_base::calc_hash;
use feature_base::feature::value::ValueKind;
use feature_base::store::recover::{read_log, recover, recovered_ids};
use feature_base::store::wal::{
    IdSource, Wal, WalFeatureUpdateValue, WalLogKind, WalPageBkStoreValue,
};
use feature_base::store::{slot_id_of, Store};

fn update_value(fk: &str, tk: u64, undo_v: Option<ValueKind>, redo_v: ValueKind) -> WalFeatureUpdateValue {
    WalFeatureUpdateValue { fk: fk.to_string(), tk, undo_v, redo_v }
}

fn written(wal: &mut Wal) -> BytesMut {
    let mut out = BytesMut::new();
    while let Some(item) = wal.write_next(&mut out) {
        assert!(wal.record_written(item.action_id));
    }
    out
}

fn window(store: &Store, key: &str, tk: u64) -> Option<ValueKind> {
    let key = key.to_string();
    let (_, page) = store.get_page(calc_hash(&key)).unwrap();
    match page.get(&key) {
        Some(value) => value.get(tk),
        None => None,
    }
}

#[test]
fn test_recover() {
    let store = Store::new("/Users/yang/feature_db".to_string(), &[]).unwrap();
    assert_eq!(store.data_dir(), "/Users/yang/feature_db");
    for s in [0usize, 1, 2048, 4095] {
        let slot = store.slot(s);
        assert_eq!(slot.id() as usize, s);
        assert_eq!(slot.page_count(), 1);
        let page = slot.page_at(0);
        assert_eq!((page.slot_id() as usize, page.id(), page.min_pk(), page.max_pk()), (s, 0, 0, u64::MAX));
        assert_eq!(page.len(), 0);
        assert!(slot.page_id_in_use(0));
        assert!(!slot.page_id_in_use(1));
    }
}

#[test]
fn a_hash_is_routed_by_its_twelve_high_bits() {
    assert_eq!(slot_id_of(0), 0);
    assert_eq!(slot_id_of((1u64 << 52) - 1), 0);
    assert_eq!(slot_id_of(1u64 << 52), 1);
    assert_eq!(slot_id_of(u64::MAX), 4095);
    let store = Store::new("/data".to_string(), &[]).unwrap();
    let hash = calc_hash(&"101110001".to_string());
    assert_eq!(store.get_slot(hash).unwrap().id() as u64, hash >> 52);
    let (min_pk, page) = store.get_page(hash).unwrap();
    assert_eq!(min_pk, 0);
    assert_eq!(page.slot_id() as u64, hash >> 52);
    assert_eq!(store.locate(hash).unwrap(), ((hash >> 52) as usize, 0));
    assert_eq!(store.get_page(u64::MAX).unwrap_err().code, 10000);
    assert_eq!(store.locate(u64::MAX).unwrap_err().code, 10000);
}

#[test]
fn what_was_committed_is_done_again() {
    let mut wal = Wal::new(IdSource { next_tid: 0, next_action_id: 0 });
    let first = wal.generate_tid();
    wal.send_begin_log(first).unwrap();
    wal.send_feature_update_log(first, update_value("a", 10, None, ValueKind::Int(1))).unwrap();
    let second = wal.generate_tid();
    wal.send_begin_log(second).unwrap();
    wal.send_feature_update_log(second, update_value("b", 10, None, ValueKind::Int(7))).unwrap();
    wal.send_feature_update_log(first, update_value("a", 10, Some(ValueKind::Int(1)), ValueKind::Int(2)))
        .unwrap();
    wal.send_feature_update_log(first, update_value("a", 20, None, ValueKind::Int(1))).unwrap();
    wal.send_page_bk_store_log(
        first,
        WalPageBkStoreValue { slot_id: 0, page_id: 0, min_pk: 0, max_pk: u64::MAX },
    )
    .unwrap();
    wal.commit_log(first).unwrap();
    let log = written(&mut wal);

    let store = Store::new("/data".to_string(), &log).unwrap();
    assert_eq!(window(&store, "a", 10), Some(ValueKind::Int(2)));
    assert_eq!(window(&store, "a", 20), Some(ValueKind::Int(1)));
    assert_eq!(window(&store, "b", 10), None);
    let key = "a".to_string();
    let (s, i) = store.locate(calc_hash(&key)).unwrap();
    let mark = store.slot(s).page_at(i).dirty().unwrap();
    assert_eq!((mark.first_action_id, mark.last_action_id), (1, 5));

    let items = read_log(&log).unwrap();
    assert_eq!(items.len(), 8);
    assert_eq!(items[7].kind, WalLogKind::Commit);
    assert_eq!(recovered_ids(&items), IdSource { next_tid: 2, next_action_id: 8 });
    assert_eq!(recovered_ids(&vec![]), IdSource { next_tid: 0, next_action_id: 0 });
}

#[test]
fn a_log_that_breaks_off_is_read_to_the_last_whole_record() {
    let mut wal = Wal::new(IdSource { next_tid: 0, next_action_id: 0 });
    wal.send_begin_log(0).unwrap();
    wal.send_feature_update_log(0, update_value("a", 10, None, ValueKind::Int(1))).unwrap();
    wal.commit_log(0).unwrap();
    let whole = written(&mut wal).len();
    wal.send_begin_log(1).unwrap();
    wal.send_feature_update_log(1, update_value("b", 10, None, ValueKind::Int(1))).unwrap();
    wal.commit_log(1).unwrap();
    let mut all = BytesMut::new();
    let mut again = Wal::new(IdSource { next_tid: 0, next_action_id: 0 });
    again.send_begin_log(0).unwrap();
    again.send_feature_update_log(0, update_value("a", 10, None, ValueKind::Int(1))).unwrap();
    again.commit_log(0).unwrap();
    again.send_begin_log(1).unwrap();
    again.send_feature_update_log(1, update_value("b", 10, None, ValueKind::Int(1))).unwrap();
    again.commit_log(1).unwrap();
    while let Some(item) = again.write_next(&mut all) {
        assert!(again.record_written(item.action_id));
    }

    for cut in whole..all.len() {
        let items = read_log(&all[..cut]).unwrap();
        assert!(items.len() >= 3 && items.len() < 6);
        let store = Store::new("/data".to_string(), &all[..cut]).unwrap();
        assert_eq!(window(&store, "a", 10), Some(ValueKind::Int(1)));
        assert_eq!(window(&store, "b", 10), None);
        if cut > whole + 200 {
            break;
        }
    }
    let store = Store::new("/data".to_string(), &all).unwrap();
    assert_eq!(window(&store, "b", 10), Some(ValueKind::Int(1)));
}

#[test]
fn a_log_is_cut_at_its_first_bad_record() {
    let mut wal = Wal::new(IdSource { next_tid: 0, next_action_id: 0 });
    wal.send_begin_log(0).unwrap();
    wal.send_feature_update_log(0, update_value("a", 10, None, ValueKind::Int(1))).unwrap();
    wal.commit_log(0).unwrap();
    let mut log = written(&mut wal);
    let good = log.len();
    log.extend_from_slice(&[0, 0, 0, 17, 0, 0, 0, 0, 0, 0, 0, 3, 7, 0, 0, 0, 0, 0, 0, 1, 2]);
    let mut more = Wal::new(IdSource { next_tid: 5, next_action_id: 50 });
    more.send_begin_log(5).unwrap();
    more.send_feature_update_log(5, update_value("c", 10, None, ValueKind::Int(1))).unwrap();
    more.commit_log(5).unwrap();
    let tail = written(&mut more);
    log.extend_from_slice(&tail);

    let items = read_log(&log).unwrap();
    assert_eq!(items.len(), 3);
    let store = Store::new("/data".to_string(), &log).unwrap();
    assert_eq!(window(&store, "a", 10), Some(ValueKind::Int(1)));
    assert_eq!(window(&store, "c", 10), None);

    let bad_start = &log[good..];
    assert_eq!(read_log(bad_start).unwrap_err().code, 10000);
    assert_eq!(Store::new("/data".to_string(), bad_start).unwrap_err().code, 10000);
    let mut fresh = Store::empty("/data".to_string());
    assert_eq!(recover(&mut fresh, bad_start).unwrap_err().code, 10000);
    let mut fresh = Store::empty("/data".to_string());
    recover(&mut fresh, &log[..good]).unwrap();
    assert_eq!(window(&fresh, "a", 10), Some(ValueKind::Int(1)));
}

#[test]
fn a_checkpoint_writes_out_what_has_changed_and_keeps_what_is_held() {
    let mut store = Store::new("/data".to_string(), &[]).unwrap();
    let key = "101110001".to_string();
    let (s, i) = store.locate(calc_hash(&key)).unwrap();
    store.page_mut(s, i).add_int(&key, 25, 10, 3).unwrap();
    store.after_update(s, i, 4);
    let mut wal = Wal::new(IdSource { next_tid: 0, next_action_id: 5 });
    let mut writes = vec![];
    store.check_point(&mut wal, &mut writes).unwrap();
    assert_eq!(writes.len(), 2);
    assert_eq!(writes[0].path, format!("/data/slot_{}_shard", s));
    assert_eq!(writes[1].path, format!("/data/slot_{}_page_0", s));
    assert_eq!(wal.pending(), 3);
    assert_eq!(window(&store, "101110001", 20), Some(ValueKind::Int(3)));
    assert_eq!(store.slot(s).page_at(i).dirty(), None);
    let mut again = vec![];
    store.check_point(&mut wal, &mut again).unwrap();
    assert_eq!(again.len(), 0);
    assert_eq!(wal.pending(), 3);
}

#[test]
fn pages_are_locked_by_slot_and_lower_bound_each_once() {
    let store = Store::new("/data".to_string(), &[]).unwrap();
    let hashes: Vec<u64> = vec![
        (9u64 << 52) + 5,
        3u64 << 52,
        u64::MAX,
        (9u64 << 52) + 77,
        0,
        (3u64 << 52) + 1,
        4095u64 << 52,
    ];
    assert_eq!(
        store.lock_order(&hashes),
        vec![(0u16, 0u64), (3, 0), (9, 0), (4095, 0)]
    );
    assert_eq!(store.lock_order(&vec![]), Vec::<(u16, u64)>::new());
    assert_eq!(store.lock_order(&vec![u64::MAX]), Vec::<(u16, u64)>::new());
}
