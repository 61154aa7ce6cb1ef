use bytes::BytesMut;
use feature_base::calc_hash;
use feature_base::config::Config;
use feature_base::ds::column::{
    check_value_and_type_match, get_value_as_int, get_value_as_u64, get_value_to_str, ColumnType,
};
use feature_base::ds::event::{Event, EventValue};
use feature_base::ds::DataSet;
use feature_base::feature::count_feature::CountFeatureTemplate;
use feature_base::feature::value::ValueKind;
use feature_base::feature::{Feature, FeatureTemplate};
use feature_base::node::{build_feature_keys, create_and_init, Node};
use feature_base::store::page::Page;
use feature_base::store::wal::{WalLogItem, WalLogKind, WalLogValue};
use feature_base::WindowUnit;

fn count_feature(id: u64, group_keys: &[&str], unit: WindowUnit, size: u64) -> Feature {
    Feature {
        id,
        name: format!("feature {}", id),
        template: FeatureTemplate::COUNT(CountFeatureTemplate {
            group_keys: group_keys.iter().map(|k| k.to_string()).collect(),
            time_key: "ts".to_string(),
            window_unit: unit,
            window_size: size,
        }),
    }
}

fn user_orders(features: Vec<Feature>) -> DataSet {
    DataSet {
        id: 101,
        name: "ds_user_order".to_string(),
        desc: "orders of users".to_string(),
        column_type_map: vec![
            ("user_id".to_string(), ColumnType::INT),
            ("amount".to_string(), ColumnType::FLOAT),
            ("ts".to_string(), ColumnType::DATETIME),
            ("city".to_string(), ColumnType::TEXT),
        ],
        features,
    }
}

fn number(n: u64) -> EventValue {
    EventValue::PosInt(n, n.to_string())
}

fn order(user_id: Option<u64>, ts: u64) -> Event {
    let mut event = Event::new();
    event.push("ds".to_string(), number(101));
    if let Some(user_id) = user_id {
        event.push("user_id".to_string(), number(user_id));
    }
    event.push("amount".to_string(), EventValue::Float("150.5".to_string()));
    event.push("ts".to_string(), number(ts));
    event
}

fn node_with(features: Vec<Feature>, log: &[u8]) -> Node {
    create_and_init(
        Config { data_dir: "/Users/yang/feature_db".to_string() },
        vec![user_orders(features)],
        log,
    )
    .unwrap()
}

fn records_written(node: &mut Node, out: &mut BytesMut) -> Vec<WalLogItem> {
    let mut items = vec![];
    while let Some(item) = node.write_next(out) {
        assert!(node.record_written(item.action_id));
        items.push(item);
    }
    items
}

fn window(node: &Node, key: &str, tk: u64) -> Option<ValueKind> {
    let key = key.to_string();
    let (_, page) = node.store().get_page(calc_hash(&key)).unwrap();
    match page.get(&key) {
        Some(value) => value.get(tk),
        None => None,
    }
}

#[test]
fn node_count_test() {
    let mut node = node_with(vec![count_feature(10001, &["user_id"], WindowUnit::DAY, 30)], &[]);
    let start: u64 = 1651134356123;
    for i in 0..100u64 {
        let user_id: u64 = 1011;
        let event = order(Some(user_id), start + i);
        let result = node.update(&event).unwrap();
        println!("write result:{:?}", result);
        assert_eq!(result.id, 101);
        assert!(result.feature_result_map.get(&10001).unwrap().success);
    }
    let tk = start - start % 2592000000;
    assert_eq!(window(&node, "101110001", tk), Some(ValueKind::Int(100)));
    let mut out = BytesMut::new();
    let items = records_written(&mut node, &mut out);
    assert_eq!(items.len(), 300);
    let mut last = None;
    let mut updates = 0;
    for item in &items {
        if let Some(before) = last {
            assert!(before < item.action_id);
        }
        last = Some(item.action_id);
        if let Some(WalLogValue::FeatureUpdate(update)) = &item.value {
            assert_eq!(item.kind, WalLogKind::FeatureUpdate);
            assert_eq!(update.fk, "101110001");
            assert_eq!(update.tk, tk);
            if updates == 0 {
                assert_eq!(update.undo_v, None);
            } else {
                assert_eq!(update.undo_v, Some(ValueKind::Int(updates)));
            }
            assert_eq!(update.redo_v, ValueKind::Int(updates + 1));
            updates += 1;
        }
    }
    assert_eq!(updates, 100);
}

#[test]
fn one_event_counts_once() {
    let mut node = node_with(vec![count_feature(10001, &["user_id"], WindowUnit::DAY, 30)], &[]);
    let result = node.update(&order(Some(1011), 1651000000000)).unwrap();
    assert_eq!(result.id, 101);
    assert_eq!(result.feature_result_map.len(), 1);
    assert!(result.feature_result_map.get(&10001).unwrap().success);
    assert_eq!(result.commit_action_id, 2);

    let key = "101110001".to_string();
    let hash = calc_hash(&key);
    let slot = node.store().get_slot(hash).unwrap();
    assert_eq!(slot.id() as u64, hash >> 52);
    assert_eq!(slot.page_count(), 1);
    let page: &Page = slot.page_at(0);
    assert_eq!(page.len(), 1);
    assert_eq!(page.key_at(0), "101110001");
    let value = page.value_at(0);
    assert_eq!(value.len(), 1);
    assert_eq!(value.entry(0), (1648512000000, ValueKind::Int(1)));
    assert_eq!(1651000000000u64 - 1651000000000u64 % 2592000000, 1648512000000);
    let mark = page.dirty().unwrap();
    assert_eq!((mark.first_action_id, mark.last_action_id), (0, 0));

    assert!(!node.wal().is_written(result.commit_action_id));
    let mut out = BytesMut::new();
    let items = records_written(&mut node, &mut out);
    let kinds: Vec<WalLogKind> = items.iter().map(|item| item.kind).collect();
    assert_eq!(kinds, vec![WalLogKind::Begin, WalLogKind::FeatureUpdate, WalLogKind::Commit]);
    assert!(items.iter().all(|item| item.tid == 0));
    assert!(node.wal().is_written(result.commit_action_id));
    assert_eq!(node.config().data_dir, "/Users/yang/feature_db");
}

#[test]
fn an_event_that_lacks_a_column_fails_for_the_feature_and_commits() {
    let mut node = node_with(vec![count_feature(10001, &["user_id"], WindowUnit::DAY, 30)], &[]);
    let result = node.update(&order(None, 1651000000000)).unwrap();
    let failed = result.feature_result_map.get(&10001).unwrap();
    assert!(!failed.success);
    assert!(failed.msg.contains("user_id"));
    assert!(failed.msg.contains("10001"));
    assert_eq!(failed.msg, "error code: 10001, details: no value found for key: user_id");
    for s in [0usize, 1, 4095] {
        assert_eq!(node.store().slot(s).page_at(0).dirty(), None);
        assert_eq!(node.store().slot(s).page_at(0).len(), 0);
    }
    let mut out = BytesMut::new();
    let items = records_written(&mut node, &mut out);
    let kinds: Vec<WalLogKind> = items.iter().map(|item| item.kind).collect();
    assert_eq!(kinds, vec![WalLogKind::Begin, WalLogKind::Commit]);
}

#[test]
fn a_feature_that_fails_does_not_keep_the_others() {
    let features = vec![
        count_feature(1, &["user_id"], WindowUnit::DAY, 30),
        count_feature(2, &["nothing"], WindowUnit::DAY, 30),
        count_feature(3, &["city"], WindowUnit::DAY, 30),
        count_feature(4, &["user_id", "amount"], WindowUnit::SECOND, 1),
        count_feature(5, &["user_id"], WindowUnit::DAY, u64::MAX),
        count_feature(6, &["user_id"], WindowUnit::DAY, 0),
        count_feature(7, &[], WindowUnit::HOUR, 1),
    ];
    let mut node = node_with(features, &[]);
    let result = node.update(&order(Some(1011), 1651000000999)).unwrap();
    let map = &result.feature_result_map;
    assert_eq!(map.len(), 7);
    assert!(map.get(&1).unwrap().success);
    assert!(!map.get(&2).unwrap().success);
    assert!(map.get(&2).unwrap().msg.contains("10003"));
    assert!(map.get(&2).unwrap().msg.contains("nothing"));
    assert_eq!(
        map.get(&2).unwrap().msg,
        "error code: 10003, details: the dataset has no column for key: nothing"
    );
    assert_eq!(map.get(&1).unwrap().msg, "");
    assert!(!map.get(&3).unwrap().success);
    assert!(map.get(&3).unwrap().msg.contains("10001"));
    assert!(map.get(&4).unwrap().success);
    assert!(!map.get(&5).unwrap().success);
    assert!(map.get(&5).unwrap().msg.contains("10000"));
    assert_eq!(map.get(&5).unwrap().msg, "error code: 10000, details: the window is too long");
    assert!(!map.get(&6).unwrap().success);
    assert_eq!(map.get(&6).unwrap().msg, "error code: 10000, details: the window has no length");
    assert!(map.get(&7).unwrap().success);
    assert_eq!(result.commit_action_id, 4);
    assert_eq!(window(&node, "10111", 1648512000000), Some(ValueKind::Int(1)));
    assert_eq!(window(&node, "1011150.54", 1651000000000), Some(ValueKind::Int(1)));
    assert_eq!(window(&node, "7", 1650999600000), Some(ValueKind::Int(1)));
}

#[test]
fn an_event_of_no_dataset_changes_nothing() {
    let mut node = node_with(vec![count_feature(10001, &["user_id"], WindowUnit::DAY, 30)], &[]);
    let mut unknown = Event::new();
    unknown.push("ds".to_string(), number(102));
    let refused = node.update(&unknown).unwrap_err();
    assert_eq!(refused.code, 10000);
    assert_eq!(refused.message, "the node has no such dataset");
    let mut unnamed = Event::new();
    unnamed.push("user_id".to_string(), number(1));
    let lacking = node.update(&unnamed).unwrap_err();
    assert_eq!(lacking.code, 10001);
    assert_eq!(lacking.message, "no value found for key: ds");
    let mut text = Event::new();
    text.push("ds".to_string(), EventValue::Text("101".to_string()));
    assert_eq!(node.update(&text).unwrap_err().code, 10002);
    assert_eq!(node.wal().pending(), 0);
    assert_eq!(node.wal().id_source().next_tid, 0);
}

#[test]
fn a_time_that_is_no_whole_number_is_a_type_mismatch() {
    let mut node = node_with(vec![count_feature(10001, &["user_id"], WindowUnit::DAY, 30)], &[]);
    let mut event = Event::new();
    event.push("ds".to_string(), number(101));
    event.push("user_id".to_string(), number(1011));
    event.push("ts".to_string(), EventValue::NegInt(-5, "-5".to_string()));
    let result = node.update(&event).unwrap();
    let failed = result.feature_result_map.get(&10001).unwrap();
    assert!(!failed.success);
    assert!(failed.msg.contains("10002"));
    assert_eq!(failed.msg, "error code: 10002, details: value has the wrong type for key: ts");
    assert_eq!(window(&node, "101110001", 0), None);
}

#[test]
fn a_node_comes_back_from_its_log_with_what_was_committed() {
    let mut node = node_with(vec![count_feature(10001, &["user_id"], WindowUnit::DAY, 30)], &[]);
    for user in [1011u64, 1012, 1011, 1013, 1011] {
        node.update(&order(Some(user), 1651000000000)).unwrap();
    }
    let mut log = BytesMut::new();
    let items = records_written(&mut node, &mut log);
    assert_eq!(items.len(), 15);
    let commit_of_fourth = 4 * 21 * 3;
    assert!(commit_of_fourth < log.len());

    let again = node_with(vec![count_feature(10001, &["user_id"], WindowUnit::DAY, 30)], &log);
    for (key, count) in [("101110001", 3u64), ("101210001", 1), ("101310001", 1)] {
        assert_eq!(window(&again, key, 1648512000000), Some(ValueKind::Int(count)));
        assert_eq!(window(&node, key, 1648512000000), Some(ValueKind::Int(count)));
    }
    assert_eq!(again.wal().id_source().next_tid, 5);
    assert_eq!(again.wal().id_source().next_action_id, 15);

    let last_commit = log.len() - 21;
    let killed = node_with(
        vec![count_feature(10001, &["user_id"], WindowUnit::DAY, 30)],
        &log[..last_commit],
    );
    assert_eq!(window(&killed, "101110001", 1648512000000), Some(ValueKind::Int(2)));
    assert_eq!(window(&killed, "101310001", 1648512000000), Some(ValueKind::Int(1)));
}

#[test]
fn a_node_writes_out_its_pages_at_a_checkpoint() {
    let mut node = node_with(vec![count_feature(10001, &["user_id"], WindowUnit::DAY, 30)], &[]);
    node.update(&order(Some(1011), 1651000000000)).unwrap();
    let mut writes = vec![];
    node.check_point(&mut writes).unwrap();
    assert_eq!(writes.len(), 2);
    assert!(writes[0].path.ends_with("_shard"));
    assert!(writes[0].path.starts_with("/Users/yang/feature_db/slot_"));
    assert_eq!(window(&node, "101110001", 1648512000000), Some(ValueKind::Int(1)));
    let mut out = BytesMut::new();
    let kinds: Vec<WalLogKind> = records_written(&mut node, &mut out).iter().map(|i| i.kind).collect();
    assert_eq!(
        kinds,
        vec![
            WalLogKind::Begin,
            WalLogKind::FeatureUpdate,
            WalLogKind::Commit,
            WalLogKind::Begin,
            WalLogKind::PageBkStore,
            WalLogKind::Commit,
        ]
    );
}

#[test]
fn keys_are_built_from_the_columns_of_a_group() {
    let ds = user_orders(vec![
        count_feature(10001, &["user_id"], WindowUnit::DAY, 30),
        count_feature(10002, &["user_id", "ts", "amount", "city"], WindowUnit::DAY, 30),
        count_feature(10003, &["missing"], WindowUnit::DAY, 30),
    ]);
    let mut event = order(Some(1011), 1651000000000);
    event.push("city".to_string(), EventValue::Text("上海".to_string()));
    let (keys, failures) = build_feature_keys(&event, &ds);
    assert_eq!(
        keys,
        vec![
            ("101110001".to_string(), 0usize),
            ("10111651000000000150.5上海10002".to_string(), 1usize),
        ]
    );
    assert_eq!(failures.len(), 1);
    assert!(!failures.get(&10003).unwrap().success);
    assert_eq!(
        ds.features[0].build_key(&event, &ds.column_type_map).unwrap(),
        "101110001"
    );
}

#[test]
fn columns_are_read_by_their_types() {
    let mut event = Event::new();
    event.push("text".to_string(), EventValue::Text("abc".to_string()));
    event.push("small".to_string(), number(43));
    event.push("large".to_string(), EventValue::PosInt(u64::MAX, "18446744073709552000".to_string()));
    event.push("negative".to_string(), EventValue::NegInt(-7, "-7".to_string()));
    event.push("float".to_string(), EventValue::Float("1.5".to_string()));
    event.push("other".to_string(), EventValue::Other);
    event.push("small".to_string(), number(99));

    assert_eq!(get_value_as_int(&event, "small").unwrap(), 43);
    assert_eq!(get_value_as_int(&event, "negative").unwrap(), -7);
    assert_eq!(get_value_as_int(&event, "large").unwrap_err().code, 10002);
    assert_eq!(get_value_as_int(&event, "float").unwrap_err().code, 10002);
    assert_eq!(get_value_as_int(&event, "absent").unwrap_err().code, 10001);
    assert_eq!(get_value_as_u64(&event, "large").unwrap(), u64::MAX);
    assert_eq!(get_value_as_u64(&event, "negative").unwrap_err().code, 10002);
    assert_eq!(get_value_as_u64(&event, "text").unwrap_err().code, 10002);

    assert_eq!(get_value_to_str(&event, "text", &ColumnType::TEXT).unwrap(), "abc");
    assert_eq!(get_value_to_str(&event, "small", &ColumnType::INT).unwrap(), "43");
    assert_eq!(get_value_to_str(&event, "negative", &ColumnType::INT).unwrap(), "-7");
    assert_eq!(get_value_to_str(&event, "small", &ColumnType::FLOAT).unwrap(), "43");
    assert_eq!(get_value_to_str(&event, "float", &ColumnType::FLOAT).unwrap(), "1.5");
    assert_eq!(
        get_value_to_str(&event, "large", &ColumnType::DATETIME).unwrap(),
        "18446744073709551615"
    );
    assert_eq!(get_value_to_str(&event, "small", &ColumnType::TEXT).unwrap_err().code, 10002);
    assert_eq!(get_value_to_str(&event, "other", &ColumnType::INT).unwrap_err().code, 10002);
    assert_eq!(get_value_to_str(&event, "negative", &ColumnType::DATETIME).unwrap_err().code, 10002);
    assert_eq!(get_value_to_str(&event, "absent", &ColumnType::TEXT).unwrap_err().code, 10001);

    assert!(check_value_and_type_match(&event, "float", &ColumnType::FLOAT).is_ok());
    assert!(check_value_and_type_match(&event, "small", &ColumnType::DATETIME).is_ok());
    assert_eq!(
        check_value_and_type_match(&event, "float", &ColumnType::INT).unwrap_err().code,
        10002
    );
    assert_eq!(
        check_value_and_type_match(&event, "absent", &ColumnType::INT).unwrap_err().code,
        10001
    );
}

#[test]
fn an_update_that_is_refused_leaves_the_pages_that_wait() {
    let mut node = node_with(vec![count_feature(10001, &["user_id"], WindowUnit::DAY, 30)], &[]);
    node.update(&order(Some(1011), 1651000000000)).unwrap();
    let key = "101110001".to_string();
    let s = (calc_hash(&key) >> 52) as usize;
    assert!(node.store().slot(s).page_at(0).dirty().is_some());
    let mut unknown = Event::new();
    unknown.push("ds".to_string(), number(102));
    assert!(node.update(&unknown).is_err());
    let mark = node.store().slot(s).page_at(0).dirty().unwrap();
    assert_eq!((mark.first_action_id, mark.last_action_id), (0, 0));
    let mut writes = vec![];
    node.check_point(&mut writes).unwrap();
    assert_eq!(writes.len(), 2);
    assert_eq!(writes[1].path, format!("/Users/yang/feature_db/slot_{}_page_0", s));
}

#[test]
fn a_page_waits_once_however_often_it_is_updated() {
    let mut node = node_with(
        vec![
            count_feature(1, &["user_id"], WindowUnit::DAY, 30),
            count_feature(2, &["user_id"], WindowUnit::HOUR, 1),
        ],
        &[],
    );
    node.update(&order(Some(1011), 1651000000000)).unwrap();
    node.update(&order(Some(1011), 1651000000001)).unwrap();
    let mut writes = vec![];
    node.check_point(&mut writes).unwrap();
    let pages: Vec<&String> =
        writes.iter().map(|w| &w.path).filter(|p| p.ends_with("_page_0")).collect();
    let mut slots = vec![(calc_hash(&"10111".to_string()) >> 52), (calc_hash(&"10112".to_string()) >> 52)];
    slots.dedup();
    assert_eq!(pages.len(), slots.len());
    let mut again = vec![];
    node.check_point(&mut again).unwrap();
    assert_eq!(again.len(), 0);
}

#[test]
fn a_write_that_fails_is_not_committed_and_is_made_again() {
    let mut node = node_with(vec![count_feature(10001, &["user_id"], WindowUnit::DAY, 30)], &[]);
    node.update(&order(Some(1011), 1651000000000)).unwrap();
    let key = "101110001".to_string();
    let s = (calc_hash(&key) >> 52) as usize;
    let mut out = BytesMut::new();
    assert_eq!(records_written(&mut node, &mut out).len(), 3);

    let mut writes = vec![];
    node.check_point(&mut writes).unwrap();
    assert_eq!(writes.len(), 2);
    assert_eq!((writes[0].log_position, writes[1].log_position), (4, 5));
    assert_eq!((writes[0].flush.tid, writes[1].flush.tid), (1, 1));
    assert_eq!(node.store().slot(s).page_at(0).dirty(), None);

    let begin = node.write_next(&mut out).unwrap();
    assert_eq!((begin.action_id, begin.kind), (3, WalLogKind::Begin));
    assert!(node.record_written(3));
    let told = node.write_next(&mut out).unwrap();
    assert_eq!((told.action_id, told.kind), (4, WalLogKind::PageBkStore));
    assert!(node.record_written(4));
    assert!(node.may_write(&writes[1]));
    node.write_failed(&writes[1]);
    assert!(!node.may_write(&writes[1]));
    assert!(node.wal().is_lost(5));
    let held = out.len();
    assert!(node.write_next(&mut out).is_none());
    assert_eq!(out.len(), held);
    let mark = node.store().slot(s).page_at(0).dirty().unwrap();
    assert_eq!((mark.first_action_id, mark.last_action_id), (5, 5));
    assert_eq!(window(&node, "101110001", 1648512000000), Some(ValueKind::Int(1)));

    let mut again = vec![];
    node.check_point(&mut again).unwrap();
    assert_eq!(again.len(), 2);
    assert_eq!(again[1].path, writes[1].path);
    assert_eq!(&again[1].bytes[..], &writes[1].bytes[..]);
    assert_eq!((again[0].flush.tid, again[0].log_position), (2, 7));
    let kinds: Vec<WalLogKind> =
        records_written(&mut node, &mut out).iter().map(|item| item.kind).collect();
    assert_eq!(kinds, vec![WalLogKind::Begin, WalLogKind::PageBkStore, WalLogKind::Commit]);
    assert!(node.wal().is_written(8));
}
