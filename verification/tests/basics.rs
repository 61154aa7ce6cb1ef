use feature_base::custom_error::{
    column_not_found_in_ds_err, common_err, decode_failed_by_insufficient_data_err,
    value_not_found_err, value_type_not_match_err, CustomError,
    DECODE_FAILED_BY_INSUFFICIENT_DATA_CODE,
};
use feature_base::ds::FeatureUpdateResult;
use feature_base::store::wal::{
    generate_action_id, generate_tid, get_wal_file_path, IdSource, WalPageIndexStoreValue, WalState,
};
use feature_base::tools::decimal::{i64_to_string, u64_to_string};
use feature_base::{calc_hash, WindowUnit};
use std::collections::hash_map::DefaultHasher;
use std::hash::{Hash, Hasher};

#[test]
fn window_units_have_their_milliseconds() {
    assert_eq!(WindowUnit::SECOND.to_millis(1), 1000);
    assert_eq!(WindowUnit::MINUTE.to_millis(1), 60_000);
    assert_eq!(WindowUnit::HOUR.to_millis(1), 3_600_000);
    assert_eq!(WindowUnit::DAY.to_millis(1), 86_400_000);
    assert_eq!(WindowUnit::DAY.to_millis(30), 2_592_000_000);
    assert_eq!(WindowUnit::SECOND.to_millis(0), 0);
}

#[test]
fn window_lengths_that_do_not_fit_are_not_given() {
    assert_eq!(WindowUnit::DAY.checked_to_millis(30), Some(2_592_000_000));
    assert_eq!(WindowUnit::DAY.checked_to_millis(u64::MAX), None);
    assert_eq!(
        WindowUnit::SECOND.checked_to_millis(u64::MAX / 1000),
        Some(u64::MAX / 1000 * 1000)
    );
    assert_eq!(WindowUnit::SECOND.checked_to_millis(u64::MAX / 1000 + 1), None);
}

#[test]
fn the_hash_of_a_key_is_that_of_the_default_hasher() {
    let key = "101110001".to_string();
    let mut hasher = DefaultHasher::new();
    key.hash(&mut hasher);
    assert_eq!(calc_hash(&key), hasher.finish());
    assert_eq!(calc_hash(&key), calc_hash(&"101110001".to_string()));
    assert_ne!(calc_hash(&key), calc_hash(&"101110002".to_string()));
}

#[test]
fn errors_have_their_codes() {
    assert_eq!(common_err("x".to_string()).code, 10000);
    assert_eq!(common_err("x".to_string()).message, "x");
    assert_eq!(CustomError::new("y".to_string()).code, 10000);
    assert_eq!(value_not_found_err("user_id").code, 10001);
    assert!(value_not_found_err("user_id").message.contains("user_id"));
    assert_eq!(value_type_not_match_err("ts").code, 10002);
    assert!(value_type_not_match_err("ts").message.contains("ts"));
    assert_eq!(column_not_found_in_ds_err("amount").code, 10003);
    assert!(column_not_found_in_ds_err("amount").message.contains("amount"));
    assert_eq!(decode_failed_by_insufficient_data_err().code, 20001);
    assert_eq!(DECODE_FAILED_BY_INSUFFICIENT_DATA_CODE, 20001);
    assert!(decode_failed_by_insufficient_data_err().is_insufficient_data());
    assert!(!common_err("x".to_string()).is_insufficient_data());
}

#[test]
fn an_error_is_written_with_its_code_and_message() {
    let e = value_not_found_err("user_id");
    assert_eq!(
        e.to_string(),
        "error code: 10001, details: no value found for key: user_id"
    );
}

#[test]
fn numbers_are_written_in_decimal() {
    assert_eq!(u64_to_string(0), "0");
    assert_eq!(u64_to_string(7), "7");
    assert_eq!(u64_to_string(10001), "10001");
    assert_eq!(u64_to_string(u64::MAX), "18446744073709551615");
    assert_eq!(i64_to_string(0), "0");
    assert_eq!(i64_to_string(1011), "1011");
    assert_eq!(i64_to_string(-42), "-42");
    assert_eq!(i64_to_string(i64::MIN), "-9223372036854775808");
    assert_eq!(i64_to_string(i64::MAX), "9223372036854775807");
}

#[test]
fn ids_are_handed_out_one_after_the_other() {
    let mut ids = IdSource { next_tid: 0, next_action_id: 5 };
    assert_eq!(generate_tid(&mut ids), 0);
    assert_eq!(generate_tid(&mut ids), 1);
    assert_eq!(generate_action_id(&mut ids), 5);
    assert_eq!(generate_action_id(&mut ids), 6);
    assert_eq!(ids, IdSource { next_tid: 2, next_action_id: 7 });
    let mut last = IdSource { next_tid: u64::MAX, next_action_id: u64::MAX };
    assert_eq!(generate_tid(&mut last), u64::MAX);
    assert_eq!(last.next_tid, 0);
}

#[test]
fn small_values_are_made_as_they_are_named() {
    assert_eq!(WalState::new().stored_num, 0);
    assert_eq!(WalPageIndexStoreValue::new(7).slot_id, 7);
    assert_eq!(get_wal_file_path("/data".to_string()), "/data/redo.log");
    let failed = FeatureUpdateResult::failed("why".to_string());
    assert!(!failed.success);
    assert_eq!(failed.msg, "why");
    assert!(FeatureUpdateResult::succeeded().success);
}
