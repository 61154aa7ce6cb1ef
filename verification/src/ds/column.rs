//! The types of columns, and the values of an event read by them.
use crate::custom_error::{
    type_mismatch_message, value_not_found_err, value_not_found_message, value_type_not_match_err,
    CustomError, CustomResult, TYPE_MISMATCH_CODE, VALUE_NOT_FOUND_CODE,
};
use crate::ds::event::{Event, EventValue};
use crate::tools::decimal::{decimal, i64_to_string, signed_decimal, u64_to_string};
use vstd::prelude::*;
use vstd::string::StringExecFns;

verus! {

/// The type of a column.
#[derive(Debug, Clone, Copy, PartialEq, Eq, Structural)]
pub enum ColumnType {
    TEXT,
    INT,
    FLOAT,
    /// A time, in milliseconds since the epoch.
    DATETIME,
}

/// What reading a column of an event gives: a value, or the code and the
/// message of the error.
pub enum Read<T> {
    Value(T),
    Failed(usize, Seq<char>),
}

/// The column `column` of `event` as a whole number with sign.
pub open spec fn spec_value_as_int(event: &Event, column: Seq<char>) -> Read<i64> {
    match event.spec_get(column) {
        None => Read::Failed(VALUE_NOT_FOUND_CODE, value_not_found_message(column)),
        Some(value) => match value.spec_as_i64() {
            None => Read::Failed(TYPE_MISMATCH_CODE, type_mismatch_message(column)),
            Some(n) => Read::Value(n),
        },
    }
}

/// The column `column` of `event` as a whole number without sign.
pub open spec fn spec_value_as_u64(event: &Event, column: Seq<char>) -> Read<u64> {
    match event.spec_get(column) {
        None => Read::Failed(VALUE_NOT_FOUND_CODE, value_not_found_message(column)),
        Some(value) => match value.spec_as_u64() {
            None => Read::Failed(TYPE_MISMATCH_CODE, type_mismatch_message(column)),
            Some(n) => Read::Value(n),
        },
    }
}

/// How a value of the type `column_type` is written, where it is of the
/// type.
pub open spec fn spec_written_as(value: EventValue, column_type: ColumnType) -> Option<Seq<char>> {
    match column_type {
        ColumnType::TEXT => value.spec_as_str(),
        ColumnType::INT => match value.spec_as_i64() {
            Some(n) => Some(signed_decimal(n as int)),
            None => None,
        },
        ColumnType::FLOAT => value.spec_as_f64_text(),
        ColumnType::DATETIME => match value.spec_as_u64() {
            Some(n) => Some(decimal(n as nat)),
            None => None,
        },
    }
}

/// The column `column` of `event`, of the type `column_type`, as it is
/// written.
pub open spec fn spec_value_to_str(
    event: &Event,
    column: Seq<char>,
    column_type: ColumnType,
) -> Read<Seq<char>> {
    match event.spec_get(column) {
        None => Read::Failed(VALUE_NOT_FOUND_CODE, value_not_found_message(column)),
        Some(value) => match spec_written_as(value, column_type) {
            None => Read::Failed(TYPE_MISMATCH_CODE, type_mismatch_message(column)),
            Some(text) => Read::Value(text),
        },
    }
}

/// Whether `r` is what reading gave.
pub open spec fn is_read<T>(r: CustomResult<T>, read: Read<T>) -> bool {
    match read {
        Read::Value(v) => r == Ok::<T, CustomError>(v),
        Read::Failed(code, message) => r is Err && r->Err_0.code == code && r->Err_0.message@
            == message,
    }
}

/// Whether the string `r` is what reading gave.
pub open spec fn is_read_text(r: CustomResult<String>, read: Read<Seq<char>>) -> bool {
    match read {
        Read::Value(v) => r is Ok && r->Ok_0@ == v,
        Read::Failed(code, message) => r is Err && r->Err_0.code == code && r->Err_0.message@
            == message,
    }
}

/// The column `column` of `data` as a whole number with sign. Fails where
/// the event has no such column, or where its value is no such number.
pub fn get_value_as_int(data: &Event, column: &str) -> (r: CustomResult<i64>)
    ensures
        is_read(r, spec_value_as_int(data, column@)),
{
    match data.get(column) {
        None => Err(value_not_found_err(column)),
        Some(value) => match value.as_i64() {
            None => Err(value_type_not_match_err(column)),
            Some(n) => Ok(n),
        },
    }
}

/// The column `column` of `data` as a whole number without sign. Fails where
/// the event has no such column, or where its value is no such number.
pub fn get_value_as_u64(data: &Event, column: &str) -> (r: CustomResult<u64>)
    ensures
        is_read(r, spec_value_as_u64(data, column@)),
{
    match data.get(column) {
        None => Err(value_not_found_err(column)),
        Some(value) => match value.as_u64() {
            None => Err(value_type_not_match_err(column)),
            Some(n) => Ok(n),
        },
    }
}

/// The column `column` of `event` as it is written: a text as it stands, a
/// whole number or a time in decimal, a float as floats are written. Fails
/// where the event has no such column, or where its value is not of the
/// type `column_type`.
pub fn get_value_to_str(event: &Event, column: &str, column_type: &ColumnType) -> (r: CustomResult<
    String,
>)
    ensures
        is_read_text(r, spec_value_to_str(event, column@, *column_type)),
{
    let value = match event.get(column) {
        None => {
            return Err(value_not_found_err(column));
        },
        Some(value) => value,
    };
    match column_type {
        ColumnType::TEXT => match value.as_str() {
            Some(s) => Ok(String::from_str(s)),
            None => Err(value_type_not_match_err(column)),
        },
        ColumnType::INT => match value.as_i64() {
            Some(n) => Ok(i64_to_string(n)),
            None => Err(value_type_not_match_err(column)),
        },
        ColumnType::FLOAT => match value.as_f64_text() {
            Some(s) => Ok(String::from_str(s)),
            None => Err(value_type_not_match_err(column)),
        },
        ColumnType::DATETIME => match value.as_u64() {
            Some(n) => Ok(u64_to_string(n)),
            None => Err(value_type_not_match_err(column)),
        },
    }
}

/// Whether the column `column` of `event` has a value of the type
/// `column_type`. Fails where the event has no such column, or where its
/// value is not of the type.
pub fn check_value_and_type_match(event: &Event, column: &str, column_type: &ColumnType) -> (r:
    CustomResult<()>)
    ensures
        match spec_value_to_str(event, column@, *column_type) {
            Read::Value(_) => r is Ok,
            Read::Failed(code, message) => r is Err && r->Err_0.code == code && r->Err_0.message@
            == message,
        },
{
    let value = match event.get(column) {
        None => {
            return Err(value_not_found_err(column));
        },
        Some(value) => value,
    };
    let matches = match column_type {
        ColumnType::TEXT => value.as_str().is_some(),
        ColumnType::INT => value.as_i64().is_some(),
        ColumnType::FLOAT => value.as_f64_text().is_some(),
        ColumnType::DATETIME => value.as_u64().is_some(),
    };
    if matches {
        Ok(())
    } else {
        Err(value_type_not_match_err(column))
    }
}

} // verus!
