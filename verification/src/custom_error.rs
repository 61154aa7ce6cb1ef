//! The error type of the store and its constructors, one per kind.
use crate::tools::decimal::{decimal, push_u64};
use vstd::prelude::*;
use vstd::string::StringExecFns;

verus! {

/// Catch-all for errors of the layers below.
pub const GENERIC_CODE: usize = 10000;

/// An event lacks a column that a feature needs.
pub const VALUE_NOT_FOUND_CODE: usize = 10001;

/// A column's value is not of the type asked for.
pub const TYPE_MISMATCH_CODE: usize = 10002;

/// A feature names a column that its dataset does not have.
pub const COLUMN_NOT_IN_DATA_SET_CODE: usize = 10003;

/// Decoding stopped for want of bytes; more may follow.
pub const DECODE_FAILED_BY_INSUFFICIENT_DATA_CODE: usize = 20001;

pub type CustomResult<T> = Result<T, CustomError>;

#[derive(Debug)]
pub struct CustomError {
    pub code: usize,
    pub message: String,
}

/// The code `code` and the message `message` in one line.
pub open spec fn error_text(code: usize, message: Seq<char>) -> Seq<char> {
    "error code: "@ + decimal(code as nat) + ", details: "@ + message
}

pub open spec fn value_not_found_message(key: Seq<char>) -> Seq<char> {
    "no value found for key: "@ + key
}

pub open spec fn type_mismatch_message(key: Seq<char>) -> Seq<char> {
    "value has the wrong type for key: "@ + key
}

pub open spec fn column_not_found_message(key: Seq<char>) -> Seq<char> {
    "the dataset has no column for key: "@ + key
}

pub open spec fn insufficient_data_message() -> Seq<char> {
    "decoding failed: not enough data"@
}

impl CustomError {
    /// A generic error with the given text.
    pub fn new(message: String) -> (e: CustomError)
        ensures
            e.code == GENERIC_CODE,
            e.message@ == message@,
    {
        common_err(message)
    }

    /// What `to_string` returns.
    pub open spec fn spec_to_string(&self) -> Seq<char> {
        error_text(self.code, self.message@)
    }

    /// The code and the message in one line.
    pub fn to_string(&self) -> (s: String)
        ensures
            s@ == self.spec_to_string(),
    {
        let mut s = String::from_str("error code: ");
        push_u64(&mut s, self.code as u64);
        s.append(", details: ");
        s.append(self.message.as_str());
        assert(s@ =~= self.spec_to_string());
        s
    }

    /// Whether decoding gave up only because the buffer ended early.
    pub fn is_insufficient_data(&self) -> (b: bool)
        ensures
            b == (self.code == DECODE_FAILED_BY_INSUFFICIENT_DATA_CODE),
    {
        self.code == DECODE_FAILED_BY_INSUFFICIENT_DATA_CODE
    }
}

pub fn common_err(msg: String) -> (e: CustomError)
    ensures
        e.code == GENERIC_CODE,
        e.message@ == msg@,
{
    CustomError { code: GENERIC_CODE, message: msg }
}

pub fn value_not_found_err(key: &str) -> (e: CustomError)
    ensures
        e.code == VALUE_NOT_FOUND_CODE,
        e.message@ == value_not_found_message(key@),
{
    let mut message = String::from_str("no value found for key: ");
    message.append(key);
    CustomError { code: VALUE_NOT_FOUND_CODE, message }
}

pub fn value_type_not_match_err(key: &str) -> (e: CustomError)
    ensures
        e.code == TYPE_MISMATCH_CODE,
        e.message@ == type_mismatch_message(key@),
{
    let mut message = String::from_str("value has the wrong type for key: ");
    message.append(key);
    CustomError { code: TYPE_MISMATCH_CODE, message }
}

pub fn column_not_found_in_ds_err(key: &str) -> (e: CustomError)
    ensures
        e.code == COLUMN_NOT_IN_DATA_SET_CODE,
        e.message@ == column_not_found_message(key@),
{
    let mut message = String::from_str("the dataset has no column for key: ");
    message.append(key);
    CustomError { code: COLUMN_NOT_IN_DATA_SET_CODE, message }
}

pub fn decode_failed_by_insufficient_data_err() -> (e: CustomError)
    ensures
        e.code == DECODE_FAILED_BY_INSUFFICIENT_DATA_CODE,
        e.message@ == insufficient_data_message(),
{
    CustomError {
        code: DECODE_FAILED_BY_INSUFFICIENT_DATA_CODE,
        message: String::from_str("decoding failed: not enough data"),
    }
}

} // verus!
