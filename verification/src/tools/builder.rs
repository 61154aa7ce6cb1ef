//! Strings put together piece by piece, with `string_builder::Builder`.
use std::string::FromUtf8Error;
use string_builder::Builder;
use vstd::prelude::*;
use vstd::utf8::{decode_utf8, encode_utf8, valid_utf8};

verus! {

/// `string_builder::Builder`: nothing is claimed of what is inside;
/// `builder_bytes` names the bytes that one holds.
#[verifier::external_type_specification]
#[verifier::external_body]
pub struct ExBuilder(Builder);

/// The bytes that a builder holds.
pub uninterp spec fn builder_bytes(builder: Builder) -> Seq<u8>;

/// `Builder::default`: a builder that holds no bytes.
#[verifier::external_body]
pub(crate) fn new_builder() -> (builder: Builder)
    ensures
        builder_bytes(builder) == Seq::<u8>::empty(),
{
    Builder::default()
}

/// `Builder::append` with a `String`: the bytes that spell the string in
/// UTF-8 follow those that the builder holds.
#[verifier::external_body]
pub(crate) fn append(builder: &mut Builder, piece: String)
    ensures
        builder_bytes(*final(builder)) == builder_bytes(*old(builder)) + encode_utf8(piece@),
{
    builder.append(piece)
}

/// `Builder::string`: the string that the builder's bytes spell in UTF-8,
/// an error where they spell none.
#[verifier::external_body]
pub(crate) fn string(builder: Builder) -> (r: Result<String, FromUtf8Error>)
    ensures
        match r {
            Ok(s) => valid_utf8(builder_bytes(builder)) && s@ == decode_utf8(builder_bytes(builder)),
            Err(_) => !valid_utf8(builder_bytes(builder)),
        },
{
    builder.string()
}

} // verus!
