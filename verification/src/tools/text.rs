//! Strings and the bytes that spell them.
use crate::custom_error::{common_err, CustomError, GENERIC_CODE};
use std::string::FromUtf8Error;
use vstd::prelude::*;
use vstd::utf8::{decode_utf8, encode_utf8, valid_utf8};

verus! {

/// `std::string::FromUtf8Error`: nothing is claimed of what is inside.
#[verifier::external_type_specification]
#[verifier::external_body]
pub struct ExFromUtf8Error(FromUtf8Error);

/// `String::from_utf8`: the string that the bytes spell in UTF-8, an error
/// where they spell none.
#[verifier::external_body]
pub(crate) fn string_from_utf8(bytes: Vec<u8>) -> (r: Result<String, FromUtf8Error>)
    ensures
        match r {
            Ok(s) => valid_utf8(bytes@) && s@ == decode_utf8(bytes@),
            Err(_) => !valid_utf8(bytes@),
        },
{
    String::from_utf8(bytes)
}

/// The error of the store for bytes that are no UTF-8.
pub fn utf8_err(e: FromUtf8Error) -> (r: CustomError)
    ensures
        r.code == GENERIC_CODE,
{
    common_err(e.to_string())
}

/// The string that `bytes` spell in UTF-8; a generic error where they spell
/// none.
pub fn string_of_bytes(bytes: Vec<u8>) -> (r: Result<String, CustomError>)
    ensures
        match r {
            Ok(s) => valid_utf8(bytes@) && s@ == decode_utf8(bytes@),
            Err(e) => !valid_utf8(bytes@) && e.code == GENERIC_CODE,
        },
{
    match string_from_utf8(bytes) {
        Ok(s) => Ok(s),
        Err(e) => Err(utf8_err(e)),
    }
}

/// A string is spelled by valid bytes, and they spell it.
pub proof fn lemma_string_bytes(chars: Seq<char>)
    ensures
        valid_utf8(encode_utf8(chars)),
        decode_utf8(encode_utf8(chars)) == chars,
{
    vstd::utf8::encode_utf8_valid_utf8(chars);
    vstd::utf8::encode_utf8_decode_utf8(chars);
}

/// `a` and `b` agree before index `i`, where `a` ends and `b` goes on, or
/// has the smaller byte.
pub open spec fn less_at(a: Seq<u8>, b: Seq<u8>, i: int) -> bool {
    &&& 0 <= i <= a.len()
    &&& i <= b.len()
    &&& forall|j: int| 0 <= j < i ==> a[j] == b[j]
    &&& (i == a.len() && i < b.len()) || (i < a.len() && i < b.len() && a[i] < b[i])
}

/// `a` comes before `b` in the order of dictionaries, byte by byte.
pub open spec fn bytes_less(a: Seq<u8>, b: Seq<u8>) -> bool {
    exists|i: int| less_at(a, b, i)
}

/// The order of strings: that of the bytes that spell them in UTF-8.
pub open spec fn key_less(a: Seq<char>, b: Seq<char>) -> bool {
    bytes_less(encode_utf8(a), encode_utf8(b))
}

pub proof fn lemma_bytes_less_transitive(a: Seq<u8>, b: Seq<u8>, c: Seq<u8>)
    requires
        bytes_less(a, b),
        bytes_less(b, c),
    ensures
        bytes_less(a, c),
{
    let i = choose|i: int| less_at(a, b, i);
    let j = choose|j: int| less_at(b, c, j);
    let k = if i < j { i } else { j };
    assert(less_at(a, c, k));
}

pub proof fn lemma_bytes_less_differ(a: Seq<u8>, b: Seq<u8>)
    requires
        bytes_less(a, b),
    ensures
        a != b,
        !bytes_less(b, a),
{
    let i = choose|i: int| less_at(a, b, i);
    if bytes_less(b, a) {
        let j = choose|j: int| less_at(b, a, j);
        if i < j {
            assert(b[i] == a[i]);
        } else if j < i {
            assert(a[j] == b[j]);
        }
    }
}

/// Of two strings, one comes before the other only if they differ, and then
/// not the other way round.
pub proof fn lemma_key_less_differ(a: Seq<char>, b: Seq<char>)
    requires
        key_less(a, b),
    ensures
        a != b,
        !key_less(b, a),
{
    lemma_bytes_less_differ(encode_utf8(a), encode_utf8(b));
}

/// Strings of which one comes before the other differ.
pub proof fn lemma_compare_differ(a: Seq<char>, b: Seq<char>)
    ensures
        key_less(a, b) || key_less(b, a) ==> a != b,
{
    if key_less(a, b) {
        lemma_key_less_differ(a, b);
    }
    if key_less(b, a) {
        lemma_key_less_differ(b, a);
    }
}

/// The bytes that spell two strings one after the other are the bytes of
/// the one followed by the bytes of the other.
pub proof fn lemma_encode_concat(a: Seq<char>, b: Seq<char>)
    ensures
        encode_utf8(a + b) == encode_utf8(a) + encode_utf8(b),
    decreases a.len(),
{
    if a.len() == 0 {
        assert(a + b =~= b);
        assert(encode_utf8(a) =~= Seq::empty());
        assert(encode_utf8(a) + encode_utf8(b) =~= encode_utf8(b));
    } else {
        lemma_encode_concat(a.drop_first(), b);
        assert((a + b).drop_first() =~= a.drop_first() + b);
        assert((a + b)[0] == a[0]);
        assert(encode_utf8(a + b) =~= encode_utf8(a) + encode_utf8(b));
    }
}

pub proof fn lemma_key_less_transitive(a: Seq<char>, b: Seq<char>, c: Seq<char>)
    requires
        key_less(a, b),
        key_less(b, c),
    ensures
        key_less(a, c),
{
    lemma_bytes_less_transitive(encode_utf8(a), encode_utf8(b), encode_utf8(c));
}

/// How one key stands to another.
#[derive(Debug, Clone, Copy, PartialEq, Eq, Structural)]
pub enum KeyOrder {
    Before,
    Same,
    After,
}

/// Where `a` stands to `b` in the order of dictionaries, byte by byte.
pub fn compare_bytes(a: &[u8], b: &[u8]) -> (r: KeyOrder)
    ensures
        match r {
            KeyOrder::Before => bytes_less(a@, b@),
            KeyOrder::Same => a@ == b@,
            KeyOrder::After => bytes_less(b@, a@),
        },
{
    let mut i: usize = 0;
    while i < a.len() && i < b.len()
        invariant
            i <= a.len(),
            i <= b.len(),
            forall|j: int| 0 <= j < i ==> a@[j] == b@[j],
        decreases a.len() - i,
    {
        if a[i] < b[i] {
            assert(less_at(a@, b@, i as int));
            return KeyOrder::Before;
        }
        if a[i] > b[i] {
            assert(less_at(b@, a@, i as int));
            return KeyOrder::After;
        }
        i = i + 1;
    }
    if i < b.len() {
        assert(less_at(a@, b@, i as int));
        KeyOrder::Before
    } else if i < a.len() {
        assert(less_at(b@, a@, i as int));
        KeyOrder::After
    } else {
        assert(a@ =~= b@);
        KeyOrder::Same
    }
}

/// Where the string `a` stands to the string `b`.
pub fn compare_keys(a: &str, b: &str) -> (r: KeyOrder)
    ensures
        match r {
            KeyOrder::Before => key_less(a@, b@),
            KeyOrder::Same => a@ == b@,
            KeyOrder::After => key_less(b@, a@),
        },
{
    let r = compare_bytes(a.as_bytes(), b.as_bytes());
    proof {
        lemma_string_bytes(a@);
        lemma_string_bytes(b@);
    }
    r
}

} // verus!
