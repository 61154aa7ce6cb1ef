//! Big-endian integers on byte buffers: the write side is a
//! `bytes::BytesMut`, the read side a `std::io::Cursor` over a byte slice
//! read through `bytes::Buf`.
use bytes::{Buf, BufMut, BytesMut};
use std::io::Cursor;
use vstd::prelude::*;

verus! {

/// The `n` low bytes of `v`, most significant first.
pub open spec fn be_bytes(v: nat, n: nat) -> Seq<u8>
    decreases n,
{
    if n == 0 {
        Seq::empty()
    } else {
        be_bytes(v / 256, (n - 1) as nat).push((v % 256) as u8)
    }
}

/// The number that `s` spells, most significant byte first.
pub open spec fn be_value(s: Seq<u8>) -> nat
    decreases s.len(),
{
    if s.len() == 0 {
        0
    } else {
        be_value(s.drop_last()) * 256 + s.last() as nat
    }
}

/// 256 to the power `n`.
pub open spec fn pow256(n: nat) -> nat
    decreases n,
{
    if n == 0 {
        1
    } else {
        256 * pow256((n - 1) as nat)
    }
}

pub proof fn lemma_pow256_values()
    ensures
        pow256(1) == 0x100,
        pow256(2) == 0x1_0000,
        pow256(4) == 0x1_0000_0000,
        pow256(8) == 0x1_0000_0000_0000_0000,
{
    reveal_with_fuel(pow256, 9);
}

pub proof fn lemma_be_bytes_len(v: nat, n: nat)
    ensures
        be_bytes(v, n).len() == n,
    decreases n,
{
    if n > 0 {
        lemma_be_bytes_len(v / 256, (n - 1) as nat);
    }
}

/// Reading back what was written gives the number, where it fits.
pub proof fn lemma_be_value_of_bytes(v: nat, n: nat)
    requires
        v < pow256(n),
    ensures
        be_value(be_bytes(v, n)) == v,
    decreases n,
{
    if n > 0 {
        let rest = be_bytes(v / 256, (n - 1) as nat);
        assert(v / 256 < pow256((n - 1) as nat)) by (nonlinear_arith)
            requires
                v < 256 * pow256((n - 1) as nat),
        ;
        lemma_be_value_of_bytes(v / 256, (n - 1) as nat);
        assert(be_bytes(v, n).drop_last() =~= rest);
    }
}

/// A number read from `s` is below 256 to the power of its length.
pub proof fn lemma_be_value_bound(s: Seq<u8>)
    ensures
        be_value(s) < pow256(s.len()),
    decreases s.len(),
{
    if s.len() > 0 {
        lemma_be_value_bound(s.drop_last());
    }
}

/// `bytes::BytesMut`: nothing is claimed of what is inside; `written` names
/// the bytes that one holds.
#[verifier::external_type_specification]
#[verifier::external_body]
pub struct ExBytesMut(BytesMut);

/// `std::io::Cursor`: nothing is claimed of what is inside; `cursor_bytes`
/// and `cursor_pos` name the bytes under one and its position.
#[verifier::external_type_specification]
#[verifier::external_body]
#[verifier::reject_recursive_types(T)]
pub struct ExCursor<T>(Cursor<T>);

/// The bytes that a `BytesMut` holds.
pub uninterp spec fn written(buf: BytesMut) -> Seq<u8>;

/// The bytes under a cursor.
pub uninterp spec fn cursor_bytes(cur: Cursor<&[u8]>) -> Seq<u8>;

/// The position of a cursor; it may lie behind the end of the bytes.
pub uninterp spec fn cursor_pos(cur: Cursor<&[u8]>) -> nat;

/// How many bytes lie between a cursor's position and the end.
pub open spec fn cursor_remaining(cur: Cursor<&[u8]>) -> nat {
    if cursor_pos(cur) <= cursor_bytes(cur).len() {
        (cursor_bytes(cur).len() - cursor_pos(cur)) as nat
    } else {
        0
    }
}

/// The bytes from a cursor's position to the end.
pub open spec fn cursor_rest(cur: Cursor<&[u8]>) -> Seq<u8> {
    if cursor_pos(cur) <= cursor_bytes(cur).len() {
        cursor_bytes(cur).skip(cursor_pos(cur) as int)
    } else {
        Seq::empty()
    }
}

/// What a decoder makes of a sequence of bytes.
pub enum Parsed<T> {
    /// A value, and the number of bytes that spell it.
    Done(T, nat),
    /// The bytes end before the value does.
    Short,
    /// The bytes spell no value.
    Bad,
}

/// `BytesMut::new`: an empty buffer.
#[verifier::external_body]
pub(crate) fn new_buffer() -> (buf: BytesMut)
    ensures
        written(buf) == Seq::<u8>::empty(),
{
    BytesMut::new()
}

/// `BufMut::put_u8` on a `BytesMut`: appends the byte.
#[verifier::external_body]
pub(crate) fn put_u8(buf: &mut BytesMut, v: u8)
    ensures
        written(*final(buf)) == written(*old(buf)).push(v),
{
    buf.put_u8(v)
}

/// `BufMut::put_u16` on a `BytesMut`: appends the two bytes, high byte first.
#[verifier::external_body]
pub(crate) fn put_u16(buf: &mut BytesMut, v: u16)
    ensures
        written(*final(buf)) == written(*old(buf)) + be_bytes(v as nat, 2),
{
    buf.put_u16(v)
}

/// `BufMut::put_u32` on a `BytesMut`: appends the four bytes, high byte first.
#[verifier::external_body]
pub(crate) fn put_u32(buf: &mut BytesMut, v: u32)
    ensures
        written(*final(buf)) == written(*old(buf)) + be_bytes(v as nat, 4),
{
    buf.put_u32(v)
}

/// `BufMut::put_u64` on a `BytesMut`: appends the eight bytes, high byte first.
#[verifier::external_body]
pub(crate) fn put_u64(buf: &mut BytesMut, v: u64)
    ensures
        written(*final(buf)) == written(*old(buf)) + be_bytes(v as nat, 8),
{
    buf.put_u64(v)
}

/// `BufMut::put` on a `BytesMut`, with a byte slice: appends the slice.
#[verifier::external_body]
pub(crate) fn put_slice(buf: &mut BytesMut, src: &[u8])
    ensures
        written(*final(buf)) == written(*old(buf)) + src@,
{
    buf.put(src)
}

/// `Cursor::new` over a byte slice: the cursor stands at its start.
#[verifier::external_body]
pub(crate) fn new_cursor<'a>(bytes: &'a [u8]) -> (cur: Cursor<&'a [u8]>)
    ensures
        cursor_bytes(cur) == bytes@,
        cursor_pos(cur) == 0,
{
    Cursor::new(bytes)
}

/// `Cursor::position`.
#[verifier::external_body]
pub(crate) fn position(cur: &Cursor<&[u8]>) -> (pos: u64)
    ensures
        pos == cursor_pos(*cur),
{
    cur.position()
}

/// `Buf::remaining` on a cursor: the bytes from the position to the end,
/// none where the position lies behind the end.
#[verifier::external_body]
pub(crate) fn remaining(cur: &Cursor<&[u8]>) -> (n: usize)
    ensures
        n == cursor_remaining(*cur),
{
    cur.remaining()
}

/// `Buf::get_u8` on a cursor: the byte at the position, which moves on by one.
#[verifier::external_body]
pub(crate) fn get_u8(cur: &mut Cursor<&[u8]>) -> (v: u8)
    requires
        cursor_remaining(*old(cur)) >= 1,
    ensures
        v == cursor_bytes(*old(cur))[cursor_pos(*old(cur)) as int],
        cursor_bytes(*final(cur)) == cursor_bytes(*old(cur)),
        cursor_pos(*final(cur)) == cursor_pos(*old(cur)) + 1,
{
    cur.get_u8()
}

/// `Buf::get_u16` on a cursor: the two bytes at the position read high byte
/// first; the position moves on by two.
#[verifier::external_body]
pub(crate) fn get_u16(cur: &mut Cursor<&[u8]>) -> (v: u16)
    requires
        cursor_remaining(*old(cur)) >= 2,
    ensures
        v == be_value(cursor_rest(*old(cur)).take(2)),
        cursor_bytes(*final(cur)) == cursor_bytes(*old(cur)),
        cursor_pos(*final(cur)) == cursor_pos(*old(cur)) + 2,
{
    cur.get_u16()
}

/// `Buf::get_u32` on a cursor: the four bytes at the position read high byte
/// first; the position moves on by four.
#[verifier::external_body]
pub(crate) fn get_u32(cur: &mut Cursor<&[u8]>) -> (v: u32)
    requires
        cursor_remaining(*old(cur)) >= 4,
    ensures
        v == be_value(cursor_rest(*old(cur)).take(4)),
        cursor_bytes(*final(cur)) == cursor_bytes(*old(cur)),
        cursor_pos(*final(cur)) == cursor_pos(*old(cur)) + 4,
{
    cur.get_u32()
}

/// `Buf::get_u64` on a cursor: the eight bytes at the position read high byte
/// first; the position moves on by eight.
#[verifier::external_body]
pub(crate) fn get_u64(cur: &mut Cursor<&[u8]>) -> (v: u64)
    requires
        cursor_remaining(*old(cur)) >= 8,
    ensures
        v == be_value(cursor_rest(*old(cur)).take(8)),
        cursor_bytes(*final(cur)) == cursor_bytes(*old(cur)),
        cursor_pos(*final(cur)) == cursor_pos(*old(cur)) + 8,
{
    cur.get_u64()
}

/// `Buf::copy_to_bytes` on a cursor, turned into a `Vec`: the `len` bytes at
/// the position; the position moves on by `len`.
#[verifier::external_body]
pub(crate) fn copy_to_bytes(cur: &mut Cursor<&[u8]>, len: usize) -> (out: Vec<u8>)
    requires
        cursor_remaining(*old(cur)) >= len,
    ensures
        out@ == cursor_rest(*old(cur)).take(len as int),
        cursor_bytes(*final(cur)) == cursor_bytes(*old(cur)),
        cursor_pos(*final(cur)) == cursor_pos(*old(cur)) + len,
{
    cur.copy_to_bytes(len).to_vec()
}

/// The byte at the position, if there is one; the position moves behind it.
pub(crate) fn read_u8(cur: &mut Cursor<&[u8]>) -> (r: Option<u8>)
    ensures
        cursor_bytes(*final(cur)) == cursor_bytes(*old(cur)),
        match r {
            Some(v) => {
                &&& cursor_rest(*old(cur)).len() >= 1
                &&& v == cursor_rest(*old(cur))[0]
                &&& cursor_pos(*final(cur)) == cursor_pos(*old(cur)) + 1
                &&& cursor_rest(*final(cur)) == cursor_rest(*old(cur)).skip(1)
            },
            None => cursor_rest(*old(cur)).len() < 1 && cursor_pos(*final(cur)) == cursor_pos(
                *old(cur),
            ),
        },
{
    if remaining(cur) < 1 {
        return None;
    }
    let v = get_u8(cur);
    assert(cursor_rest(*cur) =~= cursor_rest(*old(cur)).skip(1));
    Some(v)
}

/// The two bytes at the position as a number, if there are two; the position
/// moves behind them.
pub(crate) fn read_u16(cur: &mut Cursor<&[u8]>) -> (r: Option<u16>)
    ensures
        cursor_bytes(*final(cur)) == cursor_bytes(*old(cur)),
        match r {
            Some(v) => {
                &&& cursor_rest(*old(cur)).len() >= 2
                &&& v == be_value(cursor_rest(*old(cur)).take(2))
                &&& cursor_pos(*final(cur)) == cursor_pos(*old(cur)) + 2
                &&& cursor_rest(*final(cur)) == cursor_rest(*old(cur)).skip(2)
            },
            None => cursor_rest(*old(cur)).len() < 2 && cursor_pos(*final(cur)) == cursor_pos(
                *old(cur),
            ),
        },
{
    if remaining(cur) < 2 {
        return None;
    }
    let v = get_u16(cur);
    assert(cursor_rest(*cur) =~= cursor_rest(*old(cur)).skip(2));
    Some(v)
}

/// The four bytes at the position as a number, if there are four; the
/// position moves behind them.
pub(crate) fn read_u32(cur: &mut Cursor<&[u8]>) -> (r: Option<u32>)
    ensures
        cursor_bytes(*final(cur)) == cursor_bytes(*old(cur)),
        match r {
            Some(v) => {
                &&& cursor_rest(*old(cur)).len() >= 4
                &&& v == be_value(cursor_rest(*old(cur)).take(4))
                &&& cursor_pos(*final(cur)) == cursor_pos(*old(cur)) + 4
                &&& cursor_rest(*final(cur)) == cursor_rest(*old(cur)).skip(4)
            },
            None => cursor_rest(*old(cur)).len() < 4 && cursor_pos(*final(cur)) == cursor_pos(
                *old(cur),
            ),
        },
{
    if remaining(cur) < 4 {
        return None;
    }
    let v = get_u32(cur);
    assert(cursor_rest(*cur) =~= cursor_rest(*old(cur)).skip(4));
    Some(v)
}

/// The eight bytes at the position as a number, if there are eight; the
/// position moves behind them.
pub(crate) fn read_u64(cur: &mut Cursor<&[u8]>) -> (r: Option<u64>)
    ensures
        cursor_bytes(*final(cur)) == cursor_bytes(*old(cur)),
        match r {
            Some(v) => {
                &&& cursor_rest(*old(cur)).len() >= 8
                &&& v == be_value(cursor_rest(*old(cur)).take(8))
                &&& cursor_pos(*final(cur)) == cursor_pos(*old(cur)) + 8
                &&& cursor_rest(*final(cur)) == cursor_rest(*old(cur)).skip(8)
            },
            None => cursor_rest(*old(cur)).len() < 8 && cursor_pos(*final(cur)) == cursor_pos(
                *old(cur),
            ),
        },
{
    if remaining(cur) < 8 {
        return None;
    }
    let v = get_u64(cur);
    assert(cursor_rest(*cur) =~= cursor_rest(*old(cur)).skip(8));
    Some(v)
}

/// The `len` bytes at the position, if there are as many; the position moves
/// behind them.
pub(crate) fn read_bytes(cur: &mut Cursor<&[u8]>, len: usize) -> (r: Option<Vec<u8>>)
    ensures
        cursor_bytes(*final(cur)) == cursor_bytes(*old(cur)),
        match r {
            Some(v) => {
                &&& cursor_rest(*old(cur)).len() >= len
                &&& v@ == cursor_rest(*old(cur)).take(len as int)
                &&& cursor_pos(*final(cur)) == cursor_pos(*old(cur)) + len
                &&& cursor_rest(*final(cur)) == cursor_rest(*old(cur)).skip(len as int)
            },
            None => cursor_rest(*old(cur)).len() < len && cursor_pos(*final(cur)) == cursor_pos(
                *old(cur),
            ),
        },
{
    if remaining(cur) < len {
        return None;
    }
    let v = copy_to_bytes(cur, len);
    assert(cursor_rest(*cur) =~= cursor_rest(*old(cur)).skip(len as int));
    Some(v)
}

} // verus!
