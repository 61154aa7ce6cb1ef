//! The write-ahead log: its records and their bytes.
use crate::custom_error::{
    common_err, decode_failed_by_insufficient_data_err, CustomError, CustomResult,
    DECODE_FAILED_BY_INSUFFICIENT_DATA_CODE, GENERIC_CODE,
};
use crate::feature::value::ValueKind;
use crate::store::wire::{
    be_bytes, be_value, cursor_bytes, cursor_pos, cursor_rest, lemma_be_bytes_len,
    lemma_be_value_bound, lemma_be_value_of_bytes, lemma_pow256_values, put_slice, put_u16,
    put_u32, put_u64, put_u8, position, read_bytes, read_u16, read_u32, read_u64, read_u8, remaining, written, Parsed,
};
use crate::tools::text::{lemma_string_bytes, string_of_bytes};
use bytes::BytesMut;
use std::collections::VecDeque;
use std::io::Cursor;
use vstd::prelude::*;
use vstd::string::StringExecFns;
use vstd::utf8::{decode_utf8, encode_utf8, valid_utf8};

verus! {

/// The kind of a record.
#[derive(Debug, Clone, Copy, PartialEq, Eq, Structural)]
pub enum WalLogKind {
    Begin,
    Commit,
    End,
    /// A window of a feature value was set.
    FeatureUpdate,
    /// A page was written to the slot's shadow file.
    PageBkStore,
    /// A slot's page index was written to its shadow file.
    PageIndexStore,
}

impl WalLogKind {
    /// The byte that stands for the kind in a record.
    pub open spec fn spec_code(self) -> u8 {
        match self {
            WalLogKind::Begin => 1,
            WalLogKind::Commit => 2,
            WalLogKind::End => 3,
            WalLogKind::FeatureUpdate => 4,
            WalLogKind::PageBkStore => 5,
            WalLogKind::PageIndexStore => 8,
        }
    }

    /// The kind that a byte stands for.
    pub open spec fn spec_from_code(code: u8) -> Option<WalLogKind> {
        if code == 1 {
            Some(WalLogKind::Begin)
        } else if code == 2 {
            Some(WalLogKind::Commit)
        } else if code == 3 {
            Some(WalLogKind::End)
        } else if code == 4 {
            Some(WalLogKind::FeatureUpdate)
        } else if code == 5 {
            Some(WalLogKind::PageBkStore)
        } else if code == 8 {
            Some(WalLogKind::PageIndexStore)
        } else {
            None
        }
    }

    pub fn code(self) -> (code: u8)
        ensures
            code == self.spec_code(),
            Self::spec_from_code(code) == Some(self),
    {
        match self {
            WalLogKind::Begin => 1,
            WalLogKind::Commit => 2,
            WalLogKind::End => 3,
            WalLogKind::FeatureUpdate => 4,
            WalLogKind::PageBkStore => 5,
            WalLogKind::PageIndexStore => 8,
        }
    }

    /// The kind that `code` stands for; a generic error where it stands for
    /// none.
    pub fn try_from(code: u8) -> (r: CustomResult<WalLogKind>)
        ensures
            match Self::spec_from_code(code) {
                Some(kind) => r == Ok::<WalLogKind, CustomError>(kind),
                None => r is Err && r->Err_0.code == GENERIC_CODE,
            },
    {
        if code == 1 {
            Ok(WalLogKind::Begin)
        } else if code == 2 {
            Ok(WalLogKind::Commit)
        } else if code == 3 {
            Ok(WalLogKind::End)
        } else if code == 4 {
            Ok(WalLogKind::FeatureUpdate)
        } else if code == 5 {
            Ok(WalLogKind::PageBkStore)
        } else if code == 8 {
            Ok(WalLogKind::PageIndexStore)
        } else {
            Err(common_err(String::from_str("no kind of record has this code")))
        }
    }
}

/// What a feature update did to one window: the content of a
/// `FeatureUpdate` record.
#[derive(Debug)]
pub struct WalFeatureUpdateValue {
    /// The feature key.
    pub fk: String,
    /// The start of the window.
    pub tk: u64,
    /// The window's value before the update, if it had one.
    pub undo_v: Option<ValueKind>,
    /// The window's value after the update.
    pub redo_v: ValueKind,
}

/// A `WalFeatureUpdateValue` with its key as a sequence of characters.
pub struct FeatureUpdateView {
    pub fk: Seq<char>,
    pub tk: u64,
    pub undo_v: Option<ValueKind>,
    pub redo_v: ValueKind,
}

impl View for WalFeatureUpdateValue {
    type V = FeatureUpdateView;

    open spec fn view(&self) -> FeatureUpdateView {
        FeatureUpdateView { fk: self.fk@, tk: self.tk, undo_v: self.undo_v, redo_v: self.redo_v }
    }
}

impl FeatureUpdateView {
    /// The key's bytes are few enough to count in two bytes.
    pub open spec fn encodable(self) -> bool {
        encode_utf8(self.fk).len() <= u16::MAX
    }

    /// The bytes of the value before the update: a flag, then the value
    /// where there was one.
    pub open spec fn undo_bytes(self) -> Seq<u8> {
        match self.undo_v {
            None => seq![0u8],
            Some(v) => seq![1u8] + v.spec_encode(),
        }
    }

    /// The key with its length in two bytes before it, the start of the
    /// window, the value before and the value after.
    pub open spec fn spec_encode(self) -> Seq<u8> {
        be_bytes(encode_utf8(self.fk).len(), 2) + encode_utf8(self.fk) + be_bytes(
            self.tk as nat,
            8,
        ) + self.undo_bytes() + self.redo_v.spec_encode()
    }

    pub open spec fn spec_need_space(self) -> nat {
        (2 + encode_utf8(self.fk).len() + 8 + (if self.undo_v is Some {
            10int
        } else {
            1int
        }) + 9) as nat
    }

    /// What the start of `s` spells.
    pub open spec fn spec_decode(s: Seq<u8>) -> Parsed<FeatureUpdateView> {
        let n = be_value(s.take(2));
        let s1 = s.skip(2);
        let s2 = s1.skip(n as int);
        let s3 = s2.skip(8);
        let s4 = s3.skip(1);
        if s.len() < 2 {
            Parsed::Short
        } else if s1.len() < n {
            Parsed::Short
        } else if !valid_utf8(s1.take(n as int)) {
            Parsed::Bad
        } else if s2.len() < 8 {
            Parsed::Short
        } else if s3.len() < 1 {
            Parsed::Short
        } else if s3[0] == 0 {
            match ValueKind::spec_decode(s4) {
                Parsed::Done(redo_v, m) => Parsed::Done(
                    FeatureUpdateView {
                        fk: decode_utf8(s1.take(n as int)),
                        tk: be_value(s2.take(8)) as u64,
                        undo_v: None,
                        redo_v,
                    },
                    2 + n + 8 + 1 + m,
                ),
                Parsed::Short => Parsed::Short,
                Parsed::Bad => Parsed::Bad,
            }
        } else {
            match ValueKind::spec_decode(s4) {
                Parsed::Done(undo_v, m1) => match ValueKind::spec_decode(s4.skip(m1 as int)) {
                    Parsed::Done(redo_v, m2) => Parsed::Done(
                        FeatureUpdateView {
                            fk: decode_utf8(s1.take(n as int)),
                            tk: be_value(s2.take(8)) as u64,
                            undo_v: Some(undo_v),
                            redo_v,
                        },
                        2 + n + 8 + 1 + m1 + m2,
                    ),
                    Parsed::Short => Parsed::Short,
                    Parsed::Bad => Parsed::Bad,
                },
                Parsed::Short => Parsed::Short,
                Parsed::Bad => Parsed::Bad,
            }
        }
    }

    /// Decoding what was encoded gives the value back, whatever follows.
    pub proof fn lemma_round_trip(self, rest: Seq<u8>)
        requires
            self.encodable(),
        ensures
            self.spec_encode().len() == self.spec_need_space(),
            Self::spec_decode(self.spec_encode() + rest) == Parsed::Done(
                self,
                self.spec_need_space(),
            ),
    {
        let kb = encode_utf8(self.fk);
        let n = kb.len();
        let s = self.spec_encode() + rest;
        let tail3 = self.undo_bytes() + self.redo_v.spec_encode() + rest;
        lemma_pow256_values();
        lemma_be_bytes_len(n, 2);
        lemma_be_value_of_bytes(n, 2);
        lemma_be_bytes_len(self.tk as nat, 8);
        lemma_be_value_of_bytes(self.tk as nat, 8);
        lemma_string_bytes(self.fk);
        self.redo_v.lemma_round_trip(rest);
        assert(s.take(2) =~= be_bytes(n, 2));
        let s1 = s.skip(2);
        assert(s1 =~= kb + be_bytes(self.tk as nat, 8) + tail3);
        assert(s1.take(n as int) =~= kb);
        let s2 = s1.skip(n as int);
        assert(s2 =~= be_bytes(self.tk as nat, 8) + tail3);
        assert(s2.take(8) =~= be_bytes(self.tk as nat, 8));
        let s3 = s2.skip(8);
        assert(s3 =~= tail3);
        let s4 = s3.skip(1);
        match self.undo_v {
            None => {
                assert(s3[0] == 0);
                assert(s4 =~= self.redo_v.spec_encode() + rest);
            },
            Some(u) => {
                u.lemma_round_trip(self.redo_v.spec_encode() + rest);
                assert(s3[0] == 1);
                assert(s4 =~= u.spec_encode() + (self.redo_v.spec_encode() + rest));
                assert(s4.skip(9) =~= self.redo_v.spec_encode() + rest);
            },
        }
    }
}

impl WalFeatureUpdateValue {
    /// The number of bytes that `encode` writes, held at the largest `usize`
    /// where it does not fit.
    pub fn need_space(&self) -> (n: usize)
        ensures
            n == if self@.spec_need_space() <= usize::MAX {
                self@.spec_need_space()
            } else {
                usize::MAX as nat
            },
    {
        let fixed: usize = match &self.undo_v {
            None => 20,
            Some(_) => 29,
        };
        match self.fk.as_str().as_bytes().len().checked_add(fixed) {
            Some(n) => n,
            None => usize::MAX,
        }
    }

    /// Whether the key is short enough for `encode`.
    pub fn can_encode(&self) -> (b: bool)
        ensures
            b == self@.encodable(),
    {
        self.fk.as_str().as_bytes().len() <= u16::MAX as usize
    }

    /// Appends the value's bytes to `buf`; fails, and writes nothing, where
    /// the key is too long to count its bytes in two bytes.
    pub fn encode(&self, buf: &mut BytesMut) -> (r: CustomResult<()>)
        ensures
            match r {
                Ok(_) => self@.encodable() && written(*final(buf)) == written(*old(buf))
                    + self@.spec_encode(),
                Err(e) => !self@.encodable() && e.code == GENERIC_CODE && written(*final(buf))
                    == written(*old(buf)),
            },
    {
        let key = self.fk.as_str().as_bytes();
        let n = key.len();
        if n > u16::MAX as usize {
            return Err(common_err(String::from_str("the feature key is too long to encode")));
        }
        put_u16(buf, n as u16);
        put_slice(buf, key);
        put_u64(buf, self.tk);
        match &self.undo_v {
            None => {
                put_u8(buf, 0);
            },
            Some(v) => {
                put_u8(buf, 1);
                let _ = v.encode(buf);
            },
        }
        let _ = self.redo_v.encode(buf);
        assert(written(*buf) =~= written(*old(buf)) + self@.spec_encode());
        Ok(())
    }

    /// Reads a value at the cursor, which moves behind it.
    pub fn decode(buf: &mut Cursor<&[u8]>) -> (r: CustomResult<WalFeatureUpdateValue>)
        ensures
            cursor_bytes(*final(buf)) == cursor_bytes(*old(buf)),
            match FeatureUpdateView::spec_decode(cursor_rest(*old(buf))) {
                Parsed::Done(value, n) => {
                    &&& r matches Ok(v)
                    &&& v@ == value
                    &&& cursor_pos(*final(buf)) == cursor_pos(*old(buf)) + n
                    &&& cursor_rest(*final(buf)) == cursor_rest(*old(buf)).skip(n as int)
                },
                Parsed::Short => r is Err && r->Err_0.code
                    == DECODE_FAILED_BY_INSUFFICIENT_DATA_CODE,
                Parsed::Bad => r is Err && r->Err_0.code == GENERIC_CODE,
            },
    {
        let ghost s = cursor_rest(*buf);
        let fk_len = match read_u16(buf) {
            Some(n) => n,
            None => {
                return Err(decode_failed_by_insufficient_data_err());
            },
        };
        let fk_bytes = match read_bytes(buf, fk_len as usize) {
            Some(b) => b,
            None => {
                return Err(decode_failed_by_insufficient_data_err());
            },
        };
        let fk = match string_of_bytes(fk_bytes) {
            Ok(fk) => fk,
            Err(e) => {
                return Err(e);
            },
        };
        let tk = match read_u64(buf) {
            Some(tk) => tk,
            None => {
                return Err(decode_failed_by_insufficient_data_err());
            },
        };
        let undo_v_flag = match read_u8(buf) {
            Some(f) => f,
            None => {
                return Err(decode_failed_by_insufficient_data_err());
            },
        };
        proof {
            lemma_pow256_values();
            lemma_be_value_bound(s.skip(2).skip(fk_len as int).take(8));
        }
        let ghost s4 = cursor_rest(*buf);
        let undo_v = if undo_v_flag == 0 {
            None
        } else {
            match ValueKind::decode(buf) {
                Ok(v) => Some(v),
                Err(e) => {
                    return Err(e);
                },
            }
        };
        let ghost s5 = cursor_rest(*buf);
        let redo_v = match ValueKind::decode(buf) {
            Ok(v) => v,
            Err(e) => {
                return Err(e);
            },
        };
        proof {
            let used = cursor_pos(*buf) - cursor_pos(*old(buf));
            if undo_v_flag == 0 {
                assert(s5 == s4);
                assert(s4.skip(9) =~= s.skip(used));
            } else {
                assert(s5 == s4.skip(9));
                assert(s4.skip(9).skip(9) =~= s.skip(used));
            }
        }
        Ok(WalFeatureUpdateValue { fk, tk, undo_v, redo_v })
    }
}

/// A slot's page index was written to its shadow file: the content of a
/// `PageIndexStore` record.
#[derive(Debug, Clone, Copy, PartialEq, Eq, Structural)]
pub struct WalPageIndexStoreValue {
    pub slot_id: u16,
}

impl WalPageIndexStoreValue {
    pub fn new(slot_id: u16) -> (v: WalPageIndexStoreValue)
        ensures
            v.slot_id == slot_id,
    {
        WalPageIndexStoreValue { slot_id }
    }

    /// The slot's id in two bytes.
    pub open spec fn spec_encode(self) -> Seq<u8> {
        be_bytes(self.slot_id as nat, 2)
    }

    /// What the start of `s` spells.
    pub open spec fn spec_decode(s: Seq<u8>) -> Parsed<WalPageIndexStoreValue> {
        if s.len() < 2 {
            Parsed::Short
        } else {
            Parsed::Done(WalPageIndexStoreValue { slot_id: be_value(s.take(2)) as u16 }, 2)
        }
    }

    /// Decoding what was encoded gives the value back, whatever follows.
    pub proof fn lemma_round_trip(self, rest: Seq<u8>)
        ensures
            self.spec_encode().len() == 2,
            Self::spec_decode(self.spec_encode() + rest) == Parsed::Done(self, 2),
    {
        lemma_pow256_values();
        lemma_be_bytes_len(self.slot_id as nat, 2);
        lemma_be_value_of_bytes(self.slot_id as nat, 2);
        assert((self.spec_encode() + rest).take(2) =~= be_bytes(self.slot_id as nat, 2));
    }

    pub fn need_space(&self) -> (n: usize)
        ensures
            n == 2,
    {
        2
    }

    /// Appends the value's bytes to `buf`.
    pub fn encode(&self, buf: &mut BytesMut) -> (r: CustomResult<()>)
        ensures
            r is Ok,
            written(*final(buf)) == written(*old(buf)) + self.spec_encode(),
    {
        put_u16(buf, self.slot_id);
        Ok(())
    }

    /// Reads a value at the cursor, which moves behind it.
    pub fn decode(buf: &mut Cursor<&[u8]>) -> (r: CustomResult<WalPageIndexStoreValue>)
        ensures
            cursor_bytes(*final(buf)) == cursor_bytes(*old(buf)),
            match Self::spec_decode(cursor_rest(*old(buf))) {
                Parsed::Done(value, n) => {
                    &&& r == Ok::<WalPageIndexStoreValue, CustomError>(value)
                    &&& cursor_pos(*final(buf)) == cursor_pos(*old(buf)) + n
                    &&& cursor_rest(*final(buf)) == cursor_rest(*old(buf)).skip(n as int)
                },
                Parsed::Short => r is Err && r->Err_0.code
                    == DECODE_FAILED_BY_INSUFFICIENT_DATA_CODE,
                Parsed::Bad => r is Err && r->Err_0.code == GENERIC_CODE,
            },
    {
        match read_u16(buf) {
            Some(slot_id) => Ok(WalPageIndexStoreValue::new(slot_id)),
            None => Err(decode_failed_by_insufficient_data_err()),
        }
    }
}

/// A page was written to the slot's shadow file: the content of a
/// `PageBkStore` record.
#[derive(Debug, Clone, Copy, PartialEq, Eq, Structural)]
pub struct WalPageBkStoreValue {
    pub slot_id: u16,
    pub page_id: u64,
    pub min_pk: u64,
    pub max_pk: u64,
}

impl WalPageBkStoreValue {
    /// The slot's id in two bytes, then the page's id and its two bounds in
    /// eight bytes each.
    pub open spec fn spec_encode(self) -> Seq<u8> {
        be_bytes(self.slot_id as nat, 2) + be_bytes(self.page_id as nat, 8) + be_bytes(
            self.min_pk as nat,
            8,
        ) + be_bytes(self.max_pk as nat, 8)
    }

    /// What the start of `s` spells.
    pub open spec fn spec_decode(s: Seq<u8>) -> Parsed<WalPageBkStoreValue> {
        if s.len() < 26 {
            Parsed::Short
        } else {
            Parsed::Done(
                WalPageBkStoreValue {
                    slot_id: be_value(s.take(2)) as u16,
                    page_id: be_value(s.skip(2).take(8)) as u64,
                    min_pk: be_value(s.skip(2).skip(8).take(8)) as u64,
                    max_pk: be_value(s.skip(2).skip(8).skip(8).take(8)) as u64,
                },
                26,
            )
        }
    }

    /// Decoding what was encoded gives the value back, whatever follows.
    pub proof fn lemma_round_trip(self, rest: Seq<u8>)
        ensures
            self.spec_encode().len() == 26,
            Self::spec_decode(self.spec_encode() + rest) == Parsed::Done(self, 26),
    {
        let s = self.spec_encode() + rest;
        lemma_pow256_values();
        lemma_be_bytes_len(self.slot_id as nat, 2);
        lemma_be_value_of_bytes(self.slot_id as nat, 2);
        lemma_be_bytes_len(self.page_id as nat, 8);
        lemma_be_value_of_bytes(self.page_id as nat, 8);
        lemma_be_bytes_len(self.min_pk as nat, 8);
        lemma_be_value_of_bytes(self.min_pk as nat, 8);
        lemma_be_bytes_len(self.max_pk as nat, 8);
        lemma_be_value_of_bytes(self.max_pk as nat, 8);
        assert(s.take(2) =~= be_bytes(self.slot_id as nat, 2));
        assert(s.skip(2).take(8) =~= be_bytes(self.page_id as nat, 8));
        assert(s.skip(2).skip(8).take(8) =~= be_bytes(self.min_pk as nat, 8));
        assert(s.skip(2).skip(8).skip(8).take(8) =~= be_bytes(self.max_pk as nat, 8));
    }

    pub fn need_space(&self) -> (n: usize)
        ensures
            n == 26,
    {
        2 + 8 + 8 + 8
    }

    /// Appends the value's bytes to `buf`.
    pub fn encode(&self, buf: &mut BytesMut) -> (r: CustomResult<()>)
        ensures
            r is Ok,
            written(*final(buf)) == written(*old(buf)) + self.spec_encode(),
    {
        put_u16(buf, self.slot_id);
        put_u64(buf, self.page_id);
        put_u64(buf, self.min_pk);
        put_u64(buf, self.max_pk);
        assert(written(*buf) =~= written(*old(buf)) + self.spec_encode());
        Ok(())
    }

    /// Reads a value at the cursor, which moves behind it.
    pub fn decode(buf: &mut Cursor<&[u8]>) -> (r: CustomResult<WalPageBkStoreValue>)
        ensures
            cursor_bytes(*final(buf)) == cursor_bytes(*old(buf)),
            match Self::spec_decode(cursor_rest(*old(buf))) {
                Parsed::Done(value, n) => {
                    &&& r == Ok::<WalPageBkStoreValue, CustomError>(value)
                    &&& cursor_pos(*final(buf)) == cursor_pos(*old(buf)) + n
                    &&& cursor_rest(*final(buf)) == cursor_rest(*old(buf)).skip(n as int)
                },
                Parsed::Short => r is Err && r->Err_0.code
                    == DECODE_FAILED_BY_INSUFFICIENT_DATA_CODE,
                Parsed::Bad => r is Err && r->Err_0.code == GENERIC_CODE,
            },
    {
        let ghost s = cursor_rest(*buf);
        if remaining(buf) < 26 {
            return Err(decode_failed_by_insufficient_data_err());
        }
        let slot_id = read_u16(buf);
        let page_id = read_u64(buf);
        let min_pk = read_u64(buf);
        let max_pk = read_u64(buf);
        proof {
            assert(s.skip(2).skip(8).skip(8).skip(8) =~= s.skip(26));
        }
        match (slot_id, page_id, min_pk, max_pk) {
            (Some(slot_id), Some(page_id), Some(min_pk), Some(max_pk)) => Ok(
                WalPageBkStoreValue { slot_id, page_id, min_pk, max_pk },
            ),
            _ => Err(decode_failed_by_insufficient_data_err()),
        }
    }
}

/// What a record tells was put into a shadow file: a page, or the index of
/// the pages of a slot.
#[derive(Debug, Clone, Copy)]
pub enum Shadowed {
    Page(WalPageBkStoreValue),
    Index(WalPageIndexStoreValue),
}

/// The content that a record carries beside its head.
#[derive(Debug)]
pub enum WalLogValue {
    FeatureUpdate(WalFeatureUpdateValue),
    PageBkStore(WalPageBkStoreValue),
    PageIndexStore(WalPageIndexStoreValue),
}

/// A `WalLogValue` with strings as sequences of characters.
pub enum LogValueView {
    FeatureUpdate(FeatureUpdateView),
    PageBkStore(WalPageBkStoreValue),
    PageIndexStore(WalPageIndexStoreValue),
}

impl View for WalLogValue {
    type V = LogValueView;

    open spec fn view(&self) -> LogValueView {
        match self {
            WalLogValue::FeatureUpdate(v) => LogValueView::FeatureUpdate(v@),
            WalLogValue::PageBkStore(v) => LogValueView::PageBkStore(*v),
            WalLogValue::PageIndexStore(v) => LogValueView::PageIndexStore(*v),
        }
    }
}

/// One record of the log.
#[derive(Debug)]
pub struct WalLogItem {
    /// The transaction that the record belongs to.
    pub tid: u64,
    pub kind: WalLogKind,
    /// The place of the record in the order of all actions.
    pub action_id: u64,
    pub value: Option<WalLogValue>,
}

/// A `WalLogItem` with strings as sequences of characters.
pub struct LogItemView {
    pub tid: u64,
    pub kind: WalLogKind,
    pub action_id: u64,
    pub value: Option<LogValueView>,
}

impl View for WalLogItem {
    type V = LogItemView;

    open spec fn view(&self) -> LogItemView {
        LogItemView {
            tid: self.tid,
            kind: self.kind,
            action_id: self.action_id,
            value: match self.value {
                Some(v) => Some(v@),
                None => None,
            },
        }
    }
}

/// The bytes of the head of a record, behind its length.
pub open spec fn head_bytes(tid: u64, kind: WalLogKind, action_id: u64) -> Seq<u8> {
    be_bytes(tid as nat, 8) + seq![kind.spec_code()] + be_bytes(action_id as nat, 8)
}

/// What the start of `s` spells as the content of a record of kind `kind`.
pub open spec fn payload_decode(kind: WalLogKind, s: Seq<u8>) -> Parsed<Option<LogValueView>> {
    match kind {
        WalLogKind::FeatureUpdate => match FeatureUpdateView::spec_decode(s) {
            Parsed::Done(v, n) => Parsed::Done(Some(LogValueView::FeatureUpdate(v)), n),
            Parsed::Short => Parsed::Short,
            Parsed::Bad => Parsed::Bad,
        },
        WalLogKind::PageBkStore => match WalPageBkStoreValue::spec_decode(s) {
            Parsed::Done(v, n) => Parsed::Done(Some(LogValueView::PageBkStore(v)), n),
            Parsed::Short => Parsed::Short,
            Parsed::Bad => Parsed::Bad,
        },
        WalLogKind::PageIndexStore => match WalPageIndexStoreValue::spec_decode(s) {
            Parsed::Done(v, n) => Parsed::Done(Some(LogValueView::PageIndexStore(v)), n),
            Parsed::Short => Parsed::Short,
            Parsed::Bad => Parsed::Bad,
        },
        _ => Parsed::Done(None, 0),
    }
}

impl LogItemView {
    /// The record carries the content that its kind asks for.
    pub open spec fn wf(self) -> bool {
        match self.kind {
            WalLogKind::FeatureUpdate => self.value matches Some(LogValueView::FeatureUpdate(_)),
            WalLogKind::PageBkStore => self.value matches Some(LogValueView::PageBkStore(_)),
            WalLogKind::PageIndexStore => self.value matches Some(LogValueView::PageIndexStore(_)),
            _ => self.value is None,
        }
    }

    /// The record is well formed and its content can be encoded.
    pub open spec fn encodable(self) -> bool {
        &&& self.wf()
        &&& self.value matches Some(LogValueView::FeatureUpdate(v)) ==> v.encodable()
    }

    /// The bytes of the content.
    pub open spec fn payload_bytes(self) -> Seq<u8> {
        match self.value {
            None => Seq::empty(),
            Some(LogValueView::FeatureUpdate(v)) => v.spec_encode(),
            Some(LogValueView::PageBkStore(v)) => v.spec_encode(),
            Some(LogValueView::PageIndexStore(v)) => v.spec_encode(),
        }
    }

    /// The number of bytes of the content.
    pub open spec fn payload_space(self) -> nat {
        match self.value {
            None => 0,
            Some(LogValueView::FeatureUpdate(v)) => v.spec_need_space(),
            Some(LogValueView::PageBkStore(v)) => 26,
            Some(LogValueView::PageIndexStore(v)) => 2,
        }
    }

    /// The number of bytes of the record behind its length.
    pub open spec fn spec_need_space(self) -> nat {
        17 + self.payload_space()
    }

    /// The record: its length behind these four bytes, the transaction, the
    /// kind, the action and the content.
    pub open spec fn spec_encode(self) -> Seq<u8> {
        be_bytes(self.spec_need_space(), 4) + head_bytes(self.tid, self.kind, self.action_id)
            + self.payload_bytes()
    }

    /// What the start of `s` spells. A record whose length is not that of
    /// its head and content is bad.
    pub open spec fn spec_decode(s: Seq<u8>) -> Parsed<LogItemView> {
        let item_len = be_value(s.take(4));
        let s1 = s.skip(4);
        let s2 = s1.skip(8);
        let s3 = s2.skip(1);
        let s4 = s3.skip(8);
        if s.len() < 4 {
            Parsed::Short
        } else if s1.len() < item_len {
            Parsed::Short
        } else if item_len < 17 {
            Parsed::Bad
        } else {
            match WalLogKind::spec_from_code(s2[0]) {
                None => Parsed::Bad,
                Some(kind) => match payload_decode(kind, s4) {
                    Parsed::Done(value, n) => if 17 + n == item_len {
                        Parsed::Done(
                            LogItemView {
                                tid: be_value(s1.take(8)) as u64,
                                kind,
                                action_id: be_value(s3.take(8)) as u64,
                                value,
                            },
                            4 + item_len,
                        )
                    } else {
                        Parsed::Bad
                    },
                    _ => Parsed::Bad,
                },
            }
        }
    }

    pub proof fn lemma_payload_len(self)
        requires
            self.encodable(),
        ensures
            self.payload_bytes().len() == self.payload_space(),
            self.spec_need_space() <= 17 + 29 + u16::MAX,
            payload_decode(self.kind, self.payload_bytes()) == Parsed::Done(
                self.value,
                self.payload_space(),
            ),
    {
        self.lemma_payload(Seq::empty());
        assert(self.payload_bytes() + Seq::<u8>::empty() =~= self.payload_bytes());
    }

    pub proof fn lemma_payload(self, rest: Seq<u8>)
        requires
            self.encodable(),
        ensures
            self.payload_bytes().len() == self.payload_space(),
            self.spec_need_space() <= 17 + 29 + u16::MAX,
            payload_decode(self.kind, self.payload_bytes() + rest) == Parsed::Done(
                self.value,
                self.payload_space(),
            ),
    {
        match self.value {
            None => {},
            Some(LogValueView::FeatureUpdate(v)) => {
                v.lemma_round_trip(rest);
            },
            Some(LogValueView::PageBkStore(v)) => {
                v.lemma_round_trip(rest);
            },
            Some(LogValueView::PageIndexStore(v)) => {
                v.lemma_round_trip(rest);
            },
        }
    }

    /// Decoding what was encoded gives the record back, whatever follows.
    pub proof fn lemma_round_trip(self, rest: Seq<u8>)
        requires
            self.encodable(),
        ensures
            self.spec_encode().len() == 4 + self.spec_need_space(),
            Self::spec_decode(self.spec_encode() + rest) == Parsed::Done(
                self,
                4 + self.spec_need_space(),
            ),
    {
        let s = self.spec_encode() + rest;
        let need = self.spec_need_space();
        let payload = self.payload_bytes();
        self.lemma_payload(rest);
        lemma_pow256_values();
        lemma_be_bytes_len(need, 4);
        lemma_be_value_of_bytes(need, 4);
        lemma_be_bytes_len(self.tid as nat, 8);
        lemma_be_value_of_bytes(self.tid as nat, 8);
        lemma_be_bytes_len(self.action_id as nat, 8);
        lemma_be_value_of_bytes(self.action_id as nat, 8);
        assert(s.take(4) =~= be_bytes(need, 4));
        let s1 = s.skip(4);
        assert(s1 =~= head_bytes(self.tid, self.kind, self.action_id) + payload + rest);
        assert(s1.take(8) =~= be_bytes(self.tid as nat, 8));
        let s2 = s1.skip(8);
        assert(s2[0] == self.kind.spec_code());
        let s3 = s2.skip(1);
        assert(s3.take(8) =~= be_bytes(self.action_id as nat, 8));
        let s4 = s3.skip(8);
        assert(s4 =~= payload + rest);
    }
}

impl WalLogItem {
    /// The number of bytes of the record behind its length, held at the
    /// largest `usize` where it does not fit.
    pub fn need_space(&self) -> (n: usize)
        ensures
            n == if self@.spec_need_space() <= usize::MAX {
                self@.spec_need_space()
            } else {
                usize::MAX as nat
            },
    {
        let payload: usize = match &self.value {
            None => 0,
            Some(WalLogValue::FeatureUpdate(v)) => v.need_space(),
            Some(WalLogValue::PageBkStore(v)) => v.need_space(),
            Some(WalLogValue::PageIndexStore(v)) => v.need_space(),
        };
        match payload.checked_add(17) {
            Some(n) => n,
            None => usize::MAX,
        }
    }

    /// Whether the record carries the content that its kind asks for.
    pub fn well_formed(&self) -> (b: bool)
        ensures
            b == self@.wf(),
    {
        match self.kind {
            WalLogKind::FeatureUpdate => match &self.value {
                Some(WalLogValue::FeatureUpdate(_)) => true,
                _ => false,
            },
            WalLogKind::PageBkStore => match &self.value {
                Some(WalLogValue::PageBkStore(_)) => true,
                _ => false,
            },
            WalLogKind::PageIndexStore => match &self.value {
                Some(WalLogValue::PageIndexStore(_)) => true,
                _ => false,
            },
            _ => self.value.is_none(),
        }
    }

    /// Appends the record to `buf`; fails, and writes nothing, where the
    /// content is not that of the kind or cannot be encoded.
    pub fn encode(&self, buf: &mut BytesMut) -> (r: CustomResult<()>)
        ensures
            match r {
                Ok(_) => self@.encodable() && written(*final(buf)) == written(*old(buf))
                    + self@.spec_encode(),
                Err(e) => !self@.encodable() && e.code == GENERIC_CODE && written(*final(buf))
                    == written(*old(buf)),
            },
    {
        if !self.well_formed() {
            return Err(common_err(String::from_str("the record's content is not of its kind")));
        }
        if let Some(WalLogValue::FeatureUpdate(v)) = &self.value {
            if !v.can_encode() {
                return Err(common_err(String::from_str("the feature key is too long to encode")));
            }
        }
        proof {
            self@.lemma_payload_len();
        }
        let need = self.need_space();
        put_u32(buf, need as u32);
        put_u64(buf, self.tid);
        put_u8(buf, self.kind.code());
        put_u64(buf, self.action_id);
        let ghost mid = written(*buf);
        assert(mid =~= written(*old(buf)) + be_bytes(need as nat, 4) + head_bytes(
            self.tid,
            self.kind,
            self.action_id,
        ));
        match &self.value {
            None => {},
            Some(WalLogValue::FeatureUpdate(v)) => {
                let _ = v.encode(buf);
            },
            Some(WalLogValue::PageBkStore(v)) => {
                let _ = v.encode(buf);
            },
            Some(WalLogValue::PageIndexStore(v)) => {
                let _ = v.encode(buf);
            },
        }
        assert(written(*buf) =~= written(*old(buf)) + self@.spec_encode());
        Ok(())
    }

    /// Reads a record at the cursor, which moves behind it.
    ///
    /// Where the buffer ends before the record does, the error says that
    /// data is lacking; a record that is malformed gives a generic error.
    pub fn decode(buf: &mut Cursor<&[u8]>) -> (r: CustomResult<WalLogItem>)
        ensures
            cursor_bytes(*final(buf)) == cursor_bytes(*old(buf)),
            match LogItemView::spec_decode(cursor_rest(*old(buf))) {
                Parsed::Done(item, n) => {
                    &&& r matches Ok(v)
                    &&& v@ == item
                    &&& cursor_pos(*final(buf)) == cursor_pos(*old(buf)) + n
                    &&& cursor_rest(*final(buf)) == cursor_rest(*old(buf)).skip(n as int)
                },
                Parsed::Short => r is Err && r->Err_0.code
                    == DECODE_FAILED_BY_INSUFFICIENT_DATA_CODE,
                Parsed::Bad => r is Err && r->Err_0.code == GENERIC_CODE,
            },
    {
        let ghost s = cursor_rest(*buf);
        let item_len = match read_u32(buf) {
            Some(n) => n,
            None => {
                return Err(decode_failed_by_insufficient_data_err());
            },
        };
        if remaining(buf) < item_len as usize {
            return Err(decode_failed_by_insufficient_data_err());
        }
        if item_len < 17 {
            return Err(common_err(String::from_str("the record is shorter than its head")));
        }
        let tid = read_u64(buf);
        let code = read_u8(buf);
        let action_id = read_u64(buf);
        let (tid, code, action_id) = match (tid, code, action_id) {
            (Some(tid), Some(code), Some(action_id)) => (tid, code, action_id),
            _ => {
                return Err(decode_failed_by_insufficient_data_err());
            },
        };
        let kind = match WalLogKind::try_from(code) {
            Ok(kind) => kind,
            Err(e) => {
                return Err(e);
            },
        };
        proof {
            lemma_pow256_values();
            lemma_be_value_bound(s.take(4));
            lemma_be_value_bound(s.skip(4).take(8));
            lemma_be_value_bound(s.skip(4).skip(8).skip(1).take(8));
        }
        let start = position(buf);
        let ghost s4 = cursor_rest(*buf);
        let value: Result<Option<WalLogValue>, CustomError> = match kind {
            WalLogKind::FeatureUpdate => match WalFeatureUpdateValue::decode(buf) {
                Ok(v) => Ok(Some(WalLogValue::FeatureUpdate(v))),
                Err(e) => Err(e),
            },
            WalLogKind::PageIndexStore => match WalPageIndexStoreValue::decode(buf) {
                Ok(v) => Ok(Some(WalLogValue::PageIndexStore(v))),
                Err(e) => Err(e),
            },
            WalLogKind::PageBkStore => match WalPageBkStoreValue::decode(buf) {
                Ok(v) => Ok(Some(WalLogValue::PageBkStore(v))),
                Err(e) => Err(e),
            },
            _ => Ok(None),
        };
        let value = match value {
            Ok(value) => value,
            Err(_) => {
                return Err(common_err(String::from_str("the record's content is malformed")));
            },
        };
        let end = position(buf);
        if end - start != (item_len - 17) as u64 {
            return Err(common_err(String::from_str("the record's length is not that of its content")));
        }
        proof {
            assert(s4.skip((end - start) as int) =~= s.skip(4 + item_len));
        }
        Ok(WalLogItem { tid, kind, action_id, value })
    }
}

/// The name of the log's file in the directory `data_dir`.
pub open spec fn spec_wal_file_path(data_dir: Seq<char>) -> Seq<char> {
    data_dir + "/redo.log"@
}

pub fn get_wal_file_path(data_dir: String) -> (path: String)
    ensures
        path@ == spec_wal_file_path(data_dir@),
{
    data_dir.concat("/redo.log")
}

/// The ids that are handed out next: one for transactions, one for actions.
#[derive(Debug, Clone, Copy, PartialEq, Eq, Structural)]
pub struct IdSource {
    pub next_tid: u64,
    pub next_action_id: u64,
}

/// The number behind `id`; behind the largest number comes 0.
pub open spec fn next_id(id: u64) -> u64 {
    if id == u64::MAX {
        0
    } else {
        (id + 1) as u64
    }
}

/// Hands out the id of a new transaction.
pub fn generate_tid(ids: &mut IdSource) -> (tid: u64)
    ensures
        tid == old(ids).next_tid,
        final(ids).next_tid == next_id(tid),
        final(ids).next_action_id == old(ids).next_action_id,
{
    let tid = ids.next_tid;
    ids.next_tid = tid.wrapping_add(1);
    tid
}

/// Hands out the id of a new action.
pub fn generate_action_id(ids: &mut IdSource) -> (action_id: u64)
    ensures
        action_id == old(ids).next_action_id,
        final(ids).next_action_id == next_id(action_id),
        final(ids).next_tid == old(ids).next_tid,
{
    let action_id = ids.next_action_id;
    ids.next_action_id = action_id.wrapping_add(1);
    action_id
}

/// What the writer of the log has done.
#[derive(Debug, Clone, Copy, PartialEq, Eq, Structural)]
pub struct WalState {
    /// The action of the record that was written last.
    pub stored_num: u64,
}

impl WalState {
    pub fn new() -> (state: WalState)
        ensures
            state.stored_num == 0,
    {
        WalState { stored_num: 0 }
    }
}

/// The action ids ascend strictly along `items`.
pub open spec fn actions_ascending(items: Seq<LogItemView>) -> bool {
    forall|i: int, j: int| 0 <= i < j < items.len() ==> items[i].action_id < items[j].action_id
}

/// The records, as sequences of characters and numbers.
pub open spec fn item_views(items: Seq<WalLogItem>) -> Seq<LogItemView> {
    Seq::new(items.len(), |i: int| items[i]@)
}

/// The bytes of the records `items`, one after the other.
pub open spec fn log_bytes(items: Seq<LogItemView>) -> Seq<u8>
    decreases items.len(),
{
    if items.len() == 0 {
        Seq::empty()
    } else {
        log_bytes(items.drop_last()) + items.last().spec_encode()
    }
}

/// The records among the first of `sent` that count as written, in their
/// order: `counted` says of each of them whether it does.
pub open spec fn written_of(sent: Seq<LogItemView>, counted: Seq<bool>) -> Seq<LogItemView>
    decreases counted.len(),
{
    if counted.len() == 0 {
        Seq::empty()
    } else {
        let before = written_of(sent, counted.drop_last());
        if counted.last() {
            before.push(sent[counted.len() - 1])
        } else {
            before
        }
    }
}

/// The number of records at the head of `waiting`, one behind the other,
/// that belong to transactions among `given_up`.
pub open spec fn given_up_run(waiting: Seq<LogItemView>, given_up: Set<u64>) -> nat
    decreases waiting.len(),
{
    if waiting.len() == 0 || !given_up.contains(waiting[0].tid) {
        0
    } else {
        1 + given_up_run(waiting.skip(1), given_up)
    }
}

/// What counts as written does not change when a record is sent.
pub proof fn lemma_written_of_sent(sent: Seq<LogItemView>, counted: Seq<bool>, item: LogItemView)
    requires
        counted.len() <= sent.len(),
    ensures
        written_of(sent.push(item), counted) == written_of(sent, counted),
    decreases counted.len(),
{
    if counted.len() > 0 {
        lemma_written_of_sent(sent, counted.drop_last(), item);
        assert(sent.push(item)[counted.len() - 1] == sent[counted.len() - 1]);
    }
}

/// The records that count as written have ascending action ids, none above
/// that of the last record spoken of.
pub proof fn lemma_written_ascending(sent: Seq<LogItemView>, counted: Seq<bool>)
    requires
        counted.len() <= sent.len(),
        actions_ascending(sent),
    ensures
        actions_ascending(written_of(sent, counted)),
        forall|j: int|
            0 <= j < written_of(sent, counted).len() ==> (#[trigger] written_of(
                sent,
                counted,
            )[j]).action_id <= sent[counted.len() - 1].action_id,
        counted.len() > 0 && counted.last() ==> written_of(sent, counted).len() > 0 && written_of(
            sent,
            counted,
        ).last() == sent[counted.len() - 1],
    decreases counted.len(),
{
    if counted.len() > 0 {
        let before = written_of(sent, counted.drop_last());
        lemma_written_ascending(sent, counted.drop_last());
        let log = written_of(sent, counted);
        assert forall|j: int| 0 <= j < log.len() implies (#[trigger] log[j]).action_id <= sent[counted.len()
            - 1].action_id by {
            if j < before.len() {
                assert(log[j] == before[j]);
                assert(before[j].action_id <= sent[counted.len() - 2].action_id);
            }
        }
        assert forall|i: int, j: int| 0 <= i < j < log.len() implies log[i].action_id
            < log[j].action_id by {
            if j < before.len() {
                assert(log[i] == before[i] && log[j] == before[j]);
            } else {
                assert(log[i] == before[i]);
                assert(before[i].action_id <= sent[counted.len() - 2].action_id);
            }
        }
    }
}

/// Whether `x` is among `v`.
fn among(v: &Vec<u64>, x: u64) -> (b: bool)
    ensures
        b == v@.contains(x),
{
    let n = v.len();
    let mut i: usize = 0;
    while i < n
        invariant
            n == v@.len(),
            i <= n,
            forall|j: int| 0 <= j < i ==> v@[j] != x,
        decreases n - i,
    {
        if v[i] == x {
            return true;
        }
        i = i + 1;
    }
    false
}

/// What a sequence holds when one more is behind it.
proof fn lemma_push_contains(s: Seq<u64>, x: u64)
    ensures
        forall|y: u64| #[trigger] s.push(x).contains(y) == (s.contains(y) || y == x),
{
    assert forall|y: u64| #[trigger] s.push(x).contains(y) == (s.contains(y) || y == x) by {
        if s.push(x).contains(y) {
            let i = choose|i: int| 0 <= i < s.push(x).len() && s.push(x)[i] == y;
            if i < s.len() {
                assert(s[i] == y);
            }
        }
        if s.contains(y) {
            let i = choose|i: int| 0 <= i < s.len() && s[i] == y;
            assert(s.push(x)[i] == y);
        }
        if y == x {
            assert(s.push(x)[s.len() as int] == x);
        }
    }
}

/// The numbers that `s` holds.
pub open spec fn members(s: Seq<u64>) -> Set<u64> {
    Set::new(|x: u64| s.contains(x))
}

/// The record that the writer has taken and not yet spoken of.
#[derive(Debug, Clone, Copy)]
pub struct InFlight {
    pub action_id: u64,
    pub tid: u64,
}

/// The write-ahead log between those that send records and the one writer:
/// the records that wait, in the order in which they were sent, and the ids
/// to hand out.
///
/// The writer takes one record at a time and says what became of it. A
/// record counts as written where the writer has said so of it, unless its
/// transaction is lost. A transaction is lost where a record of it was lost,
/// or where it was given up. The writer goes on with the records that
/// follow a lost one, also with those of its transaction. The records of a
/// transaction that was given up are not written any more once they wait,
/// so that the log never commits it.
pub struct Wal {
    ids: IdSource,
    /// The id of the action that was handed out first.
    first_action: u64,
    /// The records that were sent and not yet taken, first sent first.
    queue: VecDeque<WalLogItem>,
    state: WalState,
    /// The record that the writer has taken and not yet spoken of.
    in_flight: Option<InFlight>,
    /// The number of records that were spoken of.
    spoken: u64,
    /// The transactions that are lost.
    lost_tids: Vec<u64>,
    /// The transactions that were given up.
    given_up_tids: Vec<u64>,
    /// The actions of the records that were spoken of and do not count as
    /// written.
    uncounted: Vec<u64>,
    /// Every record that was sent, in the order of sending.
    sent: Ghost<Seq<LogItemView>>,
    /// Of each record that was spoken of, whether it counts as written.
    counted: Ghost<Seq<bool>>,
    /// The number of records that the writer has taken or that were dropped.
    taken: Ghost<nat>,
}

impl Wal {
    /// Every record that was sent, in the order of sending.
    pub closed spec fn sent(&self) -> Seq<LogItemView> {
        self.sent@
    }

    /// Of each record that was spoken of, whether it counts as written: the
    /// records spoken of are the first so many of those sent.
    pub closed spec fn counted(&self) -> Seq<bool> {
        self.counted@
    }

    /// The number of records that the writer has taken or that were
    /// dropped: they are the first so many of those sent.
    pub closed spec fn handed_count(&self) -> nat {
        self.taken@
    }

    /// The action of the record that the writer has taken and not yet
    /// spoken of.
    pub closed spec fn in_flight(&self) -> Option<u64> {
        match self.in_flight {
            Some(taken) => Some(taken.action_id),
            None => None,
        }
    }

    /// The transactions that are lost.
    pub closed spec fn lost(&self) -> Set<u64> {
        members(self.lost_tids@)
    }

    /// The transactions that were given up.
    pub closed spec fn given_up(&self) -> Set<u64> {
        members(self.given_up_tids@)
    }

    /// The records that count as written, in the order of the log.
    pub open spec fn log(&self) -> Seq<LogItemView> {
        written_of(self.sent(), self.counted())
    }

    /// The number of records that count as written.
    pub open spec fn written_count(&self) -> nat {
        self.log().len()
    }

    /// The records that wait to be taken by the writer.
    pub open spec fn waiting(&self) -> Seq<LogItemView> {
        self.sent().skip(self.handed_count() as int)
    }

    /// Whether the writer has in `after` done what it had done in `before`,
    /// and the same transactions are lost.
    pub open spec fn same_writer(before: Wal, after: Wal) -> bool {
        &&& after.counted() == before.counted()
        &&& after.log() == before.log()
        &&& after.handed_count() == before.handed_count()
        &&& after.in_flight() == before.in_flight()
        &&& after.lost() == before.lost()
        &&& after.given_up() == before.given_up()
        &&& after.state() == before.state()
    }

    pub closed spec fn ids(&self) -> IdSource {
        self.ids
    }

    pub closed spec fn state(&self) -> WalState {
        self.state
    }

    /// Those that wait are the ones sent and not taken; the action ids
    /// follow one another.
    pub closed spec fn inner_wf(&self) -> bool {
        &&& self.taken@ <= self.sent@.len()
        &&& item_views(self.queue@) == self.sent@.skip(self.taken@ as int)
        &&& self.spoken == self.counted@.len()
        &&& self.ids.next_action_id == self.first_action + self.sent@.len()
        &&& forall|i: int|
            0 <= i < self.sent@.len() ==> (#[trigger] self.sent@[i]).action_id == self.first_action
                + i
        &&& match self.in_flight {
            Some(taken) => self.taken@ == self.counted@.len() + 1 && self.sent@[self.taken@ - 1].tid
                == taken.tid,
            None => self.taken@ == self.counted@.len(),
        }
        &&& forall|i: int|
            0 <= i < self.counted@.len() ==> #[trigger] self.counted@[i]
                == !self.uncounted@.contains(self.sent@[i].action_id)
        &&& forall|x: u64| #[trigger]
            self.uncounted@.contains(x) ==> self.first_action <= x < self.first_action
                + self.counted@.len()
    }

    /// The records sent have ascending action ids below the id that is
    /// handed out next; each can be encoded; those that wait are the ones
    /// sent and not taken; the record that the writer has taken and not
    /// spoken of is the last one taken, and the others taken were spoken of;
    /// a record that was spoken of and does not count belongs to a
    /// transaction that is lost; a transaction that was given up is lost;
    /// where a record counts, so do the records of
    /// its transaction that were sent before it; the writer's state names
    /// the last record that counts as written.
    pub open spec fn wf(&self) -> bool {
        &&& self.inner_wf()
        &&& self.handed_count() <= self.sent().len()
        &&& self.handed_count() == self.counted().len() + if self.in_flight() is Some {
            1nat
        } else {
            0nat
        }
        &&& self.in_flight() matches Some(action_id) ==> self.sent()[self.handed_count()
            - 1].action_id == action_id
        &&& actions_ascending(self.sent())
        &&& forall|i: int|
            0 <= i < self.sent().len() ==> (#[trigger] self.sent()[i]).encodable()
                && self.sent()[i].action_id < self.ids().next_action_id
        &&& forall|i: int|
            0 <= i < self.counted().len() && !(#[trigger] self.counted()[i]) ==> self.lost().contains(
                self.sent()[i].tid,
            )
        &&& self.given_up().subset_of(self.lost())
        &&& forall|i: int, j: int|
            0 <= i < j < self.counted().len() && self.sent()[i].tid == self.sent()[j].tid
                && #[trigger] self.counted()[j] ==> #[trigger] self.counted()[i]
        &&& self.log().len() > 0 ==> self.state().stored_num == self.log().last().action_id
    }

    /// An empty log that hands out ids from `ids` on.
    pub fn new(ids: IdSource) -> (wal: Wal)
        ensures
            wal.wf(),
            wal.ids() == ids,
            wal.sent() == Seq::<LogItemView>::empty(),
            wal.written_count() == 0,
            wal.handed_count() == 0,
            wal.counted() == Seq::<bool>::empty(),
            wal.in_flight() is None,
            wal.lost() == Set::<u64>::empty(),
            wal.given_up() == Set::<u64>::empty(),
            wal.state().stored_num == 0,
    {
        let wal = Wal {
            ids,
            first_action: ids.next_action_id,
            queue: VecDeque::new(),
            state: WalState::new(),
            in_flight: None,
            spoken: 0,
            lost_tids: Vec::new(),
            given_up_tids: Vec::new(),
            uncounted: Vec::new(),
            sent: Ghost(Seq::empty()),
            counted: Ghost(Seq::empty()),
            taken: Ghost(0),
        };
        assert(wal.lost() =~= Set::<u64>::empty());
        assert(wal.given_up() =~= Set::<u64>::empty());
        assert(item_views(wal.queue@) =~= wal.sent@.skip(0));
        wal
    }

    /// Hands out the id of a new transaction.
    pub fn generate_tid(&mut self) -> (tid: u64)
        requires
            old(self).wf(),
        ensures
            final(self).wf(),
            tid == old(self).ids().next_tid,
            final(self).ids() == (IdSource { next_tid: next_id(tid), ..old(self).ids() }),
            final(self).sent() == old(self).sent(),
            final(self).written_count() == old(self).written_count(),
            final(self).state() == old(self).state(),
            Self::same_writer(*old(self), *final(self)),
    {
        generate_tid(&mut self.ids)
    }

    /// The number of records that wait to be taken by the writer.
    pub fn pending(&self) -> (n: usize)
        requires
            self.wf(),
        ensures
            n == self.waiting().len(),
    {
        assert(item_views(self.queue@).len() == self.queue@.len());
        self.queue.len()
    }

    /// What the writer has done.
    pub fn writer_state(&self) -> (state: WalState)
        ensures
            state == self.state(),
    {
        self.state
    }

    /// Whether `n` more action ids can be handed out.
    pub fn room_for(&self, n: u64) -> (b: bool)
        ensures
            b == (self.ids().next_action_id + n <= u64::MAX),
    {
        self.ids.next_action_id <= u64::MAX - n
    }

    /// The ids that are handed out next.
    pub fn id_source(&self) -> (ids: IdSource)
        ensures
            ids == self.ids(),
    {
        self.ids
    }

    /// Sends a record of kind `kind` for transaction `tid`: it gets the next
    /// action id and waits behind the records sent before.
    ///
    /// Fails, and changes nothing, where the content is not that of the
    /// kind or cannot be encoded, or where no action id is left.
    #[verifier::rlimit(30)]
    pub fn send_log(&mut self, tid: u64, kind: WalLogKind, value: Option<WalLogValue>) -> (r:
        CustomResult<u64>)
        requires
            old(self).wf(),
        ensures
            final(self).wf(),
            final(self).written_count() == old(self).written_count(),
            final(self).state() == old(self).state(),
            Self::same_writer(*old(self), *final(self)),
            final(self).ids().next_tid == old(self).ids().next_tid,
            ({
                let item = LogItemView {
                    tid,
                    kind,
                    action_id: old(self).ids().next_action_id,
                    value: match value {
                        Some(v) => Some(v@),
                        None => None,
                    },
                };
                match r {
                    Ok(action_id) => {
                        &&& item.encodable()
                        &&& action_id == old(self).ids().next_action_id
                        &&& action_id < u64::MAX
                        &&& final(self).ids().next_action_id == action_id + 1
                        &&& final(self).sent() == old(self).sent().push(item)
                    },
                    Err(e) => {
                        &&& e.code == GENERIC_CODE
                        &&& !item.encodable() || old(self).ids().next_action_id == u64::MAX
                        &&& final(self).ids() == old(self).ids()
                        &&& final(self).sent() == old(self).sent()
                    },
                }
            }),
    {
        if self.ids.next_action_id == u64::MAX {
            return Err(common_err(String::from_str("no action id is left")));
        }
        let item = WalLogItem { tid, kind, action_id: self.ids.next_action_id, value };
        if !item.well_formed() {
            return Err(common_err(String::from_str("the record's content is not of its kind")));
        }
        if let Some(WalLogValue::FeatureUpdate(v)) = &item.value {
            if !v.can_encode() {
                return Err(common_err(String::from_str("the feature key is too long to encode")));
            }
        }
        let action_id = generate_action_id(&mut self.ids);
        let ghost view = item@;
        let ghost before = self.sent@;
        let ghost queued = self.queue@;
        self.queue.push_back(item);
        proof {
            self.sent = Ghost(before.push(view));
            assert(item_views(self.queue@) =~= item_views(queued).push(view));
            assert(self.sent@.skip(self.taken@ as int) =~= before.skip(self.taken@ as int).push(
                view,
            ));
            assert forall|i: int, j: int| 0 <= i < j < self.sent@.len() implies self.sent@[i].action_id
                < self.sent@[j].action_id by {
                if j == before.len() {
                    assert(self.sent@[i] == before[i]);
                } else {
                    assert(self.sent@[i] == before[i] && self.sent@[j] == before[j]);
                }
            }
            assert forall|i: int| 0 <= i < self.sent@.len() implies (#[trigger] self.sent@[i]).encodable()
                && self.sent@[i].action_id < self.ids.next_action_id by {
                if i < before.len() {
                    assert(self.sent@[i] == before[i]);
                }
            }
            if self.taken@ > 0 {
                assert(self.sent@[self.taken@ - 1] == before[self.taken@ - 1]);
            }
            lemma_written_of_sent(before, self.counted@, view);
            assert forall|i: int| 0 <= i < self.sent@.len() implies (#[trigger] self.sent@[i]).action_id
                == self.first_action + i by {
                if i < before.len() {
                    assert(self.sent@[i] == before[i]);
                }
            }
            assert forall|i: int| 0 <= i < self.counted@.len() implies #[trigger] self.counted@[i]
                == !self.uncounted@.contains(self.sent@[i].action_id) by {
                assert(self.sent@[i] == before[i]);
            }
            assert forall|i: int|
                0 <= i < self.counted@.len() && !(#[trigger] self.counted@[i]) implies self.lost().contains(
                self.sent@[i].tid,
            ) by {
                assert(self.sent@[i] == before[i]);
            }
            assert forall|i: int, j: int|
                0 <= i < j < self.counted@.len() && self.sent@[i].tid == self.sent@[j].tid
                    && #[trigger] self.counted@[j] implies #[trigger] self.counted@[i] by {
                assert(self.sent@[i] == before[i] && self.sent@[j] == before[j]);
            }
        }
        Ok(action_id)
    }

    pub fn send_begin_log(&mut self, tid: u64) -> (r: CustomResult<u64>)
        requires
            old(self).wf(),
        ensures
            final(self).wf(),
            final(self).written_count() == old(self).written_count(),
            final(self).state() == old(self).state(),
            final(self).ids().next_tid == old(self).ids().next_tid,
            Self::sent_or_not(
                *old(self),
                *final(self),
                r,
                LogItemView {
                    tid,
                    kind: WalLogKind::Begin,
                    action_id: old(self).ids().next_action_id,
                    value: None,
                },
            ),
    {
        self.send_log(tid, WalLogKind::Begin, None)
    }

    /// Whether `r` tells what became of the sending of `item`: it was sent,
    /// or it was not and nothing changed.
    pub open spec fn sent_or_not(
        before: Wal,
        after: Wal,
        r: CustomResult<u64>,
        item: LogItemView,
    ) -> bool {
        Self::same_writer(before, after) && match r {
            Ok(action_id) => {
                &&& item.encodable()
                &&& action_id == item.action_id
                &&& action_id < u64::MAX
                &&& after.ids().next_action_id == action_id + 1
                &&& after.sent() == before.sent().push(item)
            },
            Err(e) => {
                &&& e.code == GENERIC_CODE
                &&& !item.encodable() || before.ids().next_action_id == u64::MAX
                &&& after.ids() == before.ids()
                &&& after.sent() == before.sent()
            },
        }
    }

    pub fn send_feature_update_log(&mut self, tid: u64, value: WalFeatureUpdateValue) -> (r:
        CustomResult<u64>)
        requires
            old(self).wf(),
        ensures
            final(self).wf(),
            final(self).written_count() == old(self).written_count(),
            final(self).state() == old(self).state(),
            final(self).ids().next_tid == old(self).ids().next_tid,
            Self::sent_or_not(
                *old(self),
                *final(self),
                r,
                LogItemView {
                    tid,
                    kind: WalLogKind::FeatureUpdate,
                    action_id: old(self).ids().next_action_id,
                    value: Some(LogValueView::FeatureUpdate(value@)),
                },
            ),
    {
        self.send_log(tid, WalLogKind::FeatureUpdate, Some(WalLogValue::FeatureUpdate(value)))
    }

    pub fn send_page_index_store_log(&mut self, tid: u64, value: WalPageIndexStoreValue) -> (r:
        CustomResult<u64>)
        requires
            old(self).wf(),
        ensures
            final(self).wf(),
            final(self).written_count() == old(self).written_count(),
            final(self).state() == old(self).state(),
            final(self).ids().next_tid == old(self).ids().next_tid,
            Self::sent_or_not(
                *old(self),
                *final(self),
                r,
                LogItemView {
                    tid,
                    kind: WalLogKind::PageIndexStore,
                    action_id: old(self).ids().next_action_id,
                    value: Some(LogValueView::PageIndexStore(value)),
                },
            ),
    {
        self.send_log(tid, WalLogKind::PageIndexStore, Some(WalLogValue::PageIndexStore(value)))
    }

    pub fn send_page_bk_store_log(&mut self, tid: u64, value: WalPageBkStoreValue) -> (r:
        CustomResult<u64>)
        requires
            old(self).wf(),
        ensures
            final(self).wf(),
            final(self).written_count() == old(self).written_count(),
            final(self).state() == old(self).state(),
            final(self).ids().next_tid == old(self).ids().next_tid,
            Self::sent_or_not(
                *old(self),
                *final(self),
                r,
                LogItemView {
                    tid,
                    kind: WalLogKind::PageBkStore,
                    action_id: old(self).ids().next_action_id,
                    value: Some(LogValueView::PageBkStore(value)),
                },
            ),
    {
        self.send_log(tid, WalLogKind::PageBkStore, Some(WalLogValue::PageBkStore(value)))
    }

    /// Sends the record that commits transaction `tid`. The transaction is
    /// durable once the writer has written this record; `is_written` tells.
    pub fn commit_log(&mut self, tid: u64) -> (r: CustomResult<u64>)
        requires
            old(self).wf(),
        ensures
            final(self).wf(),
            final(self).written_count() == old(self).written_count(),
            final(self).state() == old(self).state(),
            final(self).ids().next_tid == old(self).ids().next_tid,
            Self::sent_or_not(
                *old(self),
                *final(self),
                r,
                LogItemView {
                    tid,
                    kind: WalLogKind::Commit,
                    action_id: old(self).ids().next_action_id,
                    value: None,
                },
            ),
    {
        self.send_log(tid, WalLogKind::Commit, None)
    }

    /// Notes that the record behind those that were spoken of does not
    /// count as written.
    fn note_uncounted(&mut self, action_id: u64)
        requires
            old(self).spoken == old(self).counted@.len(),
            old(self).counted@.len() < old(self).sent@.len(),
            old(self).first_action + old(self).sent@.len() <= u64::MAX,
            forall|i: int|
                0 <= i < old(self).sent@.len() ==> (#[trigger] old(self).sent@[i]).action_id == old(
                    self,
                ).first_action + i,
            old(self).sent@[old(self).counted@.len() as int].action_id == action_id,
            forall|i: int|
                0 <= i < old(self).counted@.len() ==> #[trigger] old(self).counted@[i] == !old(
                    self,
                ).uncounted@.contains(old(self).sent@[i].action_id),
            forall|x: u64| #[trigger]
                old(self).uncounted@.contains(x) ==> old(self).first_action <= x < old(
                    self,
                ).first_action + old(self).counted@.len(),
        ensures
            final(self).sent@ == old(self).sent@,
            final(self).ids == old(self).ids,
            final(self).first_action == old(self).first_action,
            final(self).queue == old(self).queue,
            final(self).state == old(self).state,
            final(self).in_flight == old(self).in_flight,
            final(self).lost_tids == old(self).lost_tids,
            final(self).given_up_tids == old(self).given_up_tids,
            final(self).taken@ == old(self).taken@,
            final(self).counted@ == old(self).counted@.push(false),
            final(self).spoken == final(self).counted@.len(),
            forall|i: int|
                0 <= i < final(self).counted@.len() ==> #[trigger] final(self).counted@[i]
                    == !final(self).uncounted@.contains(final(self).sent@[i].action_id),
            forall|x: u64| #[trigger]
                final(self).uncounted@.contains(x) ==> final(self).first_action <= x
                    < final(self).first_action + final(self).counted@.len(),
    {
        let ghost before = self.uncounted@;
        let ghost n = self.counted@.len() as int;
        self.uncounted.push(action_id);
        self.spoken = self.spoken + 1;
        proof {
            self.counted = Ghost(self.counted@.push(false));
            lemma_push_contains(before, action_id);
            assert forall|i: int| 0 <= i < self.counted@.len() implies #[trigger] self.counted@[i]
                == !self.uncounted@.contains(self.sent@[i].action_id) by {
                if i < n {
                    assert(self.counted@[i] == old(self).counted@[i]);
                }
            }
        }
    }

    /// Whether a record waits whose transaction was given up, at the head of
    /// those that wait.
    fn head_given_up(&self) -> (b: bool)
        requires
            self.wf(),
        ensures
            b == (self.handed_count() < self.sent().len() && self.given_up().contains(
                self.sent()[self.handed_count() as int].tid,
            )),
    {
        proof {
            assert(item_views(self.queue@).len() == self.queue@.len());
        }
        if self.queue.len() == 0 {
            return false;
        }
        proof {
            assert(item_views(self.queue@)[0] == self.queue@[0]@);
            assert(self.sent@.skip(self.taken@ as int)[0] == self.sent@[self.taken@ as int]);
        }
        among(&self.given_up_tids, self.queue[0].tid)
    }

    /// Drops the record at the head of those that wait, which belongs to a
    /// transaction that was given up: it does not count as written.
    fn drop_head(&mut self)
        requires
            old(self).wf(),
            old(self).in_flight() is None,
            old(self).handed_count() < old(self).sent().len(),
            old(self).given_up().contains(old(self).sent()[old(self).handed_count() as int].tid),
        ensures
            final(self).wf(),
            final(self).sent() == old(self).sent(),
            final(self).ids() == old(self).ids(),
            final(self).state() == old(self).state(),
            final(self).log() == old(self).log(),
            final(self).lost() == old(self).lost(),
            final(self).given_up() == old(self).given_up(),
            final(self).in_flight() is None,
            final(self).counted() == old(self).counted().push(false),
            final(self).handed_count() == old(self).handed_count() + 1,
    {
        let ghost start = *self;
        let ghost queued = self.queue@;
        proof {
            assert(item_views(queued).len() == queued.len());
            assert(item_views(queued)[0] == queued[0]@);
            assert(self.sent@.skip(self.taken@ as int)[0] == self.sent@[self.taken@ as int]);
        }
        let action_id = match self.queue.pop_front() {
            Some(item) => item.action_id,
            None => 0,
        };
        proof {
            assert(item_views(self.queue@) =~= item_views(queued).skip(1));
            assert(self.sent@.skip(self.taken@ as int).skip(1) =~= self.sent@.skip(
                self.taken@ as int + 1,
            ));
            self.taken = Ghost(self.taken@ + 1);
        }
        self.note_uncounted(action_id);
        proof {
            assert(self.counted@.drop_last() =~= start.counted@);
            assert forall|i: int, j: int|
                0 <= i < j < self.counted@.len() && self.sent@[i].tid == self.sent@[j].tid
                    && #[trigger] self.counted@[j] implies #[trigger] self.counted@[i] by {
                assert(self.counted@[i] == start.counted@[i]);
                assert(self.counted@[j] == start.counted@[j]);
            }
            assert forall|i: int|
                0 <= i < self.counted@.len() && !(#[trigger] self.counted@[i]) implies self.lost().contains(
                self.sent@[i].tid,
            ) by {
                if i < start.counted@.len() {
                    assert(self.counted@[i] == start.counted@[i]);
                }
            }
        }
    }

    /// Drops the records at the head of those that wait which belong to
    /// transactions that were given up.
    #[verifier::rlimit(30)]
    fn drop_given_up(&mut self)
        requires
            old(self).wf(),
            old(self).in_flight() is None,
        ensures
            final(self).wf(),
            final(self).sent() == old(self).sent(),
            final(self).ids() == old(self).ids(),
            final(self).state() == old(self).state(),
            final(self).log() == old(self).log(),
            final(self).lost() == old(self).lost(),
            final(self).given_up() == old(self).given_up(),
            final(self).in_flight() is None,
            final(self).counted() == old(self).counted() + Seq::new(
                given_up_run(old(self).waiting(), old(self).given_up()),
                |i: int| false,
            ),
            final(self).handed_count() == old(self).handed_count() + given_up_run(
                old(self).waiting(),
                old(self).given_up(),
            ),
            final(self).handed_count() < final(self).sent().len() ==> !final(self).given_up().contains(
                final(self).sent()[final(self).handed_count() as int].tid,
            ),
    {
        let ghost mut dropped: nat = 0;
        let mut more = self.head_given_up();
        proof {
            assert(old(self).counted() + Seq::new(0, |i: int| false) =~= old(self).counted());
        }
        while more
            invariant
                self.wf(),
                self.in_flight() is None,
                self.sent() == old(self).sent(),
                self.ids() == old(self).ids(),
                self.state() == old(self).state(),
                self.log() == old(self).log(),
                self.lost() == old(self).lost(),
                self.given_up() == old(self).given_up(),
                self.counted() == old(self).counted() + Seq::new(dropped, |i: int| false),
                self.handed_count() == old(self).handed_count() + dropped,
                given_up_run(old(self).waiting(), old(self).given_up()) == dropped + given_up_run(
                    self.waiting(),
                    self.given_up(),
                ),
                more == (self.handed_count() < self.sent().len() && self.given_up().contains(
                    self.sent()[self.handed_count() as int].tid,
                )),
            decreases self.sent().len() - self.handed_count(),
        {
            let ghost before = self.waiting();
            let ghost held = self.counted();
            proof {
                assert(before[0] == self.sent()[self.handed_count() as int]);
            }
            self.drop_head();
            proof {
                assert(before.skip(1) =~= self.waiting());
                assert(held.push(false) =~= old(self).counted() + Seq::new(
                    dropped + 1,
                    |i: int| false,
                ));
                dropped = dropped + 1;
            }
            more = self.head_given_up();
        }
        proof {
            if self.handed_count() < self.sent().len() {
                assert(self.waiting()[0] == self.sent()[self.handed_count() as int]);
            }
        }
    }

    /// One step of the writer: takes the record that waits longest and
    /// appends its bytes to `out`. Returns the record, or nothing where none
    /// waits.
    ///
    /// The writer is to say next what became of the record, with
    /// `record_written` or `record_lost`. A record that it has taken before
    /// and not spoken of is lost, and with it its transaction. The records
    /// at the head of those that wait which belong to transactions that
    /// were given up are dropped: they are not handed out and do not count
    /// as written.
    #[verifier::rlimit(30)]
    pub fn write_next(&mut self, out: &mut BytesMut) -> (r: Option<WalLogItem>)
        requires
            old(self).wf(),
        ensures
            final(self).wf(),
            final(self).sent() == old(self).sent(),
            final(self).ids() == old(self).ids(),
            final(self).state() == old(self).state(),
            final(self).log() == old(self).log(),
            ({
                let lost = if old(self).in_flight() is Some {
                    old(self).lost().insert(old(self).sent()[old(self).handed_count() - 1].tid)
                } else {
                    old(self).lost()
                };
                let spoken = if old(self).in_flight() is Some {
                    old(self).counted().push(false)
                } else {
                    old(self).counted()
                };
                let dropped = given_up_run(old(self).waiting(), old(self).given_up());
                &&& final(self).lost() == lost
                &&& final(self).given_up() == old(self).given_up()
                &&& final(self).counted() == spoken + Seq::new(dropped, |i: int| false)
                &&& match r {
                    Some(item) => {
                        &&& old(self).handed_count() + dropped < old(self).sent().len()
                        &&& item@ == old(self).sent()[(old(self).handed_count() + dropped) as int]
                        &&& final(self).handed_count() == old(self).handed_count() + dropped + 1
                        &&& final(self).in_flight() == Some(item.action_id)
                        &&& written(*final(out)) == written(*old(out)) + item@.spec_encode()
                    },
                    None => {
                        &&& old(self).handed_count() + dropped == old(self).sent().len()
                        &&& final(self).handed_count() == old(self).sent().len()
                        &&& final(self).in_flight() is None
                        &&& written(*final(out)) == written(*old(out))
                    },
                }
            }),
    {
        match self.in_flight {
            Some(taken) => {
                self.record_lost(taken.action_id);
            },
            None => {},
        }
        self.drop_given_up();
        let ghost queued = self.queue@;
        proof {
            assert(item_views(queued).len() == queued.len());
        }
        let item = match self.queue.pop_front() {
            Some(item) => item,
            None => {
                return None;
            },
        };
        proof {
            assert(item_views(queued)[0] == queued[0]@);
            assert(self.sent@.skip(self.taken@ as int)[0] == self.sent@[self.taken@ as int]);
            assert(item@.encodable());
        }
        let _ = item.encode(out);
        self.in_flight = Some(InFlight { action_id: item.action_id, tid: item.tid });
        proof {
            assert(item_views(self.queue@) =~= item_views(queued).skip(1));
            assert(self.sent@.skip(self.taken@ as int).skip(1) =~= self.sent@.skip(
                self.taken@ as int + 1,
            ));
            self.taken = Ghost(self.taken@ + 1);
        }
        Some(item)
    }

    /// The writer says that the record of action `action_id`, which it has
    /// taken last, is written and safe. Says whether the record now counts
    /// as written: it does unless its transaction is lost.
    ///
    /// Changes nothing where the writer has not taken that record last, or
    /// has spoken of it before.
    #[verifier::rlimit(30)]
    pub fn record_written(&mut self, action_id: u64) -> (counted: bool)
        requires
            old(self).wf(),
        ensures
            final(self).wf(),
            final(self).sent() == old(self).sent(),
            final(self).ids() == old(self).ids(),
            final(self).handed_count() == old(self).handed_count(),
            final(self).lost() == old(self).lost(),
            final(self).given_up() == old(self).given_up(),
            if old(self).in_flight() == Some(action_id) {
                let record = old(self).sent()[old(self).handed_count() - 1];
                &&& final(self).in_flight() is None
                &&& counted == !old(self).lost().contains(record.tid)
                &&& final(self).counted() == old(self).counted().push(counted)
                &&& if counted {
                    &&& final(self).log() == old(self).log().push(record)
                    &&& final(self).state().stored_num == action_id
                } else {
                    &&& final(self).log() == old(self).log()
                    &&& final(self).state() == old(self).state()
                }
            } else {
                !counted && Self::same_writer(*old(self), *final(self))
            },
    {
        let taken = match self.in_flight {
            Some(taken) => taken,
            None => {
                return false;
            },
        };
        if taken.action_id != action_id {
            return false;
        }
        let ghost start = *self;
        let ghost n = self.counted@.len() as int;
        self.in_flight = None;
        if among(&self.lost_tids, taken.tid) {
            self.note_uncounted(action_id);
            proof {
                assert(self.counted@.drop_last() =~= start.counted@);
            }
            return false;
        }
        self.state.stored_num = action_id;
        self.spoken = self.spoken + 1;
        proof {
            self.counted = Ghost(self.counted@.push(true));
            assert(self.counted@.drop_last() =~= start.counted@);
            assert forall|i: int| 0 <= i < self.counted@.len() implies #[trigger] self.counted@[i]
                == !self.uncounted@.contains(self.sent@[i].action_id) by {
                if i < n {
                    assert(self.counted@[i] == start.counted@[i]);
                }
            }
            assert forall|i: int, j: int|
                0 <= i < j < self.counted@.len() && self.sent@[i].tid == self.sent@[j].tid
                    && #[trigger] self.counted@[j] implies #[trigger] self.counted@[i] by {
                if j < n {
                    assert(start.counted@[j] && start.counted@[i] == self.counted@[i]);
                } else {
                    assert(self.counted@[i] == start.counted@[i]);
                    if !start.counted@[i] {
                        assert(start.lost().contains(start.sent@[i].tid));
                    }
                }
            }
            assert forall|i: int|
                0 <= i < self.counted@.len() && !(#[trigger] self.counted@[i]) implies self.lost().contains(
                self.sent@[i].tid,
            ) by {
                assert(self.counted@[i] == start.counted@[i]);
            }
        }
        true
    }

    /// The writer says that the record of action `action_id`, which it has
    /// taken last, is lost. The record does not count as written, and its
    /// transaction is lost.
    ///
    /// Changes nothing where the writer has not taken that record last, or
    /// has spoken of it before.
    pub fn record_lost(&mut self, action_id: u64)
        requires
            old(self).wf(),
        ensures
            final(self).wf(),
            final(self).sent() == old(self).sent(),
            final(self).ids() == old(self).ids(),
            final(self).handed_count() == old(self).handed_count(),
            final(self).log() == old(self).log(),
            final(self).state() == old(self).state(),
            final(self).given_up() == old(self).given_up(),
            if old(self).in_flight() == Some(action_id) {
                &&& final(self).in_flight() is None
                &&& final(self).counted() == old(self).counted().push(false)
                &&& final(self).lost() == old(self).lost().insert(
                    old(self).sent()[old(self).handed_count() - 1].tid,
                )
            } else {
                Self::same_writer(*old(self), *final(self))
            },
    {
        let taken = match self.in_flight {
            Some(taken) => taken,
            None => {
                return ;
            },
        };
        if taken.action_id != action_id {
            return ;
        }
        let ghost start = *self;
        let ghost tids = self.lost_tids@;
        self.in_flight = None;
        self.lost_tids.push(taken.tid);
        proof {
            lemma_push_contains(tids, taken.tid);
        }
        self.note_uncounted(action_id);
        proof {
            assert(self.lost() =~= start.lost().insert(taken.tid));
            assert(self.counted@.drop_last() =~= start.counted@);
        }
    }

    /// Gives the transaction `tid` up: it is lost. Its records that wait
    /// are not written any more, so that the log does not commit it, and
    /// none of its records counts as written from now on.
    pub fn abandon(&mut self, tid: u64)
        requires
            old(self).wf(),
        ensures
            final(self).wf(),
            final(self).sent() == old(self).sent(),
            final(self).ids() == old(self).ids(),
            final(self).counted() == old(self).counted(),
            final(self).log() == old(self).log(),
            final(self).handed_count() == old(self).handed_count(),
            final(self).in_flight() == old(self).in_flight(),
            final(self).state() == old(self).state(),
            final(self).lost() == old(self).lost().insert(tid),
            final(self).given_up() == old(self).given_up().insert(tid),
    {
        let ghost tids = self.lost_tids@;
        let ghost given = self.given_up_tids@;
        self.lost_tids.push(tid);
        self.given_up_tids.push(tid);
        proof {
            lemma_push_contains(tids, tid);
            lemma_push_contains(given, tid);
            assert(self.lost() =~= old(self).lost().insert(tid));
            assert(self.given_up() =~= old(self).given_up().insert(tid));
        }
    }

    /// Whether the transaction `tid` was given up.
    pub fn is_given_up(&self, tid: u64) -> (b: bool)
        ensures
            b == self.given_up().contains(tid),
    {
        among(&self.given_up_tids, tid)
    }

    /// The action of the record that waits longest to be taken by the
    /// writer, if one waits.
    pub fn next_waiting(&self) -> (r: Option<u64>)
        requires
            self.wf(),
        ensures
            match r {
                Some(action_id) => self.handed_count() < self.sent().len()
                    && self.sent()[self.handed_count() as int].action_id == action_id,
                None => self.handed_count() == self.sent().len(),
            },
    {
        proof {
            assert(item_views(self.queue@).len() == self.queue@.len());
        }
        if self.queue.len() == 0 {
            None
        } else {
            proof {
                assert(item_views(self.queue@)[0] == self.queue@[0]@);
                assert(self.sent@.skip(self.taken@ as int)[0] == self.sent@[self.taken@ as int]);
            }
            Some(self.queue[0].action_id)
        }
    }

    /// Whether a record of action `action_id` counts as written: whether
    /// such a record was sent, the writer has said that it is written, and
    /// its transaction was not lost then.
    pub fn is_written(&self, action_id: u64) -> (b: bool)
        requires
            self.wf(),
        ensures
            b == exists|i: int|
                0 <= i < self.counted().len() && #[trigger] self.counted()[i] && self.sent()[i].action_id
                    == action_id,
    {
        if action_id < self.first_action || action_id - self.first_action >= self.spoken {
            proof {
                assert forall|i: int| 0 <= i < self.counted@.len() implies (#[trigger] self.sent@[i]).action_id
                    != action_id by {}
            }
            return false;
        }
        let ghost at = (action_id - self.first_action) as int;
        proof {
            assert(self.sent@[at].action_id == action_id);
            assert forall|i: int| 0 <= i < self.counted@.len() && i != at implies (#[trigger] self.sent@[i]).action_id
                != action_id by {}
        }
        let b = !among(&self.uncounted, action_id);
        proof {
            assert(self.counted@[at] == b);
        }
        b
    }

    /// Whether a record of action `action_id` will never count as written:
    /// whether such a record was spoken of and does not count, or was not
    /// spoken of yet and belongs to a transaction that is lost.
    pub fn is_lost(&self, action_id: u64) -> (b: bool)
        requires
            self.wf(),
        ensures
            b == exists|i: int|
                0 <= i < self.sent().len() && (#[trigger] self.sent()[i]).action_id == action_id && if i
                    < self.counted().len() {
                    !self.counted()[i]
                } else {
                    self.lost().contains(self.sent()[i].tid)
                },
    {
        if action_id < self.first_action || action_id >= self.ids.next_action_id {
            return false;
        }
        let ghost at = (action_id - self.first_action) as int;
        proof {
            assert(self.sent@[at].action_id == action_id);
            assert forall|i: int| 0 <= i < self.sent@.len() && i != at implies (#[trigger] self.sent@[i]).action_id
                != action_id by {}
            assert(item_views(self.queue@).len() == self.queue@.len());
        }
        let place = action_id - self.first_action;
        if place < self.spoken {
            let b = among(&self.uncounted, action_id);
            proof {
                assert(self.counted@[at] == !b);
            }
            return b;
        }
        let ahead: u64 = match self.in_flight {
            Some(_) => 1,
            None => 0,
        };
        if place - self.spoken < ahead {
            match self.in_flight {
                Some(taken) => {
                    return among(&self.lost_tids, taken.tid);
                },
                None => {
                    return false;
                },
            }
        }
        let behind: u64 = place - self.spoken - ahead;
        let n = self.queue.len();
        assert(behind == at - self.taken@);
        assert(behind < n);
        let k = behind as usize;
        proof {
            assert(item_views(self.queue@)[k as int] == self.queue@[k as int]@);
            assert(self.sent@.skip(self.taken@ as int)[k as int] == self.sent@[self.taken@ + k]);
        }
        among(&self.lost_tids, self.queue[k].tid)
    }
}

/// The records of the log have ascending action ids.
pub proof fn lemma_log_ascending(wal: &Wal)
    requires
        wal.wf(),
    ensures
        actions_ascending(wal.log()),
{
    lemma_written_ascending(wal.sent(), wal.counted());
}

/// Once a record counts as written, so does every record of its transaction
/// that was sent before it: with the record that commits a transaction, all
/// the records of the transaction.
pub proof fn lemma_commit_durable(wal: &Wal, commit: int, earlier: int)
    requires
        wal.wf(),
        0 <= earlier <= commit < wal.counted().len(),
        wal.sent()[earlier].tid == wal.sent()[commit].tid,
        wal.counted()[commit],
    ensures
        wal.counted()[earlier],
{
}

/// A record of a transaction that has lost nothing counts as written once
/// the writer has spoken of it, whatever became of the records of other
/// transactions.
pub proof fn lemma_loss_kept_apart(wal: &Wal, i: int)
    requires
        wal.wf(),
        0 <= i < wal.counted().len(),
        !wal.lost().contains(wal.sent()[i].tid),
    ensures
        wal.counted()[i],
{
}

} // verus!
