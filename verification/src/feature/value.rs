//! Feature values: one aggregate per time window.
use crate::custom_error::{
    common_err, decode_failed_by_insufficient_data_err, type_mismatch_message,
    value_type_not_match_err, CustomResult, DECODE_FAILED_BY_INSUFFICIENT_DATA_CODE, GENERIC_CODE,
    TYPE_MISMATCH_CODE,
};
use crate::store::wal::WalFeatureUpdateValue;
use crate::store::wire::{
    be_bytes, be_value, cursor_bytes, cursor_pos, cursor_rest, lemma_be_bytes_len,
    lemma_be_value_bound, lemma_be_value_of_bytes, lemma_pow256_values, put_u32, put_u64, put_u8,
    read_u32, read_u64, read_u8, written, Parsed,
};
use crate::tools::ordered_map::{ascending, entries_map, lemma_insert_entry, OrderedMap};
use bytes::BytesMut;
use std::io::Cursor;
use vstd::prelude::*;
use vstd::string::StringExecFns;

verus! {

/// The tag byte of an integer value.
pub const VALUE_KIND_INT: u8 = 1;

/// The tag byte of a float value.
pub const VALUE_KIND_FLOAT: u8 = 2;

/// One aggregate. A float is held by the 64 bits of its IEEE 754 form.
#[derive(Debug, Clone, Copy, PartialEq, Eq, Structural)]
pub enum ValueKind {
    Int(u64),
    Float(u64),
}

impl ValueKind {
    /// The nine bytes of a value: its tag, then its eight bytes, high byte
    /// first.
    pub open spec fn spec_encode(self) -> Seq<u8> {
        match self {
            ValueKind::Int(v) => seq![VALUE_KIND_INT] + be_bytes(v as nat, 8),
            ValueKind::Float(bits) => seq![VALUE_KIND_FLOAT] + be_bytes(bits as nat, 8),
        }
    }

    /// What the start of `s` spells.
    pub open spec fn spec_decode(s: Seq<u8>) -> Parsed<ValueKind> {
        if s.len() < 1 {
            Parsed::Short
        } else if s[0] != VALUE_KIND_INT && s[0] != VALUE_KIND_FLOAT {
            Parsed::Bad
        } else if s.len() < 9 {
            Parsed::Short
        } else if s[0] == VALUE_KIND_INT {
            Parsed::Done(ValueKind::Int(be_value(s.subrange(1, 9)) as u64), 9)
        } else {
            Parsed::Done(ValueKind::Float(be_value(s.subrange(1, 9)) as u64), 9)
        }
    }

    /// Decoding what was encoded gives the value back, whatever follows it.
    pub proof fn lemma_round_trip(self, rest: Seq<u8>)
        ensures
            self.spec_encode().len() == 9,
            Self::spec_decode(self.spec_encode() + rest) == Parsed::Done(self, 9),
    {
        let x: u64 = match self {
            ValueKind::Int(v) => v,
            ValueKind::Float(bits) => bits,
        };
        let s = self.spec_encode() + rest;
        lemma_be_bytes_len(x as nat, 8);
        lemma_pow256_values();
        lemma_be_value_of_bytes(x as nat, 8);
        assert(s.subrange(1, 9) =~= be_bytes(x as nat, 8));
    }

    /// Appends the value's bytes to `buf`.
    pub fn encode(&self, buf: &mut BytesMut) -> (r: CustomResult<()>)
        ensures
            r is Ok,
            written(*final(buf)) == written(*old(buf)) + self.spec_encode(),
    {
        match self {
            ValueKind::Int(v) => {
                put_u8(buf, VALUE_KIND_INT);
                put_u64(buf, *v);
            },
            ValueKind::Float(bits) => {
                put_u8(buf, VALUE_KIND_FLOAT);
                put_u64(buf, *bits);
            },
        }
        assert(written(*buf) =~= written(*old(buf)) + self.spec_encode());
        Ok(())
    }

    /// Reads a value at the cursor, which moves behind it.
    pub fn decode(buf: &mut Cursor<&[u8]>) -> (r: CustomResult<ValueKind>)
        ensures
            cursor_bytes(*final(buf)) == cursor_bytes(*old(buf)),
            match Self::spec_decode(cursor_rest(*old(buf))) {
                Parsed::Done(v, n) => {
                    &&& r == Ok::<ValueKind, crate::custom_error::CustomError>(v)
                    &&& cursor_pos(*final(buf)) == cursor_pos(*old(buf)) + n
                    &&& cursor_rest(*final(buf)) == cursor_rest(*old(buf)).skip(n as int)
                },
                Parsed::Short => r is Err && r->Err_0.code
                    == DECODE_FAILED_BY_INSUFFICIENT_DATA_CODE,
                Parsed::Bad => r is Err && r->Err_0.code == GENERIC_CODE,
            },
    {
        let ghost rest = cursor_rest(*buf);
        let kind_num = match read_u8(buf) {
            Some(k) => k,
            None => {
                return Err(decode_failed_by_insufficient_data_err());
            },
        };
        if kind_num != VALUE_KIND_INT && kind_num != VALUE_KIND_FLOAT {
            return Err(common_err(String::from_str("unknown kind of value")));
        }
        let v = match read_u64(buf) {
            Some(v) => v,
            None => {
                return Err(decode_failed_by_insufficient_data_err());
            },
        };
        proof {
            assert(rest.skip(1).take(8) =~= rest.subrange(1, 9));
            assert(rest.skip(1).skip(8) =~= rest.skip(9));
            lemma_be_value_bound(rest.subrange(1, 9));
            lemma_pow256_values();
        }
        if kind_num == VALUE_KIND_INT {
            Ok(ValueKind::Int(v))
        } else {
            Ok(ValueKind::Float(v))
        }
    }

    /// The number of bytes that `encode` writes.
    pub fn need_space(&self) -> (n: usize)
        ensures
            n == 9,
            n == self.spec_encode().len(),
    {
        proof {
            self.lemma_round_trip(Seq::empty());
        }
        9
    }
}

/// The start of the window of length `window_size` that holds `time`.
pub open spec fn window_start(time: u64, window_size: u64) -> u64 {
    (time - time % window_size) as u64
}

/// `a + b`, or the largest number where the sum does not fit in 64 bits.
pub open spec fn saturating_sum(a: u64, b: u64) -> u64 {
    if a + b <= u64::MAX {
        (a + b) as u64
    } else {
        u64::MAX
    }
}

/// The windows after `value` was added at `time`; they stay as they are
/// where the window holds a float.
pub open spec fn spec_add_int(
    windows: Map<u64, ValueKind>,
    time: u64,
    window_size: u64,
    value: u64,
) -> Map<u64, ValueKind> {
    let t = window_start(time, window_size);
    if !windows.contains_key(t) {
        windows.insert(t, ValueKind::Int(value))
    } else {
        match windows[t] {
            ValueKind::Int(v) => windows.insert(t, ValueKind::Int(saturating_sum(v, value))),
            ValueKind::Float(_) => windows,
        }
    }
}

/// The count that the window that starts at `t` holds, 0 where it has no
/// aggregate yet.
pub open spec fn count_at(windows: Map<u64, ValueKind>, t: u64) -> nat {
    if windows.contains_key(t) {
        match windows[t] {
            ValueKind::Int(v) => v as nat,
            ValueKind::Float(_) => 0,
        }
    } else {
        0
    }
}

/// The window that starts at `t` holds no float.
pub open spec fn counts_at(windows: Map<u64, ValueKind>, t: u64) -> bool {
    windows.contains_key(t) ==> windows[t] is Int
}

/// Two times in one window add up in that window: where the window holds no
/// float and the sum fits in 64 bits, adding `first` at `t1` and then
/// `second` at `t2` leaves what the window held and the two, added up; so
/// their sum, where the window had no aggregate yet.
pub proof fn lemma_same_window_adds_up(
    windows: Map<u64, ValueKind>,
    t1: u64,
    t2: u64,
    window_size: u64,
    first: u64,
    second: u64,
)
    requires
        window_size > 0,
        window_start(t1, window_size) == window_start(t2, window_size),
        counts_at(windows, window_start(t1, window_size)),
        count_at(windows, window_start(t1, window_size)) + first + second <= u64::MAX,
    ensures
        spec_add_int(spec_add_int(windows, t1, window_size, first), t2, window_size, second)
            == windows.insert(
            window_start(t1, window_size),
            ValueKind::Int((count_at(windows, window_start(t1, window_size)) + first + second) as u64),
        ),
{
    let t = window_start(t1, window_size);
    let base = count_at(windows, t);
    let once = spec_add_int(windows, t1, window_size, first);
    assert(once == windows.insert(t, ValueKind::Int((base + first) as u64)));
    assert(once.insert(t, ValueKind::Int((base + first + second) as u64)) =~= windows.insert(
        t,
        ValueKind::Int((base + first + second) as u64),
    ));
}

/// The first and the last millisecond of a window lie in one window: for a
/// time `t` at which a window starts, `t` and `t + window_size - 1` have the
/// window that starts at `t`.
pub proof fn lemma_window_flooring(t: u64, window_size: u64)
    requires
        window_size > 0,
        t % window_size == 0,
        t + window_size - 1 <= u64::MAX,
    ensures
        window_start(t, window_size) == t,
        window_start((t + window_size - 1) as u64, window_size) == t,
{
    assert((t + window_size - 1) % (window_size as int) == window_size - 1) by (nonlinear_arith)
        requires
            window_size > 0,
            t % window_size == 0,
    ;
}

/// Adding `first` at the start `t` of a window, and then `second` at
/// `t + window_size - 1`, changes that one window: where it holds no float
/// and the sum fits in 64 bits, it then holds what it held and the two, added
/// up; so their sum, where the window had no aggregate yet.
pub proof fn lemma_window_flooring_idempotent(
    windows: Map<u64, ValueKind>,
    t: u64,
    window_size: u64,
    first: u64,
    second: u64,
)
    requires
        window_size > 0,
        t % window_size == 0,
        t + window_size - 1 <= u64::MAX,
        counts_at(windows, t),
        count_at(windows, t) + first + second <= u64::MAX,
    ensures
        spec_add_int(
            spec_add_int(windows, t, window_size, first),
            (t + window_size - 1) as u64,
            window_size,
            second,
        ) == windows.insert(t, ValueKind::Int((count_at(windows, t) + first + second) as u64)),
        !windows.contains_key(t) ==> spec_add_int(
            spec_add_int(windows, t, window_size, first),
            (t + window_size - 1) as u64,
            window_size,
            second,
        ) == windows.insert(t, ValueKind::Int((first + second) as u64)),
{
    lemma_window_flooring(t, window_size);
    lemma_same_window_adds_up(
        windows,
        t,
        (t + window_size - 1) as u64,
        window_size,
        first,
        second,
    );
}

/// The bytes of one window: its start, then its value.
pub open spec fn window_bytes(entry: (u64, ValueKind)) -> Seq<u8> {
    be_bytes(entry.0 as nat, 8) + entry.1.spec_encode()
}

/// The bytes of the windows `es`, one after the other.
pub open spec fn windows_bytes(es: Seq<(u64, ValueKind)>) -> Seq<u8>
    decreases es.len(),
{
    if es.len() == 0 {
        Seq::empty()
    } else {
        window_bytes(es.first()) + windows_bytes(es.drop_first())
    }
}

/// What `n` windows at the start of `s` spell, put into `acc` one by one;
/// `used` counts the bytes read before `s`.
pub open spec fn decode_windows(
    s: Seq<u8>,
    n: nat,
    acc: Map<u64, ValueKind>,
    used: nat,
) -> Parsed<Map<u64, ValueKind>>
    decreases n,
{
    if n == 0 {
        Parsed::Done(acc, used)
    } else if s.len() < 8 {
        Parsed::Short
    } else {
        match ValueKind::spec_decode(s.skip(8)) {
            Parsed::Done(v, m) => decode_windows(
                s.skip(17),
                (n - 1) as nat,
                acc.insert(be_value(s.take(8)) as u64, v),
                used + 17,
            ),
            Parsed::Short => Parsed::Short,
            Parsed::Bad => Parsed::Bad,
        }
    }
}

/// What was decoded lies within the bytes.
pub proof fn lemma_decode_windows_bounds(
    s: Seq<u8>,
    n: nat,
    acc: Map<u64, ValueKind>,
    used: nat,
)
    ensures
        decode_windows(s, n, acc, used) matches Parsed::Done(_, total) ==> used <= total <= used
            + s.len(),
    decreases n,
{
    if n > 0 && s.len() >= 8 {
        match ValueKind::spec_decode(s.skip(8)) {
            Parsed::Done(v, m) => {
                lemma_decode_windows_bounds(
                    s.skip(17),
                    (n - 1) as nat,
                    acc.insert(be_value(s.take(8)) as u64, v),
                    used + 17,
                );
            },
            _ => {},
        }
    }
}

pub proof fn lemma_windows_bytes_len(es: Seq<(u64, ValueKind)>)
    ensures
        windows_bytes(es).len() == 17 * es.len(),
    decreases es.len(),
{
    if es.len() > 0 {
        lemma_windows_bytes_len(es.drop_first());
        es.first().1.lemma_round_trip(Seq::empty());
        lemma_be_bytes_len(es.first().0 as nat, 8);
    }
}

pub proof fn lemma_windows_bytes_push(es: Seq<(u64, ValueKind)>, e: (u64, ValueKind))
    ensures
        windows_bytes(es.push(e)) == windows_bytes(es) + window_bytes(e),
    decreases es.len(),
{
    if es.len() == 0 {
        assert(es.push(e).drop_first() =~= Seq::empty());
        assert(es.push(e).first() == e);
        assert(windows_bytes(es.push(e).drop_first()) =~= Seq::empty());
        assert(windows_bytes(es.push(e)) =~= windows_bytes(es) + window_bytes(e));
    } else {
        lemma_windows_bytes_push(es.drop_first(), e);
        assert(es.push(e).drop_first() =~= es.drop_first().push(e));
        assert(es.push(e).first() == es.first());
        assert(windows_bytes(es.push(e)) =~= windows_bytes(es) + window_bytes(e));
    }
}

/// Decoding the bytes of ascending windows behind ascending windows that end
/// below them gives all of them.
pub proof fn lemma_decode_windows(
    done: Seq<(u64, ValueKind)>,
    es: Seq<(u64, ValueKind)>,
    rest: Seq<u8>,
    used: nat,
)
    requires
        ascending(done + es),
    ensures
        decode_windows(windows_bytes(es) + rest, es.len(), entries_map(done), used)
            == Parsed::Done(entries_map(done + es), used + 17 * es.len()),
    decreases es.len(),
{
    if es.len() == 0 {
        assert(done + es =~= done);
    } else {
        let e = es.first();
        let tail = es.drop_first();
        let s = windows_bytes(es) + rest;
        lemma_be_bytes_len(e.0 as nat, 8);
        lemma_pow256_values();
        lemma_be_value_of_bytes(e.0 as nat, 8);
        e.1.lemma_round_trip(windows_bytes(tail) + rest);
        assert(s.take(8) =~= be_bytes(e.0 as nat, 8));
        assert(s.skip(8) =~= e.1.spec_encode() + (windows_bytes(tail) + rest));
        assert(s.skip(17) =~= windows_bytes(tail) + rest);
        let all = done + es;
        assert(done.push(e) + tail =~= all);
        assert(ascending(done)) by {
            assert forall|i: int, j: int| 0 <= i < j < done.len() implies done[i].0 < done[j].0 by {
                assert(all[i] == done[i] && all[j] == done[j]);
            }
        }
        assert(done.push(e) =~= done.insert(done.len() as int, e));
        assert forall|i: int| 0 <= i < done.len() implies done[i].0 < e.0 by {
            assert(all[i] == done[i] && all[done.len() as int] == e);
        }
        lemma_insert_entry(done, done.len() as int, e.0, e.1);
        lemma_decode_windows(done.push(e), tail, rest, used + 17);
    }
}

/// The aggregates of one feature key, by the start of their window.
#[derive(Debug)]
pub struct FeatureValue(OrderedMap<ValueKind>);

impl View for FeatureValue {
    type V = Map<u64, ValueKind>;

    closed spec fn view(&self) -> Map<u64, ValueKind> {
        self.0@
    }
}

impl FeatureValue {
    /// The windows in ascending order of their start.
    pub closed spec fn entries(&self) -> Seq<(u64, ValueKind)> {
        self.0.entries()
    }

    /// The windows are held in ascending order and spell the view.
    pub closed spec fn wf(&self) -> bool {
        self.0.wf()
    }

    pub proof fn lemma_wf(&self)
        requires
            self.wf(),
        ensures
            ascending(self.entries()),
            self@ == entries_map(self.entries()),
    {
        self.0.lemma_view();
    }

    /// Two values that hold the same windows hold them in the same order.
    pub proof fn lemma_same_windows(&self, other: &FeatureValue)
        requires
            self.wf(),
            other.wf(),
            self@ == other@,
        ensures
            self.entries() == other.entries(),
    {
        self.lemma_wf();
        other.lemma_wf();
        crate::tools::ordered_map::lemma_ascending_unique(self.entries(), other.entries());
    }

    /// The number of windows fits the four bytes that count them.
    pub open spec fn encodable(&self) -> bool {
        self.entries().len() <= u32::MAX
    }

    /// The bytes of the value: the number of windows in four bytes, then the
    /// windows in ascending order.
    pub open spec fn spec_encode(&self) -> Seq<u8> {
        be_bytes(self.entries().len(), 4) + windows_bytes(self.entries())
    }

    /// What the start of `s` spells; of two windows with one start the later
    /// stands.
    pub open spec fn spec_decode(s: Seq<u8>) -> Parsed<Map<u64, ValueKind>> {
        if s.len() < 4 {
            Parsed::Short
        } else {
            decode_windows(s.skip(4), be_value(s.take(4)), Map::empty(), 4)
        }
    }

    /// The number of bytes of the encoded value.
    pub open spec fn spec_need_space(&self) -> nat {
        4 + 17 * self.entries().len()
    }

    /// What was decoded lies within the bytes.
    pub proof fn lemma_decode_bounds(s: Seq<u8>)
        ensures
            Self::spec_decode(s) matches Parsed::Done(_, n) ==> 4 <= n <= s.len(),
    {
        if s.len() >= 4 {
            lemma_decode_windows_bounds(s.skip(4), be_value(s.take(4)), Map::empty(), 4);
        }
    }

    /// Decoding what was encoded gives the windows back, whatever follows.
    pub proof fn lemma_round_trip(&self, rest: Seq<u8>)
        requires
            self.wf(),
            self.encodable(),
        ensures
            self.spec_encode().len() == self.spec_need_space(),
            Self::spec_decode(self.spec_encode() + rest) == Parsed::Done(
                self@,
                self.spec_need_space(),
            ),
    {
        let es = self.entries();
        let s = self.spec_encode() + rest;
        self.lemma_wf();
        lemma_be_bytes_len(es.len(), 4);
        lemma_windows_bytes_len(es);
        lemma_pow256_values();
        lemma_be_value_of_bytes(es.len(), 4);
        assert(s.take(4) =~= be_bytes(es.len(), 4));
        assert(s.skip(4) =~= windows_bytes(es) + rest);
        assert(Seq::<(u64, ValueKind)>::empty() + es =~= es);
        assert(entries_map(Seq::<(u64, ValueKind)>::empty()) =~= Map::<u64, ValueKind>::empty());
        lemma_decode_windows(Seq::empty(), es, rest, 4);
    }

    /// A value without windows.
    pub fn new() -> (v: FeatureValue)
        ensures
            v.wf(),
            v@ == Map::<u64, ValueKind>::empty(),
            v.entries() == Seq::<(u64, ValueKind)>::empty(),
    {
        FeatureValue(OrderedMap::new())
    }

    /// The number of windows.
    pub fn len(&self) -> (n: usize)
        ensures
            n == self.entries().len(),
    {
        self.0.len()
    }

    /// The aggregate of the window that starts at `window`.
    pub fn get(&self, window: u64) -> (v: Option<ValueKind>)
        requires
            self.wf(),
        ensures
            v == if self@.contains_key(window) {
                Some(self@[window])
            } else {
                None::<ValueKind>
            },
    {
        match self.0.get(window) {
            Some(v) => Some(*v),
            None => None,
        }
    }

    /// Sets the aggregate of the window that starts at `window`.
    pub fn set(&mut self, window: u64, value: ValueKind)
        requires
            old(self).wf(),
        ensures
            final(self).wf(),
            final(self)@ == old(self)@.insert(window, value),
    {
        self.0.insert(window, value);
    }

    /// The start and the aggregate of the `i`-th window in ascending order.
    pub fn entry(&self, i: usize) -> (e: (u64, ValueKind))
        requires
            i < self.entries().len(),
        ensures
            e == self.entries()[i as int],
    {
        (self.0.key_at(i), *self.0.value_at(i))
    }

    /// A copy of the value.
    pub fn duplicate(&self) -> (copy: FeatureValue)
        requires
            self.wf(),
        ensures
            copy.wf(),
            copy.entries() == self.entries(),
            copy@ == self@,
    {
        let mut copy = FeatureValue::new();
        let n = self.0.len();
        let mut i: usize = 0;
        proof {
            self.lemma_wf();
        }
        while i < n
            invariant
                self.wf(),
                ascending(self.entries()),
                n == self.entries().len(),
                i <= n,
                copy.wf(),
                copy.entries() == self.entries().take(i as int),
            decreases n - i,
        {
            let (k, v) = self.entry(i);
            proof {
                let done = self.entries().take(i as int);
                assert forall|j: int| 0 <= j < done.len() implies done[j].0 < k by {
                    assert(done[j] == self.entries()[j]);
                }
                assert(done.insert(i as int, (k, v)) =~= self.entries().take(i + 1));
            }
            copy.push_last(k, v);
            i = i + 1;
        }
        proof {
            assert(self.entries().take(n as int) =~= self.entries());
            copy.lemma_wf();
        }
        copy
    }

    /// Puts in a window that starts behind all the others.
    fn push_last(&mut self, window: u64, value: ValueKind)
        requires
            old(self).wf(),
            forall|j: int| 0 <= j < old(self).entries().len() ==> old(self).entries()[j].0 < window,
        ensures
            final(self).wf(),
            final(self).entries() == old(self).entries().insert(
                old(self).entries().len() as int,
                (window, value),
            ),
            final(self)@ == old(self)@.insert(window, value),
    {
        let ghost before = self.entries();
        let r = self.0.insert(window, value);
        proof {
            old(self).0.lemma_view();
            lemma_insert_entry(before, before.len() as int, window, value);
            assert(r is None);
            let p = choose|p: int|
                0 <= p <= before.len() && self.entries() == before.insert(p, (window, value));
            if p < before.len() {
                assert(self.entries()[p + 1] == before[p]);
                assert(self.entries()[p].0 < self.entries()[p + 1].0);
            }
        }
    }

    /// Adds `value` to the aggregate of the window that holds `time`.
    ///
    /// A window that has no aggregate yet gets `value`. A sum that does not
    /// fit in 64 bits is held at the largest number. Where the window holds
    /// a float, nothing changes and the error says that the type does not
    /// match. The record names what to undo and what to redo.
    pub fn add_int(&mut self, pk: &String, time: u64, window_size: u64, value: u64) -> (r:
        CustomResult<WalFeatureUpdateValue>)
        requires
            old(self).wf(),
            window_size > 0,
        ensures
            final(self).wf(),
            final(self)@ == spec_add_int(old(self)@, time, window_size, value),
            match r {
                Ok(record) => {
                    &&& record.fk@ == pk@
                    &&& record.tk == window_start(time, window_size)
                    &&& record.undo_v == if old(self)@.contains_key(record.tk) {
                        Some(old(self)@[record.tk])
                    } else {
                        None::<ValueKind>
                    }
                    &&& !(record.undo_v matches Some(ValueKind::Float(_)))
                    &&& final(self)@.contains_key(record.tk)
                    &&& record.redo_v == final(self)@[record.tk]
                },
                Err(e) => {
                    &&& e.code == TYPE_MISMATCH_CODE
                    &&& e.message@ == type_mismatch_message(pk@)
                    &&& old(self)@.contains_key(window_start(time, window_size))
                    &&& old(self)@[window_start(time, window_size)] is Float
                },
            },
    {
        assert(time % window_size <= time) by (nonlinear_arith)
            requires
                window_size > 0,
        ;
        let t: u64 = time - time % window_size;
        match self.get(t) {
            None => {
                let new_value = ValueKind::Int(value);
                self.set(t, new_value);
                Ok(WalFeatureUpdateValue { fk: pk.clone(), tk: t, undo_v: None, redo_v: new_value })
            },
            Some(ValueKind::Int(v)) => {
                let sum: u64 = match v.checked_add(value) {
                    Some(s) => s,
                    None => u64::MAX,
                };
                let new_value = ValueKind::Int(sum);
                self.set(t, new_value);
                Ok(
                    WalFeatureUpdateValue {
                        fk: pk.clone(),
                        tk: t,
                        undo_v: Some(ValueKind::Int(v)),
                        redo_v: new_value,
                    },
                )
            },
            Some(ValueKind::Float(_)) => Err(value_type_not_match_err(pk.as_str())),
        }
    }

    /// The number of bytes that `encode` writes, held at the largest `usize`
    /// where it does not fit.
    pub fn need_space(&self) -> (n: usize)
        ensures
            n == if self.spec_need_space() <= usize::MAX {
                self.spec_need_space()
            } else {
                usize::MAX as nat
            },
    {
        match self.0.len().checked_mul(17) {
            Some(m) => match m.checked_add(4) {
                Some(n) => n,
                None => usize::MAX,
            },
            None => usize::MAX,
        }
    }

    /// Appends the value's bytes to `buf`; fails, and writes nothing, where
    /// the windows are too many to count in four bytes.
    pub fn encode(&self, buf: &mut BytesMut) -> (r: CustomResult<()>)
        requires
            self.wf(),
        ensures
            match r {
                Ok(_) => self.encodable() && written(*final(buf)) == written(*old(buf))
                    + self.spec_encode(),
                Err(e) => !self.encodable() && e.code == GENERIC_CODE && written(*final(buf))
                    == written(*old(buf)),
            },
    {
        let n = self.0.len();
        if n > u32::MAX as usize {
            return Err(common_err(String::from_str("too many windows to encode")));
        }
        put_u32(buf, n as u32);
        let mut i: usize = 0;
        while i < n
            invariant
                n == self.entries().len(),
                i <= n,
                written(*buf) == written(*old(buf)) + be_bytes(n as nat, 4) + windows_bytes(
                    self.entries().take(i as int),
                ),
            decreases n - i,
        {
            let (k, v) = self.entry(i);
            let ghost mid = written(*buf);
            put_u64(buf, k);
            let _ = v.encode(buf);
            proof {
                lemma_windows_bytes_push(self.entries().take(i as int), (k, v));
                assert(self.entries().take(i as int).push((k, v)) =~= self.entries().take(i + 1));
                assert(written(*buf) =~= mid + window_bytes((k, v)));
            }
            i = i + 1;
        }
        proof {
            assert(self.entries().take(n as int) =~= self.entries());
        }
        Ok(())
    }

    /// Reads a value at the cursor, which moves behind it.
    pub fn decode(buf: &mut Cursor<&[u8]>) -> (r: CustomResult<FeatureValue>)
        ensures
            cursor_bytes(*final(buf)) == cursor_bytes(*old(buf)),
            match Self::spec_decode(cursor_rest(*old(buf))) {
                Parsed::Done(windows, n) => {
                    &&& r matches Ok(v)
                    &&& v.wf()
                    &&& v@ == windows
                    &&& cursor_pos(*final(buf)) == cursor_pos(*old(buf)) + n
                    &&& cursor_rest(*final(buf)) == cursor_rest(*old(buf)).skip(n as int)
                },
                Parsed::Short => r is Err && r->Err_0.code
                    == DECODE_FAILED_BY_INSUFFICIENT_DATA_CODE,
                Parsed::Bad => r is Err && r->Err_0.code == GENERIC_CODE,
            },
    {
        let ghost rest = cursor_rest(*buf);
        let len = match read_u32(buf) {
            Some(n) => n,
            None => {
                return Err(decode_failed_by_insufficient_data_err());
            },
        };
        let mut tree = FeatureValue::new();
        let mut i: u32 = 0;
        let ghost mut used: nat = 4;
        while i < len
            invariant
                i <= len,
                tree.wf(),
                rest == cursor_rest(*old(buf)),
                cursor_bytes(*buf) == cursor_bytes(*old(buf)),
                cursor_pos(*buf) == cursor_pos(*old(buf)) + used,
                cursor_rest(*buf) == rest.skip(used as int),
                used <= rest.len(),
                Self::spec_decode(rest) == decode_windows(
                    cursor_rest(*buf),
                    (len - i) as nat,
                    tree@,
                    used,
                ),
            decreases len - i,
        {
            let ghost here = cursor_rest(*buf);
            let ghost left = (len - i) as nat;
            let ghost acc = tree@;
            let key = match read_u64(buf) {
                Some(k) => k,
                None => {
                    assert(decode_windows(here, left, acc, used) == Parsed::<
                        Map<u64, ValueKind>,
                    >::Short);
                    return Err(decode_failed_by_insufficient_data_err());
                },
            };
            let v = match ValueKind::decode(buf) {
                Ok(v) => v,
                Err(e) => {
                    assert(!(ValueKind::spec_decode(here.skip(8)) is Done));
                    assert(decode_windows(here, left, acc, used) is Short || decode_windows(
                        here,
                        left,
                        acc,
                        used,
                    ) is Bad);
                    return Err(e);
                },
            };
            proof {
                lemma_be_value_bound(here.take(8));
                lemma_pow256_values();
                assert(here.skip(8).skip(9) =~= here.skip(17));
                assert(rest.skip(used as int).skip(17) =~= rest.skip(used as int + 17));
                used = used + 17;
            }
            tree.set(key, v);
            i = i + 1;
        }
        Ok(tree)
    }
}

} // verus!
