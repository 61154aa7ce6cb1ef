//! Pages: the feature values of the keys whose hash lies in one range.
use crate::calc_hash;
use crate::custom_error::{
    common_err, decode_failed_by_insufficient_data_err, type_mismatch_message, CustomResult,
    DECODE_FAILED_BY_INSUFFICIENT_DATA_CODE, GENERIC_CODE, TYPE_MISMATCH_CODE,
};
use crate::store::wire::{
    be_bytes, be_value, cursor_bytes, cursor_pos, cursor_rest, lemma_be_bytes_len,
    lemma_be_value_bound, lemma_be_value_of_bytes, lemma_pow256_values, put_slice, put_u16,
    put_u64, read_bytes, read_u16, read_u64, remaining, written, Parsed,
};
use crate::tools::text::{lemma_string_bytes, string_of_bytes};
use bytes::BytesMut;
use std::io::Cursor;
use vstd::utf8::{decode_utf8, encode_utf8, valid_utf8};
use crate::feature::value::{spec_add_int, window_start, FeatureValue, ValueKind};
use crate::spec_calc_hash;
use crate::store::wal::WalFeatureUpdateValue;
use crate::store::{Dirty, DirtyRecord};
use crate::tools::ordered_map::Place;
use crate::tools::pairs::{
    distinct_keys, lemma_insert_pair, lemma_key_not_in_map, lemma_no_pairs, lemma_pair_in_map,
    lemma_update_pair, pairs_map,
};
use crate::tools::text::{
    compare_keys, key_less, lemma_key_less_differ, lemma_key_less_transitive, KeyOrder,
};
use vstd::prelude::*;
use vstd::string::StringExecFns;

verus! {

/// The keys and windows that entries hold, as sequences and maps.
pub open spec fn entry_views(es: Seq<(String, FeatureValue)>) -> Seq<
    (Seq<char>, Map<u64, ValueKind>),
> {
    Seq::new(es.len(), |i: int| (es[i].0@, es[i].1@))
}

/// The keys ascend strictly along `s`, in the order of strings.
pub open spec fn keys_ascending<V>(s: Seq<(Seq<char>, V)>) -> bool {
    forall|i: int, j: int| 0 <= i < j < s.len() ==> key_less(s[i].0, s[j].0)
}

/// Keys that ascend are distinct.
pub proof fn lemma_keys_distinct<V>(s: Seq<(Seq<char>, V)>)
    requires
        keys_ascending(s),
    ensures
        distinct_keys(s),
{
    assert forall|i: int, j: int| 0 <= i < j < s.len() implies s[i].0 != s[j].0 by {
        lemma_key_less_differ(s[i].0, s[j].0);
    }
}

/// An entry put in at its place keeps the keys ascending.
pub proof fn lemma_keys_insert<V>(s: Seq<(Seq<char>, V)>, p: int, k: Seq<char>, v: V)
    requires
        keys_ascending(s),
        0 <= p <= s.len(),
        forall|i: int| 0 <= i < p ==> key_less(s[i].0, k),
        forall|i: int| p <= i < s.len() ==> key_less(k, s[i].0),
    ensures
        keys_ascending(s.insert(p, (k, v))),
        forall|i: int| 0 <= i < s.len() ==> s[i].0 != k,
{
    let t = s.insert(p, (k, v));
    assert forall|i: int, j: int| 0 <= i < j < t.len() implies key_less(t[i].0, t[j].0) by {
        let a = if i < p { i } else { i - 1 };
        let b = if j < p { j } else { j - 1 };
        if i != p && j != p {
            assert(t[i] == s[a] && t[j] == s[b]);
        } else if i == p {
            assert(t[j] == s[b]);
        } else {
            assert(t[i] == s[a]);
        }
    }
    assert forall|i: int| 0 <= i < s.len() implies s[i].0 != k by {
        if i < p {
            lemma_key_less_differ(s[i].0, k);
        } else {
            lemma_key_less_differ(k, s[i].0);
        }
    }
}

/// The bytes of one entry: the key with its length in two bytes before it,
/// then the value.
pub open spec fn entry_bytes(e: (String, FeatureValue)) -> Seq<u8> {
    be_bytes(encode_utf8(e.0@).len(), 2) + encode_utf8(e.0@) + e.1.spec_encode()
}

/// The number of bytes of one entry.
pub open spec fn entry_space(e: (String, FeatureValue)) -> nat {
    2 + encode_utf8(e.0@).len() + e.1.spec_need_space()
}

/// The key's bytes and the value's windows are few enough to be counted in
/// the bytes that count them.
pub open spec fn entry_encodable(e: (String, FeatureValue)) -> bool {
    encode_utf8(e.0@).len() <= u16::MAX && e.1.encodable()
}

/// The bytes of the entries `es`, one after the other.
pub open spec fn entries_bytes(es: Seq<(String, FeatureValue)>) -> Seq<u8>
    decreases es.len(),
{
    if es.len() == 0 {
        Seq::empty()
    } else {
        entry_bytes(es.first()) + entries_bytes(es.drop_first())
    }
}

/// The number of bytes of the entries `es`.
pub open spec fn entries_space(es: Seq<(String, FeatureValue)>) -> nat
    decreases es.len(),
{
    if es.len() == 0 {
        0
    } else {
        entry_space(es.first()) + entries_space(es.drop_first())
    }
}

/// What the entries that fill `s` spell, put into `acc` one by one; `used`
/// counts the bytes read before `s`. An entry whose key has its hash outside
/// the range from `min_pk` to below `max_pk` is bad.
pub open spec fn decode_entries(
    s: Seq<u8>,
    acc: Map<Seq<char>, Map<u64, ValueKind>>,
    used: nat,
    min_pk: u64,
    max_pk: u64,
) -> Parsed<Map<Seq<char>, Map<u64, ValueKind>>>
    decreases s.len(),
{
    let n = be_value(s.take(2));
    let s1 = s.skip(2);
    let s2 = s1.skip(n as int);
    if s.len() == 0 {
        Parsed::Done(acc, used)
    } else if s.len() < 2 {
        Parsed::Short
    } else if s1.len() < n {
        Parsed::Short
    } else if !valid_utf8(s1.take(n as int)) {
        Parsed::Bad
    } else {
        let key = decode_utf8(s1.take(n as int));
        match FeatureValue::spec_decode(s2) {
            Parsed::Done(windows, m) => if m > s2.len() || !(min_pk <= spec_calc_hash(key)
                < max_pk) {
                Parsed::Bad
            } else {
                decode_entries(s2.skip(m as int), acc.insert(key, windows), used + 2 + n + m, min_pk, max_pk)
            },
            Parsed::Short => Parsed::Short,
            Parsed::Bad => Parsed::Bad,
        }
    }
}

pub proof fn lemma_entries_push(es: Seq<(String, FeatureValue)>, e: (String, FeatureValue))
    ensures
        entries_bytes(es.push(e)) == entries_bytes(es) + entry_bytes(e),
        entries_space(es.push(e)) == entries_space(es) + entry_space(e),
    decreases es.len(),
{
    if es.len() == 0 {
        assert(es.push(e).drop_first() =~= Seq::empty());
        assert(es.push(e).first() == e);
        assert(entries_bytes(es.push(e).drop_first()) =~= Seq::empty());
        assert(entries_space(es.push(e).drop_first()) == 0);
        assert(entries_bytes(es.push(e)) =~= entries_bytes(es) + entry_bytes(e));
    } else {
        lemma_entries_push(es.drop_first(), e);
        assert(es.push(e).drop_first() =~= es.drop_first().push(e));
        assert(es.push(e).first() == es.first());
        assert(entries_bytes(es.push(e)) =~= entries_bytes(es) + entry_bytes(e));
    }
}

/// The entries before index `i` take no more bytes than all of them.
pub proof fn lemma_entries_space_take(es: Seq<(String, FeatureValue)>, i: int)
    requires
        0 <= i <= es.len(),
    ensures
        entries_space(es.take(i)) <= entries_space(es),
    decreases es.len() - i,
{
    if i < es.len() {
        lemma_entries_space_take(es, i + 1);
        lemma_entries_push(es.take(i), es[i]);
        assert(es.take(i).push(es[i]) =~= es.take(i + 1));
    } else {
        assert(es.take(i) =~= es);
    }
}

/// Decoding the bytes of one entry puts it into the map and goes on behind
/// it.
pub proof fn lemma_decode_entry(
    e: (String, FeatureValue),
    tail: Seq<u8>,
    acc: Map<Seq<char>, Map<u64, ValueKind>>,
    used: nat,
    min_pk: u64,
    max_pk: u64,
)
    requires
        e.1.wf(),
        entry_encodable(e),
        min_pk <= spec_calc_hash(e.0@) < max_pk,
    ensures
        entry_bytes(e).len() == entry_space(e),
        decode_entries(entry_bytes(e) + tail, acc, used, min_pk, max_pk) == decode_entries(
            tail,
            acc.insert(e.0@, e.1@),
            used + entry_space(e),
            min_pk,
            max_pk,
        ),
{
    let s = entry_bytes(e) + tail;
    let kb = encode_utf8(e.0@);
    let n = kb.len();
    let vb = e.1.spec_encode();
    lemma_pow256_values();
    lemma_be_bytes_len(n, 2);
    lemma_be_value_of_bytes(n, 2);
    lemma_string_bytes(e.0@);
    e.1.lemma_round_trip(tail);
    assert(s.take(2) =~= be_bytes(n, 2));
    let s1 = s.skip(2);
    assert(s1 =~= kb + (vb + tail));
    assert(s1.take(n as int) =~= kb);
    let s2 = s1.skip(n as int);
    assert(s2 =~= vb + tail);
    let m = e.1.spec_need_space();
    assert(s2.skip(m as int) =~= tail);
    assert(FeatureValue::spec_decode(s2) == Parsed::Done(e.1@, m));
}

/// Decoding the bytes of entries whose keys ascend, behind entries that end
/// before them, gives all of them.
pub proof fn lemma_decode_entries(
    done: Seq<(String, FeatureValue)>,
    es: Seq<(String, FeatureValue)>,
    used: nat,
    min_pk: u64,
    max_pk: u64,
)
    requires
        keys_ascending(entry_views(done + es)),
        forall|i: int|
            0 <= i < es.len() ==> {
                &&& (#[trigger] es[i]).1.wf()
                &&& entry_encodable(es[i])
                &&& min_pk <= spec_calc_hash(es[i].0@) < max_pk
            },
    ensures
        entries_bytes(es).len() == entries_space(es),
        decode_entries(entries_bytes(es), pairs_map(entry_views(done)), used, min_pk, max_pk)
            == Parsed::Done(pairs_map(entry_views(done + es)), used + entries_space(es)),
    decreases es.len(),
{
    if es.len() == 0 {
        assert(done + es =~= done);
    } else {
        let e = es.first();
        let tail = es.drop_first();
        assert(e == es[0]);
        let all = done + es;
        let views = entry_views(done);
        lemma_decode_entry(e, entries_bytes(tail), pairs_map(views), used, min_pk, max_pk);
        assert(done.push(e) + tail =~= all);
        assert(entry_views(done.push(e)) =~= views.insert(views.len() as int, (e.0@, e.1@)));
        assert(keys_ascending(views)) by {
            assert forall|i: int, j: int| 0 <= i < j < views.len() implies key_less(
                views[i].0,
                views[j].0,
            ) by {
                assert(entry_views(all)[i].0 == views[i].0 && entry_views(all)[j].0 == views[j].0);
            }
        }
        assert forall|i: int| 0 <= i < views.len() implies key_less(views[i].0, e.0@) by {
            assert(entry_views(all)[i].0 == views[i].0);
            assert(entry_views(all)[done.len() as int].0 == e.0@);
        }
        lemma_keys_insert(views, views.len() as int, e.0@, e.1@);
        lemma_keys_distinct(views);
        lemma_insert_pair(views, views.len() as int, e.0@, e.1@);
        assert forall|i: int| 0 <= i < tail.len() implies {
            &&& (#[trigger] tail[i]).1.wf()
            &&& entry_encodable(tail[i])
            &&& min_pk <= spec_calc_hash(tail[i].0@) < max_pk
        } by {
            assert(tail[i] == es[i + 1]);
        }
        lemma_decode_entries(done.push(e), tail, used + entry_space(e), min_pk, max_pk);
    }
}

/// A page as its numbers and the map that it holds.
pub struct PageView {
    pub slot_id: u16,
    pub id: u64,
    pub min_pk: u64,
    pub max_pk: u64,
    pub data: Map<Seq<char>, Map<u64, ValueKind>>,
}

/// The feature values of the keys whose hash is at least `min_pk` and below
/// `max_pk`, in the order of the keys.
#[derive(Debug)]
pub struct Page {
    slot_id: u16,
    id: u64,
    data: Vec<(String, FeatureValue)>,
    min_pk: u64,
    max_pk: u64,
    /// The changes that no file holds yet.
    dirty: Dirty,
}

impl View for Page {
    type V = PageView;

    closed spec fn view(&self) -> PageView {
        PageView {
            slot_id: self.slot_id,
            id: self.id,
            min_pk: self.min_pk,
            max_pk: self.max_pk,
            data: pairs_map(entry_views(self.data@)),
        }
    }
}

/// What the error says where the hash of a key lies outside the range of
/// the page that is to take it.
pub open spec fn outside_range_message() -> Seq<char> {
    "the key's hash lies outside the page"@
}

impl Page {
    /// The keys and their values, in the order in which they are held.
    pub closed spec fn entries(&self) -> Seq<(String, FeatureValue)> {
        self.data@
    }

    /// The changes that no file holds yet, none where the page is clean.
    pub closed spec fn dirty_mark(&self) -> Option<DirtyRecord> {
        self.dirty@
    }

    /// Whether the page's range holds the hash of `key`.
    pub open spec fn holds_hash(&self, key: Seq<char>) -> bool {
        self@.min_pk <= spec_calc_hash(key) < self@.max_pk
    }

    /// The keys ascend, each value is well formed, and the hash of each key
    /// lies in the page's range.
    pub open spec fn wf(&self) -> bool {
        &&& keys_ascending(entry_views(self.entries()))
        &&& forall|i: int| 0 <= i < self.entries().len() ==> (#[trigger] self.entries()[i]).1.wf()
        &&& forall|i: int|
            0 <= i < self.entries().len() ==> self.holds_hash((#[trigger] self.entries()[i]).0@)
    }

    /// A page with the view and the entries of a well-formed page is well
    /// formed.
    pub proof fn lemma_same_entries_wf(&self, other: &Page)
        requires
            other.wf(),
            self@ == other@,
            self.entries() == other.entries(),
        ensures
            self.wf(),
    {
        assert forall|i: int| 0 <= i < self.entries().len() implies (#[trigger] self.entries()[i]).1.wf()
            && self.holds_hash(self.entries()[i].0@) by {
            assert(other.entries()[i].1.wf());
            assert(other.holds_hash(other.entries()[i].0@));
        }
    }

    /// The map of the view is the one that the entries spell.
    pub proof fn lemma_view(&self)
        ensures
            self@.data == pairs_map(entry_views(self.entries())),
    {
    }

    pub fn slot_id(&self) -> (slot_id: u16)
        ensures
            slot_id == self@.slot_id,
    {
        self.slot_id
    }

    pub fn id(&self) -> (id: u64)
        ensures
            id == self@.id,
    {
        self.id
    }

    /// The lowest hash of the page's range.
    pub fn min_pk(&self) -> (min_pk: u64)
        ensures
            min_pk == self@.min_pk,
    {
        self.min_pk
    }

    /// The hash behind the page's range.
    pub fn max_pk(&self) -> (max_pk: u64)
        ensures
            max_pk == self@.max_pk,
    {
        self.max_pk
    }

    /// The changes that no file holds yet, none where the page is clean.
    pub fn dirty(&self) -> (record: Option<DirtyRecord>)
        ensures
            record == self.dirty_mark(),
    {
        self.dirty.record()
    }

    /// Notes that a file holds the page as it is.
    pub fn reset_dirty(&mut self)
        ensures
            final(self)@ == old(self)@,
            final(self).entries() == old(self).entries(),
            final(self).dirty_mark() is None,
    {
        self.dirty.reset();
    }

    /// Every key of a well-formed page has its hash in the page's range.
    pub proof fn lemma_hash_containment(&self, key: Seq<char>)
        requires
            self.wf(),
            self@.data.contains_key(key),
        ensures
            self@.min_pk <= spec_calc_hash(key) < self@.max_pk,
    {
        let views = entry_views(self.entries());
        let i = crate::tools::pairs::index_of(views, key);
        assert(views[i].0 == key);
        assert(self.holds_hash(self.entries()[i].0@));
    }

    /// An empty, clean page.
    pub fn new(slot_id: u16, id: u64, min_pk: u64, max_pk: u64) -> (page: Page)
        ensures
            page.wf(),
            page@ == (PageView { slot_id, id, min_pk, max_pk, data: Map::empty() }),
            page.entries() == Seq::<(String, FeatureValue)>::empty(),
            page.dirty_mark() is None,
    {
        let page = Page { slot_id, id, data: Vec::new(), min_pk, max_pk, dirty: Dirty::new() };
        proof {
            lemma_no_pairs::<Seq<char>, Map<u64, ValueKind>>();
            assert(entry_views(page.data@) =~= Seq::empty());
        }
        page
    }

    /// The number of keys.
    pub fn len(&self) -> (n: usize)
        ensures
            n == self.entries().len(),
    {
        self.data.len()
    }

    /// The `i`-th key in the order of the keys.
    pub fn key_at(&self, i: usize) -> (key: &String)
        requires
            i < self.entries().len(),
        ensures
            *key == self.entries()[i as int].0,
    {
        &self.data[i].0
    }

    /// The value of the `i`-th key in the order of the keys.
    pub fn value_at(&self, i: usize) -> (value: &FeatureValue)
        requires
            i < self.entries().len(),
        ensures
            *value == self.entries()[i as int].1,
    {
        &self.data[i].1
    }

    /// Looks for `key` by bisection.
    pub fn find(&self, key: &str) -> (place: Place)
        requires
            keys_ascending(entry_views(self.entries())),
        ensures
            match place {
                Place::At(i) => i < self.entries().len() && self.entries()[i as int].0@ == key@,
                Place::Before(p) => {
                    &&& p <= self.entries().len()
                    &&& forall|i: int| 0 <= i < p ==> key_less(self.entries()[i].0@, key@)
                    &&& forall|i: int|
                        p <= i < self.entries().len() ==> key_less(key@, self.entries()[i].0@)
                },
            },
    {
        let ghost views = entry_views(self.entries());
        let mut lo: usize = 0;
        let mut hi: usize = self.data.len();
        while lo < hi
            invariant
                views == entry_views(self.entries()),
                keys_ascending(views),
                lo <= hi <= self.data.len(),
                forall|i: int| 0 <= i < lo ==> key_less(self.entries()[i].0@, key@),
                forall|i: int| hi <= i < self.entries().len() ==> key_less(key@, self.entries()[i].0@),
            decreases hi - lo,
        {
            let mid: usize = lo + (hi - lo) / 2;
            match compare_keys(self.data[mid].0.as_str(), key) {
                KeyOrder::Same => {
                    return Place::At(mid);
                },
                KeyOrder::Before => {
                    assert forall|i: int| 0 <= i < mid + 1 implies key_less(
                        self.entries()[i].0@,
                        key@,
                    ) by {
                        if i < mid {
                            assert(key_less(views[i].0, views[mid as int].0));
                            lemma_key_less_transitive(views[i].0, views[mid as int].0, key@);
                        }
                    }
                    lo = mid + 1;
                },
                KeyOrder::After => {
                    assert forall|i: int| mid <= i < self.entries().len() implies key_less(
                        key@,
                        self.entries()[i].0@,
                    ) by {
                        if mid < i {
                            assert(key_less(views[mid as int].0, views[i].0));
                            lemma_key_less_transitive(key@, views[mid as int].0, views[i].0);
                        }
                    }
                    hi = mid;
                },
            }
        }
        Place::Before(lo)
    }

    /// The value of `key`.
    pub fn get(&self, key: &String) -> (found: Option<&FeatureValue>)
        requires
            self.wf(),
        ensures
            match found {
                Some(value) => self@.data.contains_key(key@) && value@ == self@.data[key@]
                    && value.wf(),
                None => !self@.data.contains_key(key@),
            },
    {
        let ghost views = entry_views(self.entries());
        proof {
            lemma_keys_distinct(views);
        }
        match self.find(key.as_str()) {
            Place::At(i) => {
                proof {
                    lemma_pair_in_map(views, i as int);
                    assert(self.entries()[i as int].1.wf());
                }
                Some(&self.data[i].1)
            },
            Place::Before(p) => {
                proof {
                    assert forall|i: int| 0 <= i < views.len() implies views[i].0 != key@ by {
                        if i < p {
                            lemma_key_less_differ(views[i].0, key@);
                        } else {
                            lemma_key_less_differ(key@, views[i].0);
                        }
                    }
                    lemma_key_not_in_map(views, key@);
                }
                None
            },
        }
    }

    /// Whether the page's range holds the hash `key_hash`.
    pub fn covers(&self, key_hash: u64) -> (b: bool)
        ensures
            b == (self@.min_pk <= key_hash < self@.max_pk),
    {
        self.min_pk <= key_hash && key_hash < self.max_pk
    }

    /// Binds `key` to `value`. Fails, and changes nothing, where the hash of
    /// `key` lies outside the page's range.
    #[verifier::rlimit(30)]
    pub fn put(&mut self, key: String, value: FeatureValue) -> (r: CustomResult<()>)
        requires
            old(self).wf(),
            value.wf(),
        ensures
            final(self).wf(),
            final(self).dirty_mark() == old(self).dirty_mark(),
            match r {
                Ok(_) => {
                    &&& old(self).holds_hash(key@)
                    &&& final(self)@ == (PageView {
                        data: old(self)@.data.insert(key@, value@),
                        ..old(self)@
                    })
                },
                Err(e) => {
                    &&& !old(self).holds_hash(key@)
                    &&& e.code == GENERIC_CODE
                    &&& e.message@ == outside_range_message()
                    &&& final(self)@ == old(self)@
                    &&& final(self).entries() == old(self).entries()
                },
            },
    {
        if !self.covers(calc_hash(&key)) {
            return Err(common_err(String::from_str("the key's hash lies outside the page")));
        }
        let ghost before = self.entries();
        let ghost views = entry_views(before);
        proof {
            lemma_keys_distinct(views);
        }
        match self.find(key.as_str()) {
            Place::At(i) => {
                let mut held = value;
                core::mem::swap(&mut self.data[i].1, &mut held);
                proof {
                    let after = entry_views(self.entries());
                    assert(after =~= views.update(i as int, (views[i as int].0, value@)));
                    lemma_update_pair(views, i as int, value@);
                    assert forall|a: int, b: int| 0 <= a < b < after.len() implies key_less(
                        after[a].0,
                        after[b].0,
                    ) by {
                        assert(after[a].0 == views[a].0 && after[b].0 == views[b].0);
                    }
                    assert forall|a: int| 0 <= a < self.entries().len() implies (
                    #[trigger] self.entries()[a]).1.wf() && self.holds_hash(self.entries()[a].0@) by {
                        if a != i {
                            assert(self.entries()[a] == before[a]);
                        } else {
                            assert(self.entries()[a].0 == before[a].0);
                        }
                    }
                }
            },
            Place::Before(p) => {
                let ghost k = key@;
                self.data.insert(p, (key, value));
                proof {
                    let after = entry_views(self.entries());
                    assert(after =~= views.insert(p as int, (k, value@)));
                    lemma_keys_insert(views, p as int, k, value@);
                    lemma_insert_pair(views, p as int, k, value@);
                    assert forall|a: int| 0 <= a < self.entries().len() implies (
                    #[trigger] self.entries()[a]).1.wf() && self.holds_hash(self.entries()[a].0@) by {
                        if a < p {
                            assert(self.entries()[a] == before[a]);
                        } else if a > p {
                            assert(self.entries()[a] == before[a - 1]);
                        }
                    }
                }
            },
        }
        Ok(())
    }

    /// The windows of `key`, none where the page does not hold it.
    pub open spec fn windows_of(data: Map<Seq<char>, Map<u64, ValueKind>>, key: Seq<char>) -> Map<
        u64,
        ValueKind,
    > {
        if data.contains_key(key) {
            data[key]
        } else {
            Map::empty()
        }
    }

    /// Whether the page `after` and the result `r` are what adding `value`
    /// at `time` for `key` makes of the page `before`.
    pub open spec fn int_added(
        before: PageView,
        after: PageView,
        key: Seq<char>,
        time: u64,
        window_size: u64,
        value: u64,
        r: CustomResult<WalFeatureUpdateValue>,
    ) -> bool {
        let windows = Self::windows_of(before.data, key);
        let t = window_start(time, window_size);
        let in_range = before.min_pk <= spec_calc_hash(key) < before.max_pk;
        match r {
            Ok(record) => {
                let added = spec_add_int(windows, time, window_size, value);
                &&& after == (PageView { data: before.data.insert(key, added), ..before })
                &&& in_range
                &&& !(windows.contains_key(t) && windows[t] is Float)
                &&& record@ == (crate::store::wal::FeatureUpdateView {
                    fk: key,
                    tk: t,
                    undo_v: if windows.contains_key(t) {
                        Some(windows[t])
                    } else {
                        None::<ValueKind>
                    },
                    redo_v: added[t],
                })
                &&& added.contains_key(t)
            },
            Err(e) => {
                &&& after == before
                &&& if before.data.contains_key(key) {
                    &&& e.code == TYPE_MISMATCH_CODE
                    &&& e.message@ == type_mismatch_message(key)
                    &&& windows.contains_key(t)
                    &&& windows[t] is Float
                } else {
                    &&& e.code == GENERIC_CODE
                    &&& e.message@ == outside_range_message()
                    &&& !in_range
                }
            },
        }
    }

    /// Adds `value` to the aggregate that `key` has in the window that holds
    /// `time`; a key that the page does not hold yet is put in.
    ///
    /// Fails, and changes nothing, where the window holds a float (the type
    /// does not match) or where the key is new and its hash lies outside the
    /// page's range (a generic error).
    #[verifier::rlimit(30)]
    pub fn add_int(&mut self, key: &String, time: u64, window_size: u64, value: u64) -> (r:
        CustomResult<WalFeatureUpdateValue>)
        requires
            old(self).wf(),
            window_size > 0,
        ensures
            final(self).wf(),
            final(self).dirty_mark() == old(self).dirty_mark(),
            Self::int_added(old(self)@, final(self)@, key@, time, window_size, value, r),
    {
        let ghost before = self.entries();
        let ghost views = entry_views(before);
        proof {
            lemma_keys_distinct(views);
        }
        match self.find(key.as_str()) {
            Place::At(i) => {
                proof {
                    lemma_pair_in_map(views, i as int);
                    assert(before[i as int].1.wf());
                    assert(self.holds_hash(before[i as int].0@));
                }
                let r = self.data[i].1.add_int(key, time, window_size, value);
                proof {
                    let now = self.entries()[i as int].1@;
                    let after = entry_views(self.entries());
                    assert(after =~= views.update(i as int, (views[i as int].0, now)));
                    lemma_update_pair(views, i as int, now);
                    assert forall|a: int, b: int| 0 <= a < b < after.len() implies key_less(
                        after[a].0,
                        after[b].0,
                    ) by {
                        assert(after[a].0 == views[a].0 && after[b].0 == views[b].0);
                    }
                    assert forall|a: int| 0 <= a < self.entries().len() implies (
                    #[trigger] self.entries()[a]).1.wf() && self.holds_hash(self.entries()[a].0@) by {
                        if a != i {
                            assert(self.entries()[a] == before[a]);
                        } else {
                            assert(self.entries()[a].0 == before[a].0);
                        }
                    }
                    if r is Err {
                        assert(self@.data =~= old(self)@.data);
                    }
                }
                r
            },
            Place::Before(p) => {
                proof {
                    assert forall|i: int| 0 <= i < views.len() implies views[i].0 != key@ by {
                        if i < p {
                            lemma_key_less_differ(views[i].0, key@);
                        } else {
                            lemma_key_less_differ(key@, views[i].0);
                        }
                    }
                    lemma_key_not_in_map(views, key@);
                }
                let mut fresh = FeatureValue::new();
                match fresh.add_int(key, time, window_size, value) {
                    Ok(record) => match self.put(key.clone(), fresh) {
                        Ok(_) => Ok(record),
                        Err(e) => Err(e),
                    },
                    Err(e) => Err(e),
                }
            },
        }
    }

    /// The number of bytes of the encoded page.
    pub open spec fn spec_need_space(&self) -> nat {
        34 + entries_space(self.entries())
    }

    /// Every entry can be encoded.
    pub open spec fn encodable(&self) -> bool {
        forall|i: int|
            0 <= i < self.entries().len() ==> entry_encodable(#[trigger] self.entries()[i])
    }

    /// The size that the encoded page names: its number of bytes, or the
    /// largest 64-bit number where that is smaller.
    pub open spec fn named_size(&self) -> nat {
        if self.spec_need_space() <= u64::MAX {
            self.spec_need_space()
        } else {
            u64::MAX as nat
        }
    }

    /// The bytes of the page's numbers behind its size.
    pub open spec fn head_bytes(page: PageView) -> Seq<u8> {
        be_bytes(page.slot_id as nat, 2) + be_bytes(page.id as nat, 8) + be_bytes(
            page.min_pk as nat,
            8,
        ) + be_bytes(page.max_pk as nat, 8)
    }

    /// The bytes of the page: its size in eight bytes, its slot in two, its
    /// id and its two bounds in eight each, then the entries in the order of
    /// their keys.
    pub open spec fn spec_encode(&self) -> Seq<u8> {
        be_bytes(self.named_size(), 8) + Self::head_bytes(self@) + entries_bytes(
            self.entries(),
        )
    }

    /// What `s` spells as a page whose entries go on to the end of `s`.
    pub open spec fn spec_decode(s: Seq<u8>) -> Parsed<PageView> {
        let s1 = s.skip(8);
        let s2 = s1.skip(2);
        let s3 = s2.skip(8);
        let s4 = s3.skip(8);
        let s5 = s4.skip(8);
        let min_pk = be_value(s3.take(8)) as u64;
        let max_pk = be_value(s4.take(8)) as u64;
        if s.len() < 8 {
            Parsed::Bad
        } else if s.len() < 34 {
            Parsed::Short
        } else {
            Self::with_head(
                decode_entries(s5, Map::empty(), 34, min_pk, max_pk),
                be_value(s1.take(2)) as u16,
                be_value(s2.take(8)) as u64,
                min_pk,
                max_pk,
            )
        }
    }

    /// The page of the given numbers that holds the entries decoded.
    pub open spec fn with_head(
        entries: Parsed<Map<Seq<char>, Map<u64, ValueKind>>>,
        slot_id: u16,
        id: u64,
        min_pk: u64,
        max_pk: u64,
    ) -> Parsed<PageView> {
        match entries {
            Parsed::Done(data, n) => Parsed::Done(
                PageView { slot_id, id, min_pk, max_pk, data },
                n,
            ),
            Parsed::Short => Parsed::Short,
            Parsed::Bad => Parsed::Bad,
        }
    }

    /// Decoding what was encoded gives the page back.
    pub proof fn lemma_round_trip(&self)
        requires
            self.wf(),
            self.encodable(),
        ensures
            self.spec_encode().len() == self.spec_need_space(),
            Self::spec_decode(self.spec_encode()) == Parsed::Done(self@, self.spec_need_space()),
    {
        let s = self.spec_encode();
        let v = self@;
        let es = self.entries();
        lemma_pow256_values();
        lemma_be_bytes_len(self.named_size(), 8);
        lemma_be_bytes_len(v.slot_id as nat, 2);
        lemma_be_value_of_bytes(v.slot_id as nat, 2);
        lemma_be_bytes_len(v.id as nat, 8);
        lemma_be_value_of_bytes(v.id as nat, 8);
        lemma_be_bytes_len(v.min_pk as nat, 8);
        lemma_be_value_of_bytes(v.min_pk as nat, 8);
        lemma_be_bytes_len(v.max_pk as nat, 8);
        lemma_be_value_of_bytes(v.max_pk as nat, 8);
        let s1 = s.skip(8);
        assert(s1 =~= Self::head_bytes(v) + entries_bytes(es));
        assert(s1.take(2) =~= be_bytes(v.slot_id as nat, 2));
        let s2 = s1.skip(2);
        assert(s2.take(8) =~= be_bytes(v.id as nat, 8));
        let s3 = s2.skip(8);
        assert(s3.take(8) =~= be_bytes(v.min_pk as nat, 8));
        let s4 = s3.skip(8);
        assert(s4.take(8) =~= be_bytes(v.max_pk as nat, 8));
        let s5 = s4.skip(8);
        assert(s5 =~= entries_bytes(es));
        assert(Seq::<(String, FeatureValue)>::empty() + es =~= es);
        lemma_no_pairs::<Seq<char>, Map<u64, ValueKind>>();
        assert(entry_views(Seq::<(String, FeatureValue)>::empty()) =~= Seq::empty());
        assert forall|i: int| 0 <= i < es.len() implies {
            &&& (#[trigger] es[i]).1.wf()
            &&& entry_encodable(es[i])
            &&& v.min_pk <= spec_calc_hash(es[i].0@) < v.max_pk
        } by {
            assert(self.holds_hash(es[i].0@));
        }
        lemma_decode_entries(Seq::empty(), es, 34, v.min_pk, v.max_pk);
    }

    /// The number of bytes of the encoded page, or the largest 64-bit number
    /// where that is smaller.
    fn sized(&self) -> (size: u64)
        ensures
            size == self.named_size(),
    {
        let n = self.data.len();
        let mut total: u64 = 34;
        let mut i: usize = 0;
        while i < n
            invariant
                n == self.entries().len(),
                i <= n,
                total == 34 + entries_space(self.entries().take(i as int)),
            decreases n - i,
        {
            let key_len: usize = self.data[i].0.as_str().as_bytes().len();
            let windows: usize = self.data[i].1.len();
            let size: u128 = 6 + key_len as u128 + 17 * (windows as u128);
            proof {
                lemma_entries_push(self.entries().take(i as int), self.entries()[i as int]);
                assert(self.entries().take(i as int).push(self.entries()[i as int])
                    =~= self.entries().take(i + 1));
                lemma_entries_space_take(self.entries(), i + 1);
                assert(size == entry_space(self.entries()[i as int]));
            }
            if size > (u64::MAX - total) as u128 {
                return u64::MAX;
            }
            total = total + size as u64;
            i = i + 1;
        }
        proof {
            assert(self.entries().take(n as int) =~= self.entries());
        }
        total
    }

    /// The number of bytes that `encode` writes, held at the largest `usize`
    /// where it does not fit.
    pub fn need_space(&self) -> (n: usize)
        ensures
            n == if self.spec_need_space() <= usize::MAX {
                self.spec_need_space()
            } else {
                usize::MAX as nat
            },
    {
        let size = self.sized();
        if size <= usize::MAX as u64 {
            size as usize
        } else {
            usize::MAX
        }
    }

    /// Whether `encode` can write the page.
    pub fn can_encode(&self) -> (b: bool)
        ensures
            b == self.encodable(),
    {
        let n = self.data.len();
        let mut i: usize = 0;
        while i < n
            invariant
                n == self.entries().len(),
                i <= n,
                forall|j: int| 0 <= j < i ==> entry_encodable(#[trigger] self.entries()[j]),
            decreases n - i,
        {
            let key_len: usize = self.data[i].0.as_str().as_bytes().len();
            let windows: usize = self.data[i].1.len();
            if key_len > u16::MAX as usize || windows > u32::MAX as usize {
                assert(!entry_encodable(self.entries()[i as int]));
                return false;
            }
            i = i + 1;
        }
        true
    }

    /// Appends the page's bytes to `buf`; fails, and writes nothing, where a
    /// key or a value is too long for the bytes that hold its length.
    pub fn encode(&self, buf: &mut BytesMut) -> (r: CustomResult<()>)
        requires
            self.wf(),
        ensures
            match r {
                Ok(_) => self.encodable() && written(*final(buf)) == written(*old(buf))
                    + self.spec_encode(),
                Err(e) => !self.encodable() && e.code == GENERIC_CODE && written(*final(buf))
                    == written(*old(buf)),
            },
    {
        if !self.can_encode() {
            return Err(common_err(String::from_str("the page is too long to encode")));
        }
        put_u64(buf, self.sized());
        put_u16(buf, self.slot_id);
        put_u64(buf, self.id);
        put_u64(buf, self.min_pk);
        put_u64(buf, self.max_pk);
        let ghost head = written(*old(buf)) + be_bytes(self.named_size(), 8)
            + Self::head_bytes(self@);
        assert(written(*buf) =~= head);
        let n = self.data.len();
        let mut i: usize = 0;
        while i < n
            invariant
                self.wf(),
                self.encodable(),
                n == self.entries().len(),
                i <= n,
                written(*buf) == head + entries_bytes(self.entries().take(i as int)),
            decreases n - i,
        {
            let key = self.data[i].0.as_str().as_bytes();
            let ghost mid = written(*buf);
            assert(entry_encodable(self.entries()[i as int]));
            assert(self.entries()[i as int].1.wf());
            put_u16(buf, key.len() as u16);
            put_slice(buf, key);
            let _ = self.data[i].1.encode(buf);
            proof {
                lemma_entries_push(self.entries().take(i as int), self.entries()[i as int]);
                assert(self.entries().take(i as int).push(self.entries()[i as int])
                    =~= self.entries().take(i + 1));
                assert(written(*buf) =~= mid + entry_bytes(self.entries()[i as int]));
            }
            i = i + 1;
        }
        proof {
            assert(self.entries().take(n as int) =~= self.entries());
            assert(written(*buf) =~= written(*old(buf)) + self.spec_encode());
        }
        Ok(())
    }

    /// Reads a page from the cursor to the end of its bytes.
    ///
    /// Fewer than eight bytes give a generic error; where the bytes end
    /// within the page, the error says that data is lacking; bytes that
    /// spell no page give a generic error.
    #[verifier::rlimit(30)]
    pub fn decode(buf: &mut Cursor<&[u8]>) -> (r: CustomResult<Page>)
        ensures
            cursor_bytes(*final(buf)) == cursor_bytes(*old(buf)),
            match Self::spec_decode(cursor_rest(*old(buf))) {
                Parsed::Done(page, n) => {
                    &&& r matches Ok(p)
                    &&& p.wf()
                    &&& p@ == page
                    &&& p.dirty_mark() is None
                    &&& n == cursor_rest(*old(buf)).len()
                    &&& cursor_pos(*final(buf)) == cursor_pos(*old(buf)) + n
                },
                Parsed::Short => r is Err && r->Err_0.code
                    == DECODE_FAILED_BY_INSUFFICIENT_DATA_CODE,
                Parsed::Bad => r is Err && r->Err_0.code == GENERIC_CODE,
            },
    {
        let ghost rest = cursor_rest(*buf);
        if remaining(buf) < 8 {
            return Err(common_err(String::from_str("the bytes are too few for a page")));
        }
        if remaining(buf) < 34 {
            return Err(decode_failed_by_insufficient_data_err());
        }
        let size = read_u64(buf);
        let slot_id = read_u16(buf);
        let page_id = read_u64(buf);
        let min_key = read_u64(buf);
        let max_key = read_u64(buf);
        let (slot_id, page_id, min_key, max_key) = match (slot_id, page_id, min_key, max_key) {
            (Some(slot_id), Some(page_id), Some(min_key), Some(max_key)) => (
                slot_id,
                page_id,
                min_key,
                max_key,
            ),
            _ => {
                return Err(decode_failed_by_insufficient_data_err());
            },
        };
        proof {
            lemma_pow256_values();
            lemma_be_value_bound(rest.skip(8).take(2));
            lemma_be_value_bound(rest.skip(8).skip(2).take(8));
            lemma_be_value_bound(rest.skip(8).skip(2).skip(8).take(8));
            lemma_be_value_bound(rest.skip(8).skip(2).skip(8).skip(8).take(8));
            assert(rest.skip(8).skip(2).skip(8).skip(8).skip(8) =~= rest.skip(34));
        }
        let mut page = Page::new(slot_id, page_id, min_key, max_key);
        let ghost mut used: nat = 34;
        let ghost s5 = rest.skip(34);
        while remaining(buf) > 0
            invariant
                rest == cursor_rest(*old(buf)),
                s5 == rest.skip(34),
                Self::spec_decode(rest) == Self::with_head(
                    decode_entries(s5, Map::empty(), 34, min_key, max_key),
                    slot_id,
                    page_id,
                    min_key,
                    max_key,
                ),
                page.wf(),
                page.dirty_mark() is None,
                page@.slot_id == slot_id,
                page@.id == page_id,
                page@.min_pk == min_key,
                page@.max_pk == max_key,
                cursor_bytes(*buf) == cursor_bytes(*old(buf)),
                cursor_pos(*buf) == cursor_pos(*old(buf)) + used,
                cursor_rest(*buf) == rest.skip(used as int),
                34 <= used <= rest.len(),
                decode_entries(s5, Map::empty(), 34, min_key, max_key) == decode_entries(
                    cursor_rest(*buf),
                    page@.data,
                    used,
                    min_key,
                    max_key,
                ),
            decreases cursor_rest(*buf).len(),
        {
            let ghost here = cursor_rest(*buf);
            let key_len = match read_u16(buf) {
                Some(n) => n,
                None => {
                    return Err(decode_failed_by_insufficient_data_err());
                },
            };
            let bytes = match read_bytes(buf, key_len as usize) {
                Some(b) => b,
                None => {
                    return Err(decode_failed_by_insufficient_data_err());
                },
            };
            let key = match string_of_bytes(bytes) {
                Ok(key) => key,
                Err(e) => {
                    return Err(e);
                },
            };
            let ghost s2 = cursor_rest(*buf);
            proof {
                FeatureValue::lemma_decode_bounds(s2);
            }
            let value = match FeatureValue::decode(buf) {
                Ok(value) => value,
                Err(e) => {
                    return Err(e);
                },
            };
            let ghost m = (cursor_pos(*buf) - cursor_pos(*old(buf)) - used - 2 - key_len) as nat;
            match page.put(key, value) {
                Ok(_) => {},
                Err(e) => {
                    return Err(e);
                },
            }
            proof {
                assert(rest.skip(used as int).skip(2).skip(key_len as int).skip(m as int)
                    =~= rest.skip(used + 2 + key_len + m));
                used = (used + 2 + key_len + m) as nat;
            }
        }
        Ok(page)
    }

    /// Sets the aggregate that `key` has in the window that starts at
    /// `window`; a key that the page does not hold yet is put in.
    ///
    /// Fails, and changes nothing, where the key is new and its hash lies
    /// outside the page's range.
    pub fn set_window(&mut self, key: &String, window: u64, value: ValueKind) -> (r: CustomResult<
        (),
    >)
        requires
            old(self).wf(),
        ensures
            final(self).wf(),
            final(self).dirty_mark() == old(self).dirty_mark(),
            match r {
                Ok(_) => {
                    &&& old(self).holds_hash(key@)
                    &&& final(self)@ == (PageView {
                        data: old(self)@.data.insert(
                            key@,
                            Self::windows_of(old(self)@.data, key@).insert(window, value),
                        ),
                        ..old(self)@
                    })
                },
                Err(e) => {
                    &&& e.code == GENERIC_CODE
                    &&& final(self)@ == old(self)@
                    &&& !old(self)@.data.contains_key(key@)
                    &&& !old(self).holds_hash(key@)
                },
            },
    {
        let ghost before = self.entries();
        let ghost views = entry_views(before);
        proof {
            lemma_keys_distinct(views);
        }
        match self.find(key.as_str()) {
            Place::At(i) => {
                proof {
                    lemma_pair_in_map(views, i as int);
                    assert(before[i as int].1.wf());
                    assert(self.holds_hash(before[i as int].0@));
                }
                self.data[i].1.set(window, value);
                proof {
                    let now = self.entries()[i as int].1@;
                    let after = entry_views(self.entries());
                    assert(after =~= views.update(i as int, (views[i as int].0, now)));
                    lemma_update_pair(views, i as int, now);
                    assert forall|a: int, b: int| 0 <= a < b < after.len() implies key_less(
                        after[a].0,
                        after[b].0,
                    ) by {
                        assert(after[a].0 == views[a].0 && after[b].0 == views[b].0);
                    }
                    assert forall|a: int| 0 <= a < self.entries().len() implies (
                    #[trigger] self.entries()[a]).1.wf() && self.holds_hash(self.entries()[a].0@) by {
                        if a != i {
                            assert(self.entries()[a] == before[a]);
                        } else {
                            assert(self.entries()[a].0 == before[a].0);
                        }
                    }
                }
                Ok(())
            },
            Place::Before(p) => {
                proof {
                    assert forall|i: int| 0 <= i < views.len() implies views[i].0 != key@ by {
                        if i < p {
                            lemma_key_less_differ(views[i].0, key@);
                        } else {
                            lemma_key_less_differ(key@, views[i].0);
                        }
                    }
                    lemma_key_not_in_map(views, key@);
                }
                let mut fresh = FeatureValue::new();
                fresh.set(window, value);
                self.put(key.clone(), fresh)
            },
        }
    }

    /// Notes that action `action_id` changed the page. Where the page was
    /// clean, its lower bound joins `dirty_pages`, the pages that wait to be
    /// written out.
    pub fn after_update(&mut self, action_id: u64, dirty_pages: &mut Vec<u64>)
        ensures
            final(self)@ == old(self)@,
            final(self).entries() == old(self).entries(),
            final(self).dirty_mark() == Some(Dirty::spec_update(old(self).dirty_mark(), action_id)),
            final(dirty_pages)@ == if old(self).dirty_mark() is None {
                old(dirty_pages)@.push(old(self)@.min_pk)
            } else {
                old(dirty_pages)@
            },
    {
        if self.dirty.update(action_id) {
            dirty_pages.push(self.min_pk);
        }
    }
}

} // verus!
