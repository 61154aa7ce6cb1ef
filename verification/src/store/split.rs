//! Splitting a page that has grown too long into pages of about half the
//! size of a page each.
use crate::calc_hash;
use crate::custom_error::{CustomResult, GENERIC_CODE};
use crate::feature::value::{FeatureValue, ValueKind};
use crate::spec_calc_hash;
use crate::store::page::{entry_space, entry_views, lemma_keys_distinct, Page};
use crate::store::slot::{pages_wf, Slot, PAGE_NUM};
use crate::tools::ordered_map::{
    ascending, ascending_entries, lemma_ascending_entries, lemma_entry_in_map, OrderedMap,
};
use crate::tools::pairs::{lemma_insert_pair, lemma_no_pairs, pairs_map};
use vstd::prelude::*;

verus! {

/// The size behind which a page that is being filled is closed.
pub const HALF_PAGE: u64 = 32_768;

/// The number of bytes of an empty page.
pub const PAGE_HEAD: u64 = 34;

/// `n`, or the largest 64-bit number where `n` is larger.
pub open spec fn sat64(n: int) -> u64 {
    if n > u64::MAX {
        u64::MAX
    } else if n < 0 {
        0
    } else {
        n as u64
    }
}

/// For each hash that a key of `es` has, the bytes of the entries whose keys
/// have it, held at the largest 64-bit number.
pub open spec fn group_sizes(es: Seq<(String, FeatureValue)>) -> Map<u64, u64>
    decreases es.len(),
{
    if es.len() == 0 {
        Map::empty()
    } else {
        let before = group_sizes(es.drop_last());
        let hash = spec_calc_hash(es.last().0@);
        let sum = if before.contains_key(hash) {
            before[hash]
        } else {
            0
        };
        before.insert(hash, sat64(sum + entry_space(es.last())))
    }
}

/// The hashes at which pages begin when groups of entries, given by hash
/// and size in ascending order of the hash, fill pages one after the other:
/// a group opens a new page where the page before it, which holds `acc`
/// bytes, is longer than half a page.
pub open spec fn cut_points(groups: Seq<(u64, u64)>, acc: u64) -> Seq<u64>
    decreases groups.len(),
{
    if groups.len() == 0 {
        Seq::empty()
    } else if acc > HALF_PAGE {
        seq![groups.first().0] + cut_points(
            groups.drop_first(),
            sat64(PAGE_HEAD + groups.first().1),
        )
    } else {
        cut_points(groups.drop_first(), sat64(acc + groups.first().1))
    }
}

/// The number of bits of `s` that are clear.
pub open spec fn clear_bits(s: Seq<bool>) -> nat
    decreases s.len(),
{
    if s.len() == 0 {
        0
    } else {
        clear_bits(s.drop_last()) + if s.last() {
            0nat
        } else {
            1nat
        }
    }
}

pub proof fn lemma_clear_bits_none(s: Seq<bool>)
    requires
        forall|i: int| 0 <= i < s.len() ==> s[i],
    ensures
        clear_bits(s) == 0,
    decreases s.len(),
{
    if s.len() > 0 {
        lemma_clear_bits_none(s.drop_last());
    }
}

pub proof fn lemma_clear_bits_set(s: Seq<bool>, i: int)
    requires
        0 <= i < s.len(),
        !s[i],
    ensures
        clear_bits(s.update(i, true)) + 1 == clear_bits(s),
    decreases s.len(),
{
    let t = s.update(i, true);
    if i == s.len() - 1 {
        assert(t.drop_last() =~= s.drop_last());
    } else {
        lemma_clear_bits_set(s.drop_last(), i);
        assert(t.drop_last() =~= s.drop_last().update(i, true));
    }
}

/// Some page of `pages` binds `key` to `windows`.
pub open spec fn held_in(pages: Seq<Page>, key: Seq<char>, windows: Map<u64, ValueKind>) -> bool {
    exists|p: int|
        0 <= p < pages.len() && (#[trigger] pages[p])@.data.contains_key(key) && pages[p]@.data[key]
            == windows
}

/// The pages hold what `data` holds, and no more.
pub open spec fn same_data(pages: Seq<Page>, data: Map<Seq<char>, Map<u64, ValueKind>>) -> bool {
    &&& forall|key: Seq<char>| #[trigger] data.contains_key(key) ==> held_in(pages, key, data[key])
    &&& forall|p: int, key: Seq<char>|
        0 <= p < pages.len() && #[trigger] pages[p]@.data.contains_key(key) ==> data.contains_key(
            key,
        ) && data[key] == pages[p]@.data[key]
}

/// The pages are well formed, clean and of slot `slot_id`; page `i` begins
/// at `bounds[i]` and ends where the next begins, the last at `max_pk`.
pub open spec fn pages_on_bounds(pages: Seq<Page>, bounds: Seq<u64>, max_pk: u64, slot_id: u16) -> bool {
    &&& pages.len() == bounds.len()
    &&& forall|i: int|
        0 <= i < pages.len() ==> {
            let page = #[trigger] pages[i];
            &&& page.wf()
            &&& page.dirty_mark() is None
            &&& page@.slot_id == slot_id
            &&& page@.min_pk == bounds[i]
            &&& page@.max_pk == if i + 1 < bounds.len() {
                bounds[i + 1]
            } else {
                max_pk
            }
        }
}

/// The ids of the pages are below the number of pages of a slot, differ from
/// one another, and were free in `before`; `after` has their bits set, and
/// is as `before` otherwise.
pub open spec fn fresh_ids(pages: Seq<Page>, before: Seq<bool>, after: Seq<bool>) -> bool {
    &&& after.len() == before.len()
    &&& forall|i: int|
        0 <= i < pages.len() ==> (#[trigger] pages[i])@.id < before.len() && !before[pages[i]@.id as int]
    &&& forall|i: int, j: int|
        0 <= i < j < pages.len() ==> (#[trigger] pages[i])@.id != (#[trigger] pages[j])@.id
    &&& forall|id: int|
        0 <= id < before.len() ==> (#[trigger] after[id] == (before[id] || exists|i: int|
            0 <= i < pages.len() && (#[trigger] pages[i])@.id == id))
}

/// Each page has the lowest id that was free in `before` and that no page
/// before it has.
pub open spec fn lowest_ids(pages: Seq<Page>, before: Seq<bool>) -> bool {
    forall|k: int, id: int|
        0 <= k < pages.len() && 0 <= id < (#[trigger] pages[k])@.id ==> #[trigger] before[id]
            || exists|j: int| 0 <= j < k && (#[trigger] pages[j])@.id == id
}

/// The bounds ascend strictly.
pub open spec fn bounds_ascending(bounds: Seq<u64>) -> bool {
    forall|a: int, b: int| 0 <= a < b < bounds.len() ==> bounds[a] < bounds[b]
}

/// The bytes of one entry, held at the largest 64-bit number.
fn entry_size(page: &Page, i: usize) -> (size: u64)
    requires
        i < page.entries().len(),
    ensures
        size == sat64(entry_space(page.entries()[i as int]) as int),
{
    let key_len: usize = page.key_at(i).as_str().as_bytes().len();
    let windows: usize = page.value_at(i).len();
    let size: u128 = 6 + key_len as u128 + 17 * (windows as u128);
    if size > u64::MAX as u128 {
        u64::MAX
    } else {
        size as u64
    }
}

/// `a + b`, held at the largest 64-bit number.
fn sat_add(a: u64, b: u64) -> (sum: u64)
    ensures
        sum == sat64(a + b),
{
    match a.checked_add(b) {
        Some(sum) => sum,
        None => u64::MAX,
    }
}

/// The hash of each key of the page, and the sizes of the groups of entries
/// whose keys have one hash.
pub(crate) fn hash_groups(page: &Page) -> (r: (OrderedMap<u64>, Vec<u64>))
    requires
        page.wf(),
    ensures
        r.0.wf(),
        r.0@ == group_sizes(page.entries()),
        forall|j: int|
            0 <= j < r.0.entries().len() ==> page@.min_pk <= (#[trigger] r.0.entries()[j]).0
                < page@.max_pk,
        r.1@.len() == page.entries().len(),
        forall|i: int|
            0 <= i < r.1@.len() ==> #[trigger] r.1@[i] == spec_calc_hash(page.entries()[i].0@),
{
    let mut groups: OrderedMap<u64> = OrderedMap::new();
    let mut hashes: Vec<u64> = Vec::new();
    let n = page.len();
    let mut i: usize = 0;
    assert(page.entries().take(0) =~= Seq::empty());
    while i < n
        invariant
            page.wf(),
            n == page.entries().len(),
            i <= n,
            groups.wf(),
            groups@ == group_sizes(page.entries().take(i as int)),
            forall|h: u64| #[trigger]
                groups@.contains_key(h) ==> page@.min_pk <= h < page@.max_pk,
            hashes@.len() == i,
            forall|t: int|
                0 <= t < i ==> #[trigger] hashes@[t] == spec_calc_hash(page.entries()[t].0@),
        decreases n - i,
    {
        let hash = calc_hash(page.key_at(i));
        let size = entry_size(page, i);
        let before: u64 = match groups.get(hash) {
            Some(sum) => *sum,
            None => 0,
        };
        proof {
            let es = page.entries().take(i + 1);
            assert(es.drop_last() =~= page.entries().take(i as int));
            assert(es.last() == page.entries()[i as int]);
            assert(page.holds_hash(page.entries()[i as int].0@));
        }
        groups.insert(hash, sat_add(before, size));
        hashes.push(hash);
        i = i + 1;
    }
    proof {
        assert(page.entries().take(n as int) =~= page.entries());
        assert forall|j: int| 0 <= j < groups.entries().len() implies page@.min_pk <= (
        #[trigger] groups.entries()[j]).0 < page@.max_pk by {
            groups.lemma_view();
            lemma_entry_in_map(groups.entries(), j);
        }
    }
    (groups, hashes)
}

/// The hashes at which the pages begin when a page from `min_pk` to below
/// `max_pk` is split whose entries make up the groups `groups`, given by
/// hash and size.
pub fn cut_bounds(groups: &OrderedMap<u64>, min_pk: u64, max_pk: u64) -> (bounds: Vec<u64>)
    requires
        groups.wf(),
        forall|j: int|
            0 <= j < groups.entries().len() ==> min_pk <= (#[trigger] groups.entries()[j]).0 < max_pk,
    ensures
        bounds@ == seq![min_pk] + cut_points(groups.entries(), PAGE_HEAD),
        bounds_ascending(bounds@),
        forall|a: int| 1 <= a < bounds@.len() ==> min_pk < #[trigger] bounds@[a] < max_pk,
{
    let mut bounds: Vec<u64> = Vec::new();
    bounds.push(min_pk);
    let mut acc: u64 = PAGE_HEAD;
    let ghost mut filled = false;
    let n = groups.len();
    let mut j: usize = 0;
    let ghost all = groups.entries();
    assert(all.skip(0) =~= all);
    while j < n
        invariant
            all == groups.entries(),
            ascending(all),
            n == all.len(),
            j <= n,
            bounds@.len() >= 1,
            seq![min_pk] + cut_points(all, PAGE_HEAD) == bounds@ + cut_points(all.skip(j as int), acc),
            bounds_ascending(bounds@),
            bounds@[0] == min_pk,
            forall|a: int| 1 <= a < bounds@.len() ==> min_pk < #[trigger] bounds@[a] < max_pk,
            forall|k: int| 0 <= k < all.len() ==> min_pk <= (#[trigger] all[k]).0 < max_pk,
            !filled ==> acc == PAGE_HEAD,
            forall|k: int| j <= k < all.len() ==> bounds@.last() <= (#[trigger] all[k]).0,
            filled ==> forall|k: int| j <= k < all.len() ==> bounds@.last() < (#[trigger] all[k]).0,
        decreases n - j,
    {
        let hash = groups.key_at(j);
        let size = *groups.value_at(j);
        let ghost rest = all.skip(j as int);
        proof {
            assert(rest.first() == all[j as int]);
            assert(rest.drop_first() =~= all.skip(j + 1));
            assert forall|k: int| j + 1 <= k < all.len() implies hash < (#[trigger] all[k]).0 by {
                assert(all[j as int].0 < all[k].0);
            }
        }
        if acc > HALF_PAGE {
            let ghost before = bounds@;
            bounds.push(hash);
            acc = sat_add(PAGE_HEAD, size);
            proof {
                assert(before + (seq![hash] + cut_points(all.skip(j + 1), acc)) =~= bounds@
                    + cut_points(all.skip(j + 1), acc));
            }
        } else {
            acc = sat_add(acc, size);
        }
        proof {
            filled = true;
        }
        j = j + 1;
    }
    proof {
        assert(all.skip(n as int) =~= Seq::empty());
        assert(bounds@ + Seq::<u64>::empty() =~= bounds@);
    }
    bounds
}

/// The hashes at which the pages begin into which a page with the entries
/// `es` and the lower bound `min_pk` is split.
pub open spec fn split_bounds(es: Seq<(String, FeatureValue)>, min_pk: u64) -> Seq<u64> {
    seq![min_pk] + cut_points(ascending_entries(group_sizes(es)), PAGE_HEAD)
}

/// The pages are what `page` is split into: they begin at the bounds of the
/// split, end where the next begins, the last where `page` ends, and hold
/// together what `page` holds.
pub open spec fn is_split(page: &Page, pages: Seq<Page>, slot_id: u16) -> bool {
    &&& pages_on_bounds(
        pages,
        split_bounds(page.entries(), page@.min_pk),
        page@.max_pk,
        slot_id,
    )
    &&& same_data(pages, page@.data)
}

/// A new page for each bound. Fails, and leaves the slot as it was, where
/// fewer ids are free than there are bounds.
#[verifier::rlimit(30)]
fn allocate(slot: &mut Slot, bounds: &Vec<u64>, max_pk: u64) -> (r: CustomResult<Vec<Page>>)
    requires
        old(slot).wf(),
    ensures
        final(slot).wf(),
        final(slot).spec_id() == old(slot).spec_id(),
        final(slot).spec_data_dir() == old(slot).spec_data_dir(),
        final(slot).pages() == old(slot).pages(),
        final(slot).dirty_queue() == old(slot).dirty_queue(),
        final(slot).index_mark() == old(slot).index_mark(),
        match r {
            Ok(pages) => {
                &&& pages_on_bounds(pages@, bounds@, max_pk, old(slot).spec_id())
                &&& forall|i: int|
                    0 <= i < pages@.len() ==> (#[trigger] pages@[i])@.data == Map::<
                        Seq<char>,
                        Map<u64, ValueKind>,
                    >::empty()
                &&& fresh_ids(pages@, old(slot).bitmap(), final(slot).bitmap())
                &&& lowest_ids(pages@, old(slot).bitmap())
                &&& clear_bits(old(slot).bitmap()) >= bounds@.len()
            },
            Err(e) => {
                &&& e.code == GENERIC_CODE
                &&& final(slot).bitmap() == old(slot).bitmap()
                &&& clear_bits(old(slot).bitmap()) < bounds@.len()
            },
        },
{
    let mut pages: Vec<Page> = Vec::new();
    let n = bounds.len();
    let mut i: usize = 0;
    let ghost before = slot.bitmap();
    while i < n
        invariant
            n == bounds@.len(),
            i <= n,
            before == old(slot).bitmap(),
            before.len() == PAGE_NUM,
            slot.wf(),
            slot.spec_id() == old(slot).spec_id(),
            slot.spec_data_dir() == old(slot).spec_data_dir(),
            slot.pages() == old(slot).pages(),
            slot.dirty_queue() == old(slot).dirty_queue(),
            slot.index_mark() == old(slot).index_mark(),
            pages@.len() == i,
            forall|t: int|
                0 <= t < i ==> {
                    let page = #[trigger] pages@[t];
                    &&& page.wf()
                    &&& page.dirty_mark() is None
                    &&& page@.slot_id == slot.spec_id()
                    &&& page@.min_pk == bounds@[t]
                    &&& page@.max_pk == if t + 1 < n {
                        bounds@[t + 1]
                    } else {
                        max_pk
                    }
                    &&& page@.data == Map::<Seq<char>, Map<u64, ValueKind>>::empty()
                },
            fresh_ids(pages@, before, slot.bitmap()),
            lowest_ids(pages@, before),
            pages_wf(slot.pages(), slot.spec_id(), before),
            clear_bits(slot.bitmap()) + i == clear_bits(before),
        decreases n - i,
    {
        let upper: u64 = if i + 1 < n {
            bounds[i + 1]
        } else {
            max_pk
        };
        let ghost now = slot.bitmap();
        match slot.new_page(bounds[i], upper) {
            Ok(page) => {
                let ghost held = pages@;
                proof {
                    lemma_clear_bits_set(now, page@.id as int);
                }
                pages.push(page);
                proof {
                    let after = slot.bitmap();
                    assert forall|a: int, b: int| 0 <= a < b < pages@.len() implies (
                    #[trigger] pages@[a])@.id != (#[trigger] pages@[b])@.id by {
                        if b == i {
                            assert(pages@[a] == held[a]);
                            assert(now[held[a]@.id as int]);
                        } else {
                            assert(pages@[a] == held[a] && pages@[b] == held[b]);
                        }
                    }
                    assert forall|id: int| 0 <= id < before.len() implies (#[trigger] after[id] == (
                    before[id] || exists|t: int|
                        0 <= t < pages@.len() && (#[trigger] pages@[t])@.id == id)) by {
                        if id == page@.id {
                            assert(pages@[i as int]@.id == id);
                        } else {
                            if exists|t: int| 0 <= t < held.len() && (#[trigger] held[t])@.id == id {
                                let t = choose|t: int|
                                    0 <= t < held.len() && (#[trigger] held[t])@.id == id;
                                assert(pages@[t] == held[t]);
                            }
                            if exists|t: int|
                                0 <= t < pages@.len() && (#[trigger] pages@[t])@.id == id {
                                let t = choose|t: int|
                                    0 <= t < pages@.len() && (#[trigger] pages@[t])@.id == id;
                                assert(t < i);
                                assert(pages@[t] == held[t]);
                            }
                        }
                    }
                    assert forall|t: int| 0 <= t < pages@.len() implies (#[trigger] pages@[t])@.id
                        < before.len() && !before[pages@[t]@.id as int] by {
                        if t < i {
                            assert(pages@[t] == held[t]);
                        }
                    }
                    assert forall|k: int, id: int|
                        0 <= k < pages@.len() && 0 <= id < (#[trigger] pages@[k])@.id implies #[trigger] before[id]
                        || exists|j: int| 0 <= j < k && (#[trigger] pages@[j])@.id == id by {
                        if k < i {
                            assert(pages@[k] == held[k]);
                            if !before[id] {
                                let j = choose|j: int| 0 <= j < k && (#[trigger] held[j])@.id == id;
                                assert(pages@[j] == held[j]);
                            }
                        } else {
                            assert(now[id]);
                            if !before[id] {
                                let j = choose|j: int|
                                    0 <= j < held.len() && (#[trigger] held[j])@.id == id;
                                assert(pages@[j] == held[j]);
                            }
                        }
                    }
                }
            },
            Err(e) => {
                proof {
                    lemma_clear_bits_none(now);
                }
                release(slot, &pages, Ghost(before));
                return Err(e);
            },
        }
        i = i + 1;
    }
    Ok(pages)
}

/// Gives back the ids of `pages`, which were taken from `before`.
fn release(slot: &mut Slot, pages: &Vec<Page>, Ghost(before): Ghost<Seq<bool>>)
    requires
        old(slot).wf(),
        before.len() == PAGE_NUM,
        pages_wf(old(slot).pages(), old(slot).spec_id(), before),
        fresh_ids(pages@, before, old(slot).bitmap()),
    ensures
        final(slot).wf(),
        final(slot).spec_id() == old(slot).spec_id(),
        final(slot).spec_data_dir() == old(slot).spec_data_dir(),
        final(slot).pages() == old(slot).pages(),
        final(slot).dirty_queue() == old(slot).dirty_queue(),
        final(slot).index_mark() == old(slot).index_mark(),
        final(slot).bitmap() == before,
{
    let m = pages.len();
    let mut k: usize = 0;
    while k < m
        invariant
            m == pages@.len(),
            k <= m,
            before.len() == PAGE_NUM,
            fresh_ids(pages@, before, old(slot).bitmap()),
            slot.inner_wf(),
            slot.bitmap().len() == before.len(),
            slot.spec_id() == old(slot).spec_id(),
            slot.spec_data_dir() == old(slot).spec_data_dir(),
            slot.pages() == old(slot).pages(),
            slot.dirty_queue() == old(slot).dirty_queue(),
            slot.index_mark() == old(slot).index_mark(),
            forall|id: int|
                0 <= id < before.len() ==> (#[trigger] slot.bitmap()[id] == (before[id]
                    || exists|t: int| k <= t < m && (#[trigger] pages@[t])@.id == id)),
        decreases m - k,
    {
        let ghost now = slot.bitmap();
        let id = pages[k].id();
        slot.freed_page(id);
        proof {
            let after = slot.bitmap();
            assert forall|x: int| 0 <= x < before.len() implies (#[trigger] after[x] == (before[x]
                || exists|t: int| k + 1 <= t < m && (#[trigger] pages@[t])@.id == x)) by {
                if x == id {
                    assert(!before[x]);
                    if exists|t: int| k + 1 <= t < m && (#[trigger] pages@[t])@.id == x {
                        let t = choose|t: int| k + 1 <= t < m && (#[trigger] pages@[t])@.id == x;
                        assert(pages@[k as int]@.id != pages@[t]@.id);
                    }
                } else {
                    if exists|t: int| k <= t < m && (#[trigger] pages@[t])@.id == x {
                        let t = choose|t: int| k <= t < m && (#[trigger] pages@[t])@.id == x;
                        assert(t != k);
                    }
                }
            }
        }
        k = k + 1;
    }
    proof {
        assert(slot.bitmap() =~= before);
    }
}

/// The index of the last bound that is at most `hash`.
fn floor_bound(bounds: &Vec<u64>, hash: u64) -> (p: usize)
    requires
        bounds_ascending(bounds@),
        bounds@.len() >= 1,
        bounds@[0] <= hash,
    ensures
        p < bounds@.len(),
        bounds@[p as int] <= hash,
        p + 1 < bounds@.len() ==> hash < bounds@[p + 1],
{
    let mut lo: usize = 0;
    let mut hi: usize = bounds.len();
    while lo + 1 < hi
        invariant
            bounds_ascending(bounds@),
            lo < hi <= bounds@.len(),
            bounds@[lo as int] <= hash,
            hi < bounds@.len() ==> hash < bounds@[hi as int],
        decreases hi - lo,
    {
        let mid: usize = lo + (hi - lo) / 2;
        if bounds[mid] <= hash {
            lo = mid;
        } else {
            hi = mid;
        }
    }
    lo
}

/// Copies each entry of `page` into the page whose range holds the hash of
/// its key.
#[verifier::rlimit(30)]
pub(crate) fn distribute(
    page: &Page,
    hashes: &Vec<u64>,
    bounds: &Vec<u64>,
    pages: &mut Vec<Page>,
    Ghost(slot_id): Ghost<u16>,
)
    requires
        page.wf(),
        hashes@.len() == page.entries().len(),
        forall|i: int|
            0 <= i < hashes@.len() ==> #[trigger] hashes@[i] == spec_calc_hash(
                page.entries()[i].0@,
            ),
        bounds_ascending(bounds@),
        bounds@.len() >= 1,
        bounds@[0] == page@.min_pk,
        pages_on_bounds(old(pages)@, bounds@, page@.max_pk, slot_id),
        forall|i: int|
            0 <= i < old(pages)@.len() ==> (#[trigger] old(pages)@[i])@.data == Map::<
                Seq<char>,
                Map<u64, ValueKind>,
            >::empty(),
    ensures
        pages_on_bounds(final(pages)@, bounds@, page@.max_pk, slot_id),
        forall|i: int|
            0 <= i < final(pages)@.len() ==> (#[trigger] final(pages)@[i])@.id == old(pages)@[i]@.id,
        same_data(final(pages)@, page@.data),
{
    let n = page.len();
    let mut i: usize = 0;
    let ghost views = entry_views(page.entries());
    proof {
        lemma_no_pairs::<Seq<char>, Map<u64, ValueKind>>();
        assert(views.take(0) =~= Seq::empty());
        lemma_keys_distinct(views);
    }
    while i < n
        invariant
            page.wf(),
            n == page.entries().len(),
            i <= n,
            views == entry_views(page.entries()),
            crate::tools::pairs::distinct_keys(views),
            hashes@.len() == n,
            forall|t: int|
                0 <= t < hashes@.len() ==> #[trigger] hashes@[t] == spec_calc_hash(
                    page.entries()[t].0@,
                ),
            bounds_ascending(bounds@),
            bounds@.len() >= 1,
            bounds@[0] == page@.min_pk,
            pages@.len() == old(pages)@.len(),
            pages_on_bounds(pages@, bounds@, page@.max_pk, slot_id),
            forall|t: int| 0 <= t < pages@.len() ==> (#[trigger] pages@[t])@.id == old(pages)@[t]@.id,
            same_data(pages@, pairs_map(views.take(i as int))),
        decreases n - i,
    {
        let hash = hashes[i];
        proof {
            assert(page.holds_hash(page.entries()[i as int].0@));
            assert(page.entries()[i as int].1.wf());
        }
        let p = floor_bound(bounds, hash);
        let key = page.key_at(i).clone();
        let value = page.value_at(i).duplicate();
        let ghost held = pages@;
        let ghost k = key@;
        let ghost w = value@;
        let ghost done = pairs_map(views.take(i as int));
        proof {
            assert(held[p as int].wf());
            assert(held[p as int].holds_hash(k));
        }
        let r = pages[p].put(key, value);
        proof {
            assert(r is Ok);
            let now = pages@;
            assert(forall|t: int| 0 <= t < now.len() && t != p ==> now[t] == held[t]);
            let taken = views.take(i as int);
            assert(views.take(i + 1) =~= taken.insert(i as int, (k, w)));
            assert(crate::tools::pairs::distinct_keys(taken)) by {
                assert forall|a: int, b: int| 0 <= a < b < taken.len() implies taken[a].0
                    != taken[b].0 by {
                    assert(views[a].0 != views[b].0);
                }
            }
            assert forall|t: int| 0 <= t < taken.len() implies taken[t].0 != k by {
                assert(views[t].0 != views[i as int].0);
            }
            lemma_insert_pair(taken, i as int, k, w);
            let next = pairs_map(views.take(i + 1));
            assert(next == done.insert(k, w));
            assert forall|key: Seq<char>| #[trigger] next.contains_key(key) implies held_in(
                now,
                key,
                next[key],
            ) by {
                if key == k {
                    assert(now[p as int]@.data.contains_key(key));
                } else {
                    assert(done.contains_key(key));
                    assert(held_in(held, key, done[key]));
                    let q = choose|q: int|
                        0 <= q < held.len() && (#[trigger] held[q])@.data.contains_key(key)
                            && held[q]@.data[key] == done[key];
                    assert(now[q]@.data.contains_key(key) && now[q]@.data[key] == done[key]);
                }
            }
            assert forall|q: int, key: Seq<char>|
                0 <= q < now.len() && #[trigger] now[q]@.data.contains_key(key) implies next.contains_key(
                key,
            ) && next[key] == now[q]@.data[key] by {
                if q == p && key == k {
                } else {
                    assert(held[q]@.data.contains_key(key));
                }
            }
            assert forall|t: int| 0 <= t < now.len() && t != p implies now[t] == held[t] by {}
        }
        i = i + 1;
    }
    proof {
        assert(views.take(n as int) =~= views);
        page.lemma_view();
    }
}

impl Page {
    /// Splits the page into new pages of the slot `slot`.
    ///
    /// The entries are taken in the order of the hash of their keys. A new
    /// page is begun at a hash where the page before it has grown longer
    /// than half a page; it begins at that hash, and the page before it ends
    /// there. The first page begins where this page begins, the last ends
    /// where this page ends. Each new page takes the lowest id that is free.
    ///
    /// Fails, and leaves the slot as it was, where fewer ids are free than
    /// the split needs pages.
    #[verifier::rlimit(30)]
    pub fn split(&self, slot: &mut Slot) -> (r: CustomResult<Vec<Page>>)
        requires
            self.wf(),
            old(slot).wf(),
        ensures
            final(slot).wf(),
            final(slot).spec_id() == old(slot).spec_id(),
            final(slot).spec_data_dir() == old(slot).spec_data_dir(),
            final(slot).pages() == old(slot).pages(),
            final(slot).dirty_queue() == old(slot).dirty_queue(),
            final(slot).index_mark() == old(slot).index_mark(),
            split_bounds(self.entries(), self@.min_pk).len() >= 1,
            split_bounds(self.entries(), self@.min_pk)[0] == self@.min_pk,
            bounds_ascending(split_bounds(self.entries(), self@.min_pk)),
            forall|a: int|
                1 <= a < split_bounds(self.entries(), self@.min_pk).len() ==> self@.min_pk
                    < #[trigger] split_bounds(self.entries(), self@.min_pk)[a] < self@.max_pk,
            match r {
                Ok(pages) => {
                    &&& is_split(self, pages@, old(slot).spec_id())
                    &&& fresh_ids(pages@, old(slot).bitmap(), final(slot).bitmap())
                    &&& lowest_ids(pages@, old(slot).bitmap())
                    &&& clear_bits(old(slot).bitmap()) >= split_bounds(
                        self.entries(),
                        self@.min_pk,
                    ).len()
                },
                Err(e) => {
                    &&& e.code == GENERIC_CODE
                    &&& final(slot).bitmap() == old(slot).bitmap()
                    &&& clear_bits(old(slot).bitmap()) < split_bounds(
                        self.entries(),
                        self@.min_pk,
                    ).len()
                },
            },
    {
        let (groups, hashes) = hash_groups(self);
        let bounds = cut_bounds(&groups, self.min_pk(), self.max_pk());
        proof {
            groups.lemma_view();
            lemma_ascending_entries(groups.entries());
        }
        let mut pages = match allocate(slot, &bounds, self.max_pk()) {
            Ok(pages) => pages,
            Err(e) => {
                return Err(e);
            },
        };
        let ghost empty = pages@;
        distribute(self, &hashes, &bounds, &mut pages, Ghost(slot.spec_id()));
        proof {
            let made = pages@;
            let before = old(slot).bitmap();
            let after = slot.bitmap();
            assert forall|i: int| 0 <= i < made.len() implies (#[trigger] made[i])@.id
                < before.len() && !before[made[i]@.id as int] by {
                assert(made[i]@.id == empty[i]@.id);
            }
            assert forall|i: int, j: int| 0 <= i < j < made.len() implies (#[trigger] made[i])@.id
                != (#[trigger] made[j])@.id by {
                assert(made[i]@.id == empty[i]@.id && made[j]@.id == empty[j]@.id);
            }
            assert forall|id: int| 0 <= id < before.len() implies (#[trigger] after[id] == (
            before[id] || exists|i: int| 0 <= i < made.len() && (#[trigger] made[i])@.id == id)) by {
                if exists|i: int| 0 <= i < empty.len() && (#[trigger] empty[i])@.id == id {
                    let i = choose|i: int| 0 <= i < empty.len() && (#[trigger] empty[i])@.id == id;
                    assert(made[i]@.id == id);
                }
                if exists|i: int| 0 <= i < made.len() && (#[trigger] made[i])@.id == id {
                    let i = choose|i: int| 0 <= i < made.len() && (#[trigger] made[i])@.id == id;
                    assert(empty[i]@.id == id);
                }
            }
            assert forall|k: int, id: int|
                0 <= k < made.len() && 0 <= id < (#[trigger] made[k])@.id implies #[trigger] before[id]
                || exists|j: int| 0 <= j < k && (#[trigger] made[j])@.id == id by {
                assert(made[k]@.id == empty[k]@.id);
                if !before[id] {
                    let j = choose|j: int| 0 <= j < k && (#[trigger] empty[j])@.id == id;
                    assert(made[j]@.id == id);
                }
            }
        }
        Ok(pages)
    }
}

/// The pages into which a page that can be encoded was split can be encoded.
pub proof fn lemma_split_encodable(page: &Page, pages: Seq<Page>, p: int)
    requires
        page.wf(),
        page.encodable(),
        same_data(pages, page@.data),
        0 <= p < pages.len(),
        pages[p].wf(),
    ensures
        pages[p].encodable(),
{
    let part = pages[p];
    let views = entry_views(page.entries());
    let part_views = entry_views(part.entries());
    lemma_keys_distinct(views);
    lemma_keys_distinct(part_views);
    page.lemma_view();
    part.lemma_view();
    assert forall|t: int| 0 <= t < part.entries().len() implies crate::store::page::entry_encodable(
        #[trigger] part.entries()[t],
    ) by {
        let e = part.entries()[t];
        crate::tools::pairs::lemma_pair_in_map(part_views, t);
        assert(part_views[t] == (e.0@, e.1@));
        assert(part@.data.contains_key(e.0@));
        assert(page@.data.contains_key(e.0@) && page@.data[e.0@] == e.1@);
        let j = crate::tools::pairs::index_of(views, e.0@);
        assert(0 <= j < views.len() && views[j].0 == e.0@);
        crate::tools::pairs::lemma_pair_in_map(views, j);
        let o = page.entries()[j];
        assert(views[j] == (o.0@, o.1@));
        assert(crate::store::page::entry_encodable(o));
        assert(o.1.wf() && e.1.wf());
        o.1.lemma_same_windows(&e.1);
    }
}

} // verus!
