//! Slots: one hash shard each, with its pages in the order of their ranges.
use crate::custom_error::{common_err, CustomResult, GENERIC_CODE};
use crate::feature::value::ValueKind;
use crate::store::page::{Page, PageView};
use crate::store::{Dirty, DirtyRecord};
use crate::tools::bitmap::BitMap;
use crate::tools::ordered_map::{ascending, entries_map, OrderedMap, Place};
use vstd::prelude::*;
use vstd::string::StringExecFns;

verus! {

/// The number of pages that a slot can hold.
pub const PAGE_NUM: u32 = 262_144;

/// The number of bits of a key's hash that choose its slot.
pub const SLOT_NUM_BY_BIT: u16 = 12;

/// The number of bytes that a page takes in a page file.
pub const PAGE_SIZE: u32 = 65_536;

/// The number of bytes of a page file.
pub const FILE_SIZE: u32 = 1_073_741_824;

/// Each page is well formed, stands under its lower bound and belongs to
/// the slot; no range is empty, and each ends before the next begins.
pub open spec fn ranges_ok(pages: Seq<(u64, Page)>, slot_id: u16) -> bool {
    &&& ascending(pages)
    &&& ranges_ordered(pages)
    &&& forall|i: int|
        0 <= i < pages.len() ==> {
            let page = (#[trigger] pages[i]).1;
            &&& page.wf()
            &&& page@.min_pk == pages[i].0
            &&& page@.slot_id == slot_id
        }
}

/// Each page has an id of its own whose bit is set.
pub open spec fn ids_ok(pages: Seq<(u64, Page)>, bitmap: Seq<bool>) -> bool {
    &&& forall|i: int|
        0 <= i < pages.len() ==> (#[trigger] pages[i]).1@.id < bitmap.len() && bitmap[pages[i].1@.id as int]
    &&& forall|i: int, j: int|
        0 <= i < j < pages.len() ==> (#[trigger] pages[i]).1@.id != (#[trigger] pages[j]).1@.id
}

/// Each page stands under its lower bound, belongs to the slot, is well
/// formed, and has an id of its own whose bit is set; no range is empty, and
/// each ends before the next begins.
pub open spec fn pages_wf(pages: Seq<(u64, Page)>, slot_id: u16, bitmap: Seq<bool>) -> bool {
    &&& ranges_ok(pages, slot_id)
    &&& ids_ok(pages, bitmap)
}

/// No range is empty, and each ends before the next begins.
pub open spec fn ranges_ordered(pages: Seq<(u64, Page)>) -> bool {
    &&& forall|i: int| 0 <= i < pages.len() ==> (#[trigger] pages[i]).1@.min_pk < pages[i].1@.max_pk
    &&& forall|i: int, j: int|
        0 <= i && j == i + 1 && j < pages.len() ==> (#[trigger] pages[i]).1@.max_pk <= (
        #[trigger] pages[j]).1@.min_pk
}

/// The ranges of the pages follow one another from 0 to the largest hash.
pub open spec fn tiles(pages: Seq<(u64, Page)>) -> bool {
    &&& pages.len() > 0
    &&& pages[0].1@.min_pk == 0
    &&& pages.last().1@.max_pk == u64::MAX
    &&& ranges_ordered(pages)
    &&& forall|i: int, j: int|
        0 <= i && j == i + 1 && j < pages.len() ==> (#[trigger] pages[i]).1@.max_pk == (
        #[trigger] pages[j]).1@.min_pk
}

/// Every bit that is set is the id of a page.
pub open spec fn bitmap_exact(pages: Seq<(u64, Page)>, bitmap: Seq<bool>) -> bool {
    forall|id: int|
        0 <= id < bitmap.len() && #[trigger] bitmap[id] ==> exists|i: int|
            0 <= i < pages.len() && (#[trigger] pages[i]).1@.id == id
}

/// In a slot that is complete, the bit of an id is set where a page has the
/// id, and nowhere else.
pub proof fn lemma_bitmap_consistency(slot: &Slot, id: int)
    requires
        slot.complete(),
        0 <= id < PAGE_NUM,
    ensures
        slot.bitmap()[id] <==> exists|i: int|
            0 <= i < slot.pages().len() && (#[trigger] slot.pages()[i]).1@.id == id,
{
    if exists|i: int| 0 <= i < slot.pages().len() && (#[trigger] slot.pages()[i]).1@.id == id {
        let i = choose|i: int|
            0 <= i < slot.pages().len() && (#[trigger] slot.pages()[i]).1@.id == id;
        assert(slot.bitmap()[slot.pages()[i].1@.id as int]);
    }
}

/// Whether the range of `page` holds `hash`.
pub open spec fn in_range(page: PageView, hash: u64) -> bool {
    page.min_pk <= hash < page.max_pk
}

/// Where the ranges follow one another, each hash below the largest lies in
/// the range of exactly one page.
pub proof fn lemma_tiles_partition(pages: Seq<(u64, Page)>, hash: u64)
    requires
        tiles(pages),
        hash < u64::MAX,
    ensures
        exists|i: int| 0 <= i < pages.len() && in_range((#[trigger] pages[i]).1@, hash),
        forall|i: int, j: int|
            0 <= i < pages.len() && 0 <= j < pages.len() && in_range(
                (#[trigger] pages[i]).1@,
                hash,
            ) && in_range((#[trigger] pages[j]).1@, hash) ==> i == j,
{
    lemma_tiles_find(pages, hash, pages.len() - 1);
    assert forall|i: int, j: int|
        0 <= i < pages.len() && 0 <= j < pages.len() && in_range((#[trigger] pages[i]).1@, hash)
            && in_range((#[trigger] pages[j]).1@, hash) implies i == j by {
        if i < j {
            lemma_tiles_order(pages, i, j);
        }
        if j < i {
            lemma_tiles_order(pages, j, i);
        }
    }
}

/// A hash below the upper bound of page `k` lies in a page up to `k`.
proof fn lemma_tiles_find(pages: Seq<(u64, Page)>, hash: u64, k: int)
    requires
        tiles(pages),
        0 <= k < pages.len(),
        hash < pages[k].1@.max_pk,
    ensures
        exists|i: int| 0 <= i <= k && in_range((#[trigger] pages[i]).1@, hash),
    decreases k,
{
    if pages[k].1@.min_pk <= hash {
        assert(in_range(pages[k].1@, hash));
    } else {
        assert(k > 0);
        assert(pages[k - 1].1@.max_pk == pages[k].1@.min_pk);
        lemma_tiles_find(pages, hash, k - 1);
    }
}

/// A page ends where a later one begins, or before.
pub proof fn lemma_tiles_order(pages: Seq<(u64, Page)>, i: int, j: int)
    requires
        ranges_ordered(pages),
        0 <= i < j < pages.len(),
    ensures
        pages[i].1@.max_pk <= pages[j].1@.min_pk,
    decreases j - i,
{
    if i + 1 < j {
        lemma_tiles_order(pages, i, j - 1);
        assert(pages[j - 1].1@.max_pk <= pages[j].1@.min_pk);
        assert(pages[j - 1].1@.min_pk < pages[j - 1].1@.max_pk);
    } else {
        assert(pages[i].1@.max_pk <= pages[i + 1].1@.min_pk);
    }
}

/// Some page of `pages` binds `key` to `windows`.
pub open spec fn holds(pages: Seq<(u64, Page)>, key: Seq<char>, windows: Map<u64, ValueKind>) -> bool {
    exists|i: int|
        0 <= i < pages.len() && (#[trigger] pages[i]).1@.data.contains_key(key) && pages[i].1@.data[key]
            == windows
}

/// Each key that the pages bind has a hash that the slot `slot_id` takes.
pub open spec fn keys_routed(pages: Seq<(u64, Page)>, slot_id: int) -> bool {
    forall|key: Seq<char>, windows: Map<u64, ValueKind>| #[trigger]
        holds(pages, key, windows) ==> crate::store::spec_slot_id(crate::spec_calc_hash(key))
            == slot_id
}

/// The pages `a` bind the keys as the pages `b` do.
pub open spec fn same_content(a: Seq<(u64, Page)>, b: Seq<(u64, Page)>) -> bool {
    forall|key: Seq<char>, windows: Map<u64, ValueKind>|
        #![trigger holds(a, key, windows)]
        #![trigger holds(b, key, windows)]
        holds(a, key, windows) == holds(b, key, windows)
}

/// `after` is `before` with another page at index `i` that has the numbers of
/// the page before it.
pub open spec fn page_changed(before: Seq<(u64, Page)>, after: Seq<(u64, Page)>, i: int) -> bool {
    &&& 0 <= i < before.len()
    &&& after.len() == before.len()
    &&& forall|j: int| 0 <= j < before.len() && j != i ==> after[j] == before[j]
    &&& after[i].0 == before[i].0
    &&& after[i].1.wf()
    &&& after[i].1@.slot_id == before[i].1@.slot_id
    &&& after[i].1@.id == before[i].1@.id
    &&& after[i].1@.min_pk == before[i].1@.min_pk
    &&& after[i].1@.max_pk == before[i].1@.max_pk
}

/// A change within one page keeps the pages well formed, their ranges in
/// place and the ids as they were.
pub proof fn lemma_page_changed(
    before: Seq<(u64, Page)>,
    after: Seq<(u64, Page)>,
    i: int,
    slot_id: u16,
    bitmap: Seq<bool>,
)
    requires
        page_changed(before, after, i),
        pages_wf(before, slot_id, bitmap),
    ensures
        pages_wf(after, slot_id, bitmap),
        tiles(before) ==> tiles(after),
        bitmap_exact(before, bitmap) ==> bitmap_exact(after, bitmap),
{
    assert forall|j: int| 0 <= j < after.len() implies (#[trigger] after[j]).0 == before[j].0
        && after[j].1@.slot_id == before[j].1@.slot_id && after[j].1@.id == before[j].1@.id
        && after[j].1@.min_pk == before[j].1@.min_pk && after[j].1@.max_pk == before[j].1@.max_pk
        && after[j].1.wf() by {
        if j != i {
            assert(after[j] == before[j]);
            assert(before[j].1.wf());
        }
    }
    assert(ascending(after)) by {
        assert forall|a: int, b: int| 0 <= a < b < after.len() implies after[a].0 < after[b].0 by {
            assert(before[a].0 < before[b].0);
        }
    }
    assert(ranges_ordered(after)) by {
        assert forall|j: int| 0 <= j < after.len() implies (#[trigger] after[j]).1@.min_pk
            < after[j].1@.max_pk by {
            assert(before[j].1@.min_pk < before[j].1@.max_pk);
        }
        assert forall|j: int, k: int| 0 <= j && k == j + 1 && k < after.len() implies (
        #[trigger] after[j]).1@.max_pk <= (#[trigger] after[k]).1@.min_pk by {
            assert(before[j].1@.max_pk <= before[k].1@.min_pk);
        }
    }
    assert forall|j: int| 0 <= j < after.len() implies {
        let page = (#[trigger] after[j]).1;
        &&& page.wf()
        &&& page@.min_pk == after[j].0
        &&& page@.slot_id == slot_id
        &&& page@.id < bitmap.len()
        &&& bitmap[page@.id as int]
    } by {
        assert(before[j].1@.min_pk == before[j].0);
        assert(bitmap[before[j].1@.id as int]);
    }
    assert forall|a: int, b: int| 0 <= a < b < after.len() implies (#[trigger] after[a]).1@.id != (
    #[trigger] after[b]).1@.id by {
        assert(before[a].1@.id != before[b].1@.id);
    }
    if tiles(before) {
        assert forall|j: int, k: int| 0 <= j && k == j + 1 && k < after.len() implies (
        #[trigger] after[j]).1@.max_pk == (#[trigger] after[k]).1@.min_pk by {
            assert(before[j].1@.max_pk == before[k].1@.min_pk);
        }
    }
    if bitmap_exact(before, bitmap) {
        assert forall|id: int| 0 <= id < bitmap.len() && #[trigger] bitmap[id] implies exists|j: int|
            0 <= j < after.len() && (#[trigger] after[j]).1@.id == id by {
            let j = choose|j: int| 0 <= j < before.len() && (#[trigger] before[j]).1@.id == id;
            assert(after[j].1@.id == id);
        }
    }
}

/// A change that keeps what a page holds keeps what the pages hold.
pub proof fn lemma_page_same_data(before: Seq<(u64, Page)>, after: Seq<(u64, Page)>, i: int)
    requires
        page_changed(before, after, i),
        after[i].1@.data == before[i].1@.data,
    ensures
        same_content(before, after),
{
    assert forall|key: Seq<char>, windows: Map<u64, ValueKind>|
        holds(before, key, windows) == holds(after, key, windows) by {
        if holds(before, key, windows) {
            let j = choose|j: int|
                0 <= j < before.len() && (#[trigger] before[j]).1@.data.contains_key(key)
                    && before[j].1@.data[key] == windows;
            assert(after[j].1@.data.contains_key(key) && after[j].1@.data[key] == windows);
        }
        if holds(after, key, windows) {
            let j = choose|j: int|
                0 <= j < after.len() && (#[trigger] after[j]).1@.data.contains_key(key)
                    && after[j].1@.data[key] == windows;
            assert(before[j].1@.data.contains_key(key) && before[j].1@.data[key] == windows);
        }
    }
}

/// One hash shard: its pages by their lower bound, the ids of its pages, and
/// what waits to be written out.
#[derive(Debug)]
pub struct Slot {
    id: u16,
    data_dir: String,
    /// The bit of each page id in use.
    page_bit_map: BitMap,
    page_tree: OrderedMap<Page>,
    /// Whether the pages' bounds changed since the index was written out.
    index_dirty: Dirty,
    /// The lower bounds of the pages that were changed, first change first.
    dirty_pages: Vec<u64>,
}

impl Slot {
    pub closed spec fn spec_id(&self) -> u16 {
        self.id
    }

    pub closed spec fn spec_data_dir(&self) -> Seq<char> {
        self.data_dir@
    }

    /// The pages with their lower bounds, in ascending order.
    pub closed spec fn pages(&self) -> Seq<(u64, Page)> {
        self.page_tree.entries()
    }

    /// The bit of each page id.
    pub closed spec fn bitmap(&self) -> Seq<bool> {
        self.page_bit_map@
    }

    /// The lower bounds of the pages that wait to be written out.
    pub closed spec fn dirty_queue(&self) -> Seq<u64> {
        self.dirty_pages@
    }

    /// The changes to the pages' bounds that no file holds yet.
    pub closed spec fn index_mark(&self) -> Option<DirtyRecord> {
        self.index_dirty@
    }

    pub closed spec fn inner_wf(&self) -> bool {
        self.page_bit_map.wf()
    }

    /// The slot has a bit for each page id, and its pages are well formed.
    pub open spec fn wf(&self) -> bool {
        &&& self.inner_wf()
        &&& self.bitmap().len() == PAGE_NUM
        &&& pages_wf(self.pages(), self.spec_id(), self.bitmap())
    }

    /// The slot is well formed, the ranges of its pages follow one another
    /// from 0 to the largest hash, and no bit is set but for a page.
    pub open spec fn complete(&self) -> bool {
        &&& self.wf()
        &&& tiles(self.pages())
        &&& bitmap_exact(self.pages(), self.bitmap())
    }

    /// A slot without pages.
    pub fn new(id: u16, data_dir: String) -> (slot: Slot)
        ensures
            slot.wf(),
            slot.spec_id() == id,
            slot.spec_data_dir() == data_dir@,
            slot.pages() == Seq::<(u64, Page)>::empty(),
            slot.bitmap() == Seq::new(PAGE_NUM as nat, |i: int| false),
            slot.dirty_queue() == Seq::<u64>::empty(),
            slot.index_mark() is None,
    {
        let page_bit_map = BitMap::new(262_144);
        let page_tree: OrderedMap<Page> = OrderedMap::new();
        let slot = Slot {
            id,
            data_dir,
            page_bit_map,
            page_tree,
            index_dirty: Dirty::new(),
            dirty_pages: Vec::new(),
        };
        proof {
            assert(slot.pages().len() == 0);
            assert(ranges_ok(slot.pages(), id));
            assert(ids_ok(slot.pages(), slot.bitmap()));
        }
        slot
    }

    pub fn id(&self) -> (id: u16)
        ensures
            id == self.spec_id(),
    {
        self.id
    }

    pub fn data_dir(&self) -> (dir: &String)
        ensures
            dir@ == self.spec_data_dir(),
    {
        &self.data_dir
    }

    /// The number of pages.
    pub fn page_count(&self) -> (n: usize)
        ensures
            n == self.pages().len(),
    {
        self.page_tree.len()
    }

    /// The page with index `i` in the order of the ranges.
    pub fn page_at(&self, i: usize) -> (page: &Page)
        requires
            i < self.pages().len(),
        ensures
            *page == self.pages()[i as int].1,
    {
        self.page_tree.value_at(i)
    }

    /// The lower bound under which the page with index `i` stands.
    pub fn page_key(&self, i: usize) -> (min_pk: u64)
        requires
            i < self.pages().len(),
        ensures
            min_pk == self.pages()[i as int].0,
    {
        self.page_tree.key_at(i)
    }

    /// Whether the bit of page id `page_id` is set.
    pub fn page_id_in_use(&self, page_id: u64) -> (b: bool)
        requires
            self.wf(),
            page_id < PAGE_NUM,
        ensures
            b == self.bitmap()[page_id as int],
    {
        self.page_bit_map.get(page_id)
    }

    /// The changes to the pages' bounds that no file holds yet.
    pub fn index_dirty(&self) -> (record: Option<DirtyRecord>)
        ensures
            record == self.index_mark(),
    {
        self.index_dirty.record()
    }

    /// Makes a new, empty page with the lowest id that is free, and takes
    /// the id. The page does not join the slot's pages. Fails, and changes
    /// nothing, where no id is free.
    pub fn new_page(&mut self, min_pk: u64, max_pk: u64) -> (r: CustomResult<Page>)
        requires
            old(self).wf(),
        ensures
            final(self).wf(),
            final(self).spec_id() == old(self).spec_id(),
            final(self).spec_data_dir() == old(self).spec_data_dir(),
            final(self).pages() == old(self).pages(),
            final(self).dirty_queue() == old(self).dirty_queue(),
            final(self).index_mark() == old(self).index_mark(),
            match r {
                Ok(page) => {
                    &&& page.wf()
                    &&& page.dirty_mark() is None
                    &&& page.entries() == Seq::<(String, crate::feature::value::FeatureValue)>::empty()
                    &&& page@ == (PageView {
                        slot_id: old(self).spec_id(),
                        id: page@.id,
                        min_pk,
                        max_pk,
                        data: Map::empty(),
                    })
                    &&& page@.id < PAGE_NUM
                    &&& !old(self).bitmap()[page@.id as int]
                    &&& forall|j: int| 0 <= j < page@.id ==> old(self).bitmap()[j]
                    &&& final(self).bitmap() == old(self).bitmap().update(page@.id as int, true)
                },
                Err(e) => {
                    &&& e.code == GENERIC_CODE
                    &&& forall|j: int| 0 <= j < PAGE_NUM ==> old(self).bitmap()[j]
                    &&& final(self).bitmap() == old(self).bitmap()
                },
            },
    {
        let page_id = match self.page_bit_map.first_false_value() {
            Some(id) => id,
            None => {
                return Err(common_err(String::from_str("no page id is free")));
            },
        };
        self.page_bit_map.set(page_id, true);
        Ok(Page::new(self.id, page_id, min_pk, max_pk))
    }

    /// Makes a new, empty page with the id `page_id`, and takes the id. The
    /// page does not join the slot's pages.
    pub fn new_page_with(&mut self, page_id: u64, min_pk: u64, max_pk: u64) -> (page: Page)
        requires
            old(self).inner_wf(),
            page_id < old(self).bitmap().len(),
        ensures
            final(self).inner_wf(),
            final(self).spec_id() == old(self).spec_id(),
            final(self).spec_data_dir() == old(self).spec_data_dir(),
            final(self).pages() == old(self).pages(),
            final(self).dirty_queue() == old(self).dirty_queue(),
            final(self).index_mark() == old(self).index_mark(),
            final(self).bitmap() == old(self).bitmap().update(page_id as int, true),
            page.wf(),
            page.dirty_mark() is None,
            page@ == (PageView {
                slot_id: old(self).spec_id(),
                id: page_id,
                min_pk,
                max_pk,
                data: Map::empty(),
            }),
    {
        self.page_bit_map.set(page_id, true);
        Page::new(self.id, page_id, min_pk, max_pk)
    }

    /// Lets no page wait to be written out any more.
    pub fn clear_waiting(&mut self)
        ensures
            final(self).dirty_queue() == Seq::<u64>::empty(),
            final(self).inner_wf() == old(self).inner_wf(),
            final(self).spec_id() == old(self).spec_id(),
            final(self).spec_data_dir() == old(self).spec_data_dir(),
            final(self).pages() == old(self).pages(),
            final(self).bitmap() == old(self).bitmap(),
            final(self).index_mark() == old(self).index_mark(),
    {
        self.dirty_pages = Vec::new();
    }

    /// Gives the id `page_id` back.
    pub fn freed_page(&mut self, page_id: u64)
        requires
            old(self).inner_wf(),
            page_id < old(self).bitmap().len(),
        ensures
            final(self).inner_wf(),
            final(self).spec_id() == old(self).spec_id(),
            final(self).spec_data_dir() == old(self).spec_data_dir(),
            final(self).pages() == old(self).pages(),
            final(self).dirty_queue() == old(self).dirty_queue(),
            final(self).index_mark() == old(self).index_mark(),
            final(self).bitmap() == old(self).bitmap().update(page_id as int, false),
    {
        self.page_bit_map.set(page_id, false);
    }

    /// The page whose range holds `key_hash`, with its lower bound: the last
    /// page that begins at or below `key_hash`, if it ends behind it.
    pub fn get_page(&self, key_hash: u64) -> (r: CustomResult<(u64, &Page)>)
        requires
            self.wf(),
        ensures
            match r {
                Ok((min_pk, page)) => {
                    &&& in_range(page@, key_hash)
                    &&& page@.min_pk == min_pk
                    &&& exists|i: int|
                        0 <= i < self.pages().len() && #[trigger] self.pages()[i] == (min_pk, *page)
                },
                Err(e) => {
                    &&& e.code == GENERIC_CODE
                    &&& forall|i: int|
                        0 <= i < self.pages().len() ==> !in_range(
                            (#[trigger] self.pages()[i]).1@,
                            key_hash,
                        )
                },
            },
    {
        match self.page_index(key_hash) {
            Some(i) => Ok((self.page_tree.key_at(i), self.page_tree.value_at(i))),
            None => Err(common_err(String::from_str("no page holds the hash"))),
        }
    }

    /// The index of the page whose range holds `key_hash`.
    pub fn page_index(&self, key_hash: u64) -> (found: Option<usize>)
        requires
            self.wf(),
        ensures
            match found {
                Some(i) => i < self.pages().len() && in_range(self.pages()[i as int].1@, key_hash),
                None => forall|i: int|
                    0 <= i < self.pages().len() ==> !in_range(
                        (#[trigger] self.pages()[i]).1@,
                        key_hash,
                    ),
            },
    {
        match self.page_tree.floor_index(key_hash) {
            Some(i) => {
                if key_hash < self.page_tree.value_at(i).max_pk() {
                    Some(i)
                } else {
                    assert forall|j: int| 0 <= j < self.pages().len() implies !in_range(
                        (#[trigger] self.pages()[j]).1@,
                        key_hash,
                    ) by {
                        if j < i {
                            lemma_tiles_order(self.pages(), j, i as int);
                        }
                    }
                    None
                }
            },
            None => None,
        }
    }

    /// The page with index `i`, to be changed in place.
    pub fn page_mut(&mut self, i: usize) -> (page: &mut Page)
        requires
            i < old(self).pages().len(),
        ensures
            *page == old(self).pages()[i as int].1,
            final(self).pages() == old(self).pages().update(
                i as int,
                (old(self).pages()[i as int].0, *final(page)),
            ),
            final(self).inner_wf() == old(self).inner_wf(),
            final(self).spec_id() == old(self).spec_id(),
            final(self).spec_data_dir() == old(self).spec_data_dir(),
            final(self).bitmap() == old(self).bitmap(),
            final(self).dirty_queue() == old(self).dirty_queue(),
            final(self).index_mark() == old(self).index_mark(),
    {
        self.page_tree.value_mut(i)
    }

    /// Takes the page with index `i` out of the slot's pages; its id stays
    /// taken.
    pub fn take_page(&mut self, i: usize) -> (page: Page)
        requires
            old(self).wf(),
            i < old(self).pages().len(),
        ensures
            page == old(self).pages()[i as int].1,
            final(self).pages() == old(self).pages().remove(i as int),
            final(self).inner_wf(),
            final(self).spec_id() == old(self).spec_id(),
            final(self).spec_data_dir() == old(self).spec_data_dir(),
            final(self).bitmap() == old(self).bitmap(),
            final(self).dirty_queue() == old(self).dirty_queue(),
            final(self).index_mark() == old(self).index_mark(),
    {
        self.page_tree.remove_at(i).1
    }

    /// Puts `page` among the slot's pages at index `i`, under its lower
    /// bound, which must lie between the bounds before and behind it.
    pub fn put_page(&mut self, i: usize, page: Page)
        requires
            ascending(old(self).pages()),
            i <= old(self).pages().len(),
            forall|j: int| 0 <= j < i ==> old(self).pages()[j].0 < page@.min_pk,
            forall|j: int| i <= j < old(self).pages().len() ==> page@.min_pk < old(self).pages()[j].0,
        ensures
            final(self).pages() == old(self).pages().insert(i as int, (page@.min_pk, page)),
            ascending(final(self).pages()),
            final(self).inner_wf() == old(self).inner_wf(),
            final(self).spec_id() == old(self).spec_id(),
            final(self).spec_data_dir() == old(self).spec_data_dir(),
            final(self).bitmap() == old(self).bitmap(),
            final(self).dirty_queue() == old(self).dirty_queue(),
            final(self).index_mark() == old(self).index_mark(),
    {
        let key = page.min_pk();
        self.page_tree.insert_at(i, key, page);
    }

    /// The index of the page that begins at `min_pk`.
    pub fn index_of_page(&self, min_pk: u64) -> (found: Option<usize>)
        requires
            ascending(self.pages()),
        ensures
            match found {
                Some(i) => i < self.pages().len() && self.pages()[i as int].0 == min_pk,
                None => forall|i: int| 0 <= i < self.pages().len() ==> self.pages()[i].0 != min_pk,
            },
    {
        match self.page_tree.search(min_pk) {
            Place::At(i) => Some(i),
            Place::Before(_) => None,
        }
    }

    /// Notes that action `action_id` changed the bounds of the pages.
    pub fn mark_index_dirty(&mut self, action_id: u64)
        ensures
            final(self).index_mark() == Some(Dirty::spec_update(old(self).index_mark(), action_id)),
            final(self).pages() == old(self).pages(),
            final(self).inner_wf() == old(self).inner_wf(),
            final(self).spec_id() == old(self).spec_id(),
            final(self).spec_data_dir() == old(self).spec_data_dir(),
            final(self).bitmap() == old(self).bitmap(),
            final(self).dirty_queue() == old(self).dirty_queue(),
    {
        self.index_dirty.update(action_id);
    }

    /// Notes that a file holds the bounds of the pages as they are.
    pub fn reset_index_dirty(&mut self)
        ensures
            final(self).index_mark() is None,
            final(self).pages() == old(self).pages(),
            final(self).inner_wf() == old(self).inner_wf(),
            final(self).spec_id() == old(self).spec_id(),
            final(self).spec_data_dir() == old(self).spec_data_dir(),
            final(self).bitmap() == old(self).bitmap(),
            final(self).dirty_queue() == old(self).dirty_queue(),
    {
        self.index_dirty.reset();
    }

    /// Notes that action `action_id` changed the page with index `i`; a page
    /// that was clean joins those that wait to be written out.
    pub fn after_update(&mut self, i: usize, action_id: u64)
        requires
            i < old(self).pages().len(),
        ensures
            final(self).pages().len() == old(self).pages().len(),
            final(self).pages()[i as int].0 == old(self).pages()[i as int].0,
            final(self).pages()[i as int].1@ == old(self).pages()[i as int].1@,
            final(self).pages()[i as int].1.entries() == old(self).pages()[i as int].1.entries(),
            final(self).pages()[i as int].1.dirty_mark() == Some(
                Dirty::spec_update(old(self).pages()[i as int].1.dirty_mark(), action_id),
            ),
            forall|j: int|
                0 <= j < final(self).pages().len() && j != i ==> final(self).pages()[j] == old(
                    self,
                ).pages()[j],
            final(self).dirty_queue() == if old(self).pages()[i as int].1.dirty_mark() is None {
                old(self).dirty_queue().push(old(self).pages()[i as int].1@.min_pk)
            } else {
                old(self).dirty_queue()
            },
            final(self).inner_wf() == old(self).inner_wf(),
            final(self).spec_id() == old(self).spec_id(),
            final(self).spec_data_dir() == old(self).spec_data_dir(),
            final(self).bitmap() == old(self).bitmap(),
            final(self).index_mark() == old(self).index_mark(),
    {
        let page = self.page_tree.value_mut(i);
        page.after_update(action_id, &mut self.dirty_pages);
    }

    /// The lower bounds in `keys` that are bounds of pages in `pages`, in the
    /// order of `keys`.
    pub open spec fn present(keys: Seq<u64>, pages: Map<u64, Page>) -> Seq<u64>
        decreases keys.len(),
    {
        if keys.len() == 0 {
            Seq::empty()
        } else if pages.contains_key(keys.last()) {
            Self::present(keys.drop_last(), pages).push(keys.last())
        } else {
            Self::present(keys.drop_last(), pages)
        }
    }

    /// Takes up to ten lower bounds from the front of those that wait to be
    /// written out, and returns the ones at which a page still begins.
    pub fn get_wait_store_page(&mut self) -> (keys: Vec<u64>)
        requires
            old(self).wf(),
        ensures
            final(self).wf(),
            final(self).pages() == old(self).pages(),
            final(self).spec_id() == old(self).spec_id(),
            final(self).spec_data_dir() == old(self).spec_data_dir(),
            final(self).bitmap() == old(self).bitmap(),
            final(self).index_mark() == old(self).index_mark(),
            ({
                let n = if old(self).dirty_queue().len() < 10 {
                    old(self).dirty_queue().len() as int
                } else {
                    10
                };
                &&& final(self).dirty_queue() == old(self).dirty_queue().skip(n)
                &&& keys@ == Self::present(
                    old(self).dirty_queue().take(n),
                    entries_map(old(self).pages()),
                )
            }),
    {
        let n: usize = if self.dirty_pages.len() < 10 {
            self.dirty_pages.len()
        } else {
            10
        };
        let mut keys: Vec<u64> = Vec::new();
        let mut i: usize = 0;
        let ghost queue = self.dirty_pages@;
        proof {
            assert(queue.take(0) =~= Seq::empty());
            assert(queue.skip(0) =~= queue);
            self.page_tree.lemma_view();
        }
        while i < n
            invariant
                i <= n <= queue.len(),
                queue == old(self).dirty_queue(),
                self.dirty_pages@ == queue.skip(i as int),
                self.page_tree == old(self).page_tree,
                self.page_tree.wf(),
                self.page_tree@ == entries_map(old(self).pages()),
                self.page_bit_map == old(self).page_bit_map,
                self.index_dirty == old(self).index_dirty,
                self.id == old(self).id,
                self.data_dir == old(self).data_dir,
                keys@ == Self::present(queue.take(i as int), entries_map(old(self).pages())),
            decreases n - i,
        {
            let key = self.dirty_pages.remove(0);
            proof {
                assert(queue.take(i + 1).drop_last() =~= queue.take(i as int));
                assert(queue.take(i + 1).last() == key);
                assert(queue.skip(i as int).remove(0) =~= queue.skip(i + 1));
            }
            if self.page_tree.contains_key(key) {
                keys.push(key);
            }
            i = i + 1;
        }
        keys
    }
}

} // verus!
