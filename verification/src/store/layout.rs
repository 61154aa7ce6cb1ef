//! Laying the pages of a slot out as the index of its pages says.
use crate::store::flush::{
    chain, keyed, lemma_same_content_transitive, lemma_spliced_content, lemma_spliced_ranges,
    spliced,
};
use crate::store::page::Page;
use crate::store::slot::{
    bitmap_exact, ids_ok, lemma_page_changed, lemma_page_same_data, page_changed, same_content,
    Slot, PAGE_NUM,
};
use crate::store::split::{bounds_ascending, distribute, hash_groups, pages_on_bounds};
use crate::store::wire::{be_value, cursor_rest, new_cursor, read_u64};
use crate::store::DirtyRecord;
use crate::tools::bitmap::BitMap;
use vstd::prelude::*;

verus! {

/// The pairs of a lower bound and a page id that the bytes of an index
/// spell: each in eight bytes, the high byte first.
pub open spec fn spec_index_pairs(s: Seq<u8>) -> Seq<(u64, u64)>
    decreases s.len(),
{
    if s.len() < 16 {
        Seq::empty()
    } else {
        seq![(be_value(s.take(8)) as u64, be_value(s.skip(8).take(8)) as u64)] + spec_index_pairs(
            s.skip(16),
        )
    }
}

/// The pairs of a lower bound and a page id that the bytes `bytes` of an
/// index spell. There are none where the bytes are not whole pairs.
pub fn read_index(bytes: &[u8]) -> (r: Option<Vec<(u64, u64)>>)
    ensures
        match r {
            Some(pairs) => bytes@.len() % 16 == 0 && pairs@ == spec_index_pairs(bytes@),
            None => bytes@.len() % 16 != 0,
        },
{
    if bytes.len() % 16 != 0 {
        return None;
    }
    let mut cursor = new_cursor(bytes);
    let mut pairs: Vec<(u64, u64)> = Vec::new();
    proof {
        assert(cursor_rest(cursor) =~= bytes@);
    }
    loop
        invariant
            bytes@.len() % 16 == 0,
            spec_index_pairs(bytes@) == pairs@ + spec_index_pairs(cursor_rest(cursor)),
            cursor_rest(cursor).len() % 16 == 0,
        decreases cursor_rest(cursor).len(),
    {
        let ghost rest = cursor_rest(cursor);
        let ghost held = pairs@;
        let min_pk = match read_u64(&mut cursor) {
            Some(v) => v,
            None => {
                proof {
                    assert(rest.len() == 0);
                    assert(held + Seq::<(u64, u64)>::empty() =~= held);
                }
                return Some(pairs);
            },
        };
        let page_id = match read_u64(&mut cursor) {
            Some(v) => v,
            None => {
                proof {
                    assert(rest.len() >= 16);
                    assert(rest.skip(8).len() >= 8);
                }
                return Some(pairs);
            },
        };
        pairs.push((min_pk, page_id));
        proof {
            assert(rest.skip(8).skip(8) =~= rest.skip(16));
            assert(held + (seq![(min_pk, page_id)] + spec_index_pairs(rest.skip(16))) =~= held.push(
                (min_pk, page_id),
            ) + spec_index_pairs(rest.skip(16)));
        }
    }
}

/// Whether the pairs of a lower bound and a page id can be the pages of a
/// slot: there is one, the first begins at 0, the bounds ascend and leave
/// the last page a range, and the ids are ids of pages and differ from one
/// another.
pub open spec fn proper(pairs: Seq<(u64, u64)>) -> bool {
    &&& pairs.len() >= 1
    &&& pairs[0].0 == 0
    &&& forall|a: int, b: int| 0 <= a < b < pairs.len() ==> pairs[a].0 < pairs[b].0
    &&& pairs.last().0 < u64::MAX
    &&& forall|k: int| 0 <= k < pairs.len() ==> (#[trigger] pairs[k]).1 < PAGE_NUM
    &&& forall|a: int, b: int| 0 <= a < b < pairs.len() ==> pairs[a].1 != pairs[b].1
}

/// Whether the pairs can be the pages of a slot.
pub fn is_proper(pairs: &Vec<(u64, u64)>) -> (b: bool)
    ensures
        b == proper(pairs@),
{
    let n = pairs.len();
    if n == 0 || pairs[0].0 != 0 || pairs[n - 1].0 == u64::MAX {
        return false;
    }
    let mut seen = BitMap::new(262_144);
    let mut k: usize = 0;
    while k < n
        invariant
            n == pairs@.len(),
            k <= n,
            seen.wf(),
            seen@.len() == PAGE_NUM,
            forall|a: int, b: int| 0 <= a < b < k ==> pairs@[a].0 < pairs@[b].0,
            forall|j: int| 0 <= j < k ==> (#[trigger] pairs@[j]).1 < PAGE_NUM,
            forall|a: int, b: int| 0 <= a < b < k ==> pairs@[a].1 != pairs@[b].1,
            forall|id: int|
                0 <= id < PAGE_NUM ==> (#[trigger] seen@[id] == exists|j: int|
                    0 <= j < k && (#[trigger] pairs@[j]).1 == id),
        decreases n - k,
    {
        let (min_pk, page_id) = pairs[k];
        if k > 0 && pairs[k - 1].0 >= min_pk {
            return false;
        }
        if page_id >= 262_144 {
            proof {
                assert(!(pairs@[k as int].1 < PAGE_NUM));
            }
            return false;
        }
        if seen.get(page_id) {
            proof {
                let j = choose|j: int| 0 <= j < k && (#[trigger] pairs@[j]).1 == page_id;
                assert(pairs@[j].1 == pairs@[k as int].1);
            }
            return false;
        }
        let ghost before = seen@;
        seen.set(page_id, true);
        proof {
            assert forall|a: int, b: int| 0 <= a < b < k + 1 implies pairs@[a].0 < pairs@[b].0 by {
                if b == k && a < k - 1 {
                    assert(pairs@[a].0 < pairs@[k - 1].0);
                }
            }
            assert forall|a: int, b: int| 0 <= a < b < k + 1 implies pairs@[a].1 != pairs@[b].1 by {
                if b == k {
                    assert(!before[page_id as int]);
                }
            }
            assert forall|id: int| 0 <= id < PAGE_NUM implies (#[trigger] seen@[id] == exists|j: int|
                0 <= j < k + 1 && (#[trigger] pairs@[j]).1 == id) by {
                if id == page_id {
                    assert(pairs@[k as int].1 == id);
                } else {
                    if before[id] {
                        let j = choose|j: int| 0 <= j < k && (#[trigger] pairs@[j]).1 == id;
                        assert(pairs@[j].1 == id);
                    }
                    if exists|j: int| 0 <= j < k + 1 && (#[trigger] pairs@[j]).1 == id {
                        let j = choose|j: int| 0 <= j < k + 1 && (#[trigger] pairs@[j]).1 == id;
                        assert(j < k);
                    }
                }
            }
        }
        k = k + 1;
    }
    true
}

/// The lower bounds of the pairs.
pub open spec fn bounds_of(pairs: Seq<(u64, u64)>) -> Seq<u64> {
    Seq::new(pairs.len(), |k: int| pairs[k].0)
}

/// Whether the slot `after` has the pages that `pairs` tells of, each with
/// its lower bound and its id, and each with the mark that the one page of
/// the slot `before` had. The pages wait to be written out where that page
/// was marked, and no page waits where it was clean.
pub open spec fn laid_out(before: Slot, after: Slot, pairs: Seq<(u64, u64)>) -> bool {
    let held = before.pages()[0].1;
    &&& after.pages().len() == pairs.len()
    &&& forall|k: int|
        0 <= k < after.pages().len() ==> {
            let page = (#[trigger] after.pages()[k]).1;
            &&& after.pages()[k].0 == pairs[k].0
            &&& page@.id == pairs[k].1
            &&& page@.min_pk == pairs[k].0
            &&& page@.max_pk == if k + 1 < pairs.len() {
                pairs[k + 1].0
            } else {
                u64::MAX
            }
            &&& page.dirty_mark() == held.dirty_mark()
        }
    &&& after.index_mark() == before.index_mark()
    &&& after.dirty_queue() == if held.dirty_mark() is Some {
        bounds_of(pairs)
    } else {
        Seq::<u64>::empty()
    }
}

impl Slot {
    /// Makes empty pages with the lower bounds and the ids of `pairs`, and
    /// takes the ids. Returns the pages and the bounds.
    #[verifier::rlimit(30)]
    fn allocate_ids(&mut self, pairs: &Vec<(u64, u64)>) -> (r: (Vec<Page>, Vec<u64>))
        requires
            old(self).inner_wf(),
            old(self).bitmap().len() == PAGE_NUM,
            proper(pairs@),
        ensures
            final(self).inner_wf(),
            final(self).spec_id() == old(self).spec_id(),
            final(self).spec_data_dir() == old(self).spec_data_dir(),
            final(self).pages() == old(self).pages(),
            final(self).dirty_queue() == old(self).dirty_queue(),
            final(self).index_mark() == old(self).index_mark(),
            final(self).bitmap().len() == PAGE_NUM,
            r.1@ == bounds_of(pairs@),
            r.0@.len() == pairs@.len(),
            pages_on_bounds(r.0@, r.1@, u64::MAX, old(self).spec_id()),
            forall|k: int|
                0 <= k < r.0@.len() ==> (#[trigger] r.0@[k])@.id == pairs@[k].1 && r.0@[k]@.data
                    == Map::<Seq<char>, Map<u64, crate::feature::value::ValueKind>>::empty(),
            forall|id: int|
                0 <= id < PAGE_NUM ==> (#[trigger] final(self).bitmap()[id] == (old(self).bitmap()[id]
                    || exists|k: int| 0 <= k < pairs@.len() && (#[trigger] pairs@[k]).1 == id)),
    {
        let n = pairs.len();
        let mut pages: Vec<Page> = Vec::new();
        let mut bounds: Vec<u64> = Vec::new();
        let mut k: usize = 0;
        while k < n
            invariant
                n == pairs@.len(),
                k <= n,
                proper(pairs@),
                self.inner_wf(),
                self.spec_id() == old(self).spec_id(),
                self.spec_data_dir() == old(self).spec_data_dir(),
                self.pages() == old(self).pages(),
                self.dirty_queue() == old(self).dirty_queue(),
                self.index_mark() == old(self).index_mark(),
                self.bitmap().len() == PAGE_NUM,
                pages@.len() == k,
                bounds@ == bounds_of(pairs@).take(k as int),
                forall|j: int|
                    0 <= j < k ==> {
                        let page = #[trigger] pages@[j];
                        &&& page.wf()
                        &&& page.dirty_mark() is None
                        &&& page@.slot_id == old(self).spec_id()
                        &&& page@.id == pairs@[j].1
                        &&& page@.min_pk == pairs@[j].0
                        &&& page@.max_pk == if j + 1 < n {
                            pairs@[j + 1].0
                        } else {
                            u64::MAX
                        }
                        &&& page@.data == Map::<
                            Seq<char>,
                            Map<u64, crate::feature::value::ValueKind>,
                        >::empty()
                    },
                forall|id: int|
                    0 <= id < PAGE_NUM ==> (#[trigger] self.bitmap()[id] == (old(self).bitmap()[id]
                        || exists|j: int| 0 <= j < k && (#[trigger] pairs@[j]).1 == id)),
            decreases n - k,
        {
            let (min_pk, page_id) = pairs[k];
            let max_pk = if k + 1 < n {
                pairs[k + 1].0
            } else {
                u64::MAX
            };
            let ghost bits = self.bitmap();
            let ghost held = pages@;
            assert(pairs@[k as int].1 < PAGE_NUM);
            let page = self.new_page_with(page_id, min_pk, max_pk);
            pages.push(page);
            bounds.push(min_pk);
            proof {
                assert(bounds@ =~= bounds_of(pairs@).take(k + 1));
                assert forall|j: int| 0 <= j < k + 1 implies {
                    let page = #[trigger] pages@[j];
                    &&& page.wf()
                    &&& page.dirty_mark() is None
                    &&& page@.slot_id == old(self).spec_id()
                    &&& page@.id == pairs@[j].1
                    &&& page@.min_pk == pairs@[j].0
                    &&& page@.max_pk == if j + 1 < n {
                        pairs@[j + 1].0
                    } else {
                        u64::MAX
                    }
                    &&& page@.data == Map::<
                        Seq<char>,
                        Map<u64, crate::feature::value::ValueKind>,
                    >::empty()
                } by {
                    if j < k {
                        assert(pages@[j] == held[j]);
                    }
                }
                assert forall|id: int| 0 <= id < PAGE_NUM implies (#[trigger] self.bitmap()[id] == (old(
                    self,
                ).bitmap()[id] || exists|j: int| 0 <= j < k + 1 && (#[trigger] pairs@[j]).1 == id)) by {
                    if id == page_id {
                        assert(pairs@[k as int].1 == id);
                    } else {
                        if exists|j: int| 0 <= j < k + 1 && (#[trigger] pairs@[j]).1 == id {
                            let j = choose|j: int| 0 <= j < k + 1 && (#[trigger] pairs@[j]).1 == id;
                            assert(j < k);
                        }
                        if exists|j: int| 0 <= j < k && (#[trigger] pairs@[j]).1 == id {
                            let j = choose|j: int| 0 <= j < k && (#[trigger] pairs@[j]).1 == id;
                            assert(pairs@[j].1 == id);
                        }
                    }
                }
            }
            k = k + 1;
        }
        proof {
            assert(bounds@ =~= bounds_of(pairs@));
        }
        (pages, bounds)
    }

    /// Gives the page with index `k`, which is clean, the mark `mark`; the
    /// page waits to be written out.
    fn mark_page(&mut self, k: usize, mark: DirtyRecord)
        requires
            old(self).complete(),
            k < old(self).pages().len(),
            old(self).pages()[k as int].1.dirty_mark() is None,
        ensures
            final(self).complete(),
            final(self).spec_id() == old(self).spec_id(),
            final(self).spec_data_dir() == old(self).spec_data_dir(),
            final(self).bitmap() == old(self).bitmap(),
            final(self).index_mark() == old(self).index_mark(),
            page_changed(old(self).pages(), final(self).pages(), k as int),
            final(self).pages()[k as int].0 == old(self).pages()[k as int].0,
            final(self).pages()[k as int].1@ == old(self).pages()[k as int].1@,
            final(self).pages()[k as int].1.dirty_mark() == Some(mark),
            final(self).dirty_queue() == old(self).dirty_queue().push(
                old(self).pages()[k as int].1@.min_pk,
            ),
            same_content(old(self).pages(), final(self).pages()),
    {
        let ghost before = self.pages();
        self.after_update(k, mark.first_action_id);
        self.after_update(k, mark.last_action_id);
        proof {
            let after = self.pages();
            assert(before[k as int].1.wf());
            after[k as int].1.lemma_same_entries_wf(&before[k as int].1);
            assert(page_changed(before, after, k as int));
            lemma_page_changed(before, after, k as int, self.spec_id(), self.bitmap());
            lemma_page_same_data(before, after, k as int);
        }
    }

    /// Lays the pages of the slot out as `pairs` tells: a page for each
    /// pair, with its lower bound and its id, that holds the keys whose hash
    /// lies in its range. Says whether that was done: it is where the slot
    /// has one page and `pairs` can be the pages of a slot. Else nothing
    /// changes.
    ///
    /// The pages hold together what the one page held, and have its mark.
    #[verifier::rlimit(30)]
    pub fn restore_layout(&mut self, pairs: &Vec<(u64, u64)>) -> (done: bool)
        requires
            old(self).complete(),
        ensures
            final(self).complete(),
            final(self).spec_id() == old(self).spec_id(),
            final(self).spec_data_dir() == old(self).spec_data_dir(),
            same_content(old(self).pages(), final(self).pages()),
            done == (old(self).pages().len() == 1 && proper(pairs@)),
            done ==> laid_out(*old(self), *final(self), pairs@),
            !done ==> *final(self) == *old(self),
    {
        if self.page_count() != 1 || !is_proper(pairs) {
            return false;
        }
        let ghost before = self.pages();
        let ghost bits = self.bitmap();
        let ghost slot_id = self.spec_id();
        let held = self.take_page(0);
        proof {
            assert(before[0].1 == held);
            assert(held.wf());
            assert(held@.min_pk == 0 && held@.max_pk == u64::MAX);
            assert(held@.id < PAGE_NUM && bits[held@.id as int]);
            assert(self.pages() =~= Seq::<(u64, Page)>::empty());
        }
        self.freed_page(held.id());
        proof {
            assert forall|id: int| 0 <= id < PAGE_NUM implies !(#[trigger] self.bitmap()[id]) by {
                if id != held@.id && bits[id] {
                    let x = choose|x: int| 0 <= x < before.len() && (#[trigger] before[x]).1@.id == id;
                    assert(x == 0);
                }
            }
        }
        let ghost cleared = self.bitmap();
        let (mut made, bounds) = self.allocate_ids(pairs);
        let (_groups, hashes) = hash_groups(&held);
        proof {
            assert(bounds_ascending(bounds@));
            assert(bounds@[0] == held@.min_pk);
        }
        distribute(&held, &hashes, &bounds, &mut made, Ghost(slot_id));
        let ghost all = made@;
        proof {
            assert forall|a: int, b: int| 0 <= a < b < all.len() implies (#[trigger] all[a])@.min_pk
                < (#[trigger] all[b])@.min_pk by {
                assert(all[a]@.min_pk == bounds@[a] && all[b]@.min_pk == bounds@[b]);
            }
        }
        self.insert_run(0, made);
        self.clear_waiting();
        proof {
            let now = self.pages();
            assert(now =~= keyed(all));
            assert(spliced(before, 0, all) =~= keyed(all)) by {
                reveal(spliced);
            }
            assert(chain(all, held@.min_pk, held@.max_pk, slot_id)) by {
                assert forall|k: int| 0 <= k < all.len() implies {
                    let page = #[trigger] all[k];
                    &&& page.wf()
                    &&& page@.slot_id == slot_id
                    &&& page@.min_pk < page@.max_pk
                } by {
                    if k + 1 < all.len() {
                        assert(bounds@[k] < bounds@[k + 1]);
                    }
                }
                assert forall|k: int, l: int| 0 <= k && l == k + 1 && l < all.len() implies (
                #[trigger] all[k])@.max_pk == (#[trigger] all[l])@.min_pk by {}
            }
            lemma_spliced_ranges(before, 0, all, slot_id);
            lemma_spliced_content(before, 0, all);
            assert(ids_ok(now, self.bitmap())) by {
                assert forall|i: int| 0 <= i < now.len() implies (#[trigger] now[i]).1@.id
                    < self.bitmap().len() && self.bitmap()[now[i].1@.id as int] by {
                    assert(all[i]@.id == pairs@[i].1);
                    assert(pairs@[i].1 < PAGE_NUM);
                }
                assert forall|i: int, j: int| 0 <= i < j < now.len() implies (#[trigger] now[i]).1@.id
                    != (#[trigger] now[j]).1@.id by {
                    assert(all[i]@.id == pairs@[i].1 && all[j]@.id == pairs@[j].1);
                }
            }
            assert(bitmap_exact(now, self.bitmap())) by {
                assert forall|id: int| 0 <= id < self.bitmap().len() && #[trigger] self.bitmap()[id] implies exists|
                    i: int,
                | 0 <= i < now.len() && (#[trigger] now[i]).1@.id == id by {
                    assert(!cleared[id]);
                    let k = choose|k: int| 0 <= k < pairs@.len() && (#[trigger] pairs@[k]).1 == id;
                    assert(now[k].1@.id == id);
                }
            }
        }
        let ghost laid = self.pages();
        match held.dirty() {
            None => {},
            Some(mark) => {
                let n = self.page_count();
                let mut k: usize = 0;
                proof {
                    assert(bounds_of(pairs@).take(0) =~= Seq::<u64>::empty());
                }
                while k < n
                    invariant
                        self.complete(),
                        n == laid.len(),
                        n == pairs@.len(),
                        k <= n,
                        self.pages().len() == n,
                        self.spec_id() == old(self).spec_id(),
                        self.spec_data_dir() == old(self).spec_data_dir(),
                        self.index_mark() == old(self).index_mark(),
                        same_content(laid, self.pages()),
                        forall|j: int|
                            0 <= j < n ==> (#[trigger] self.pages()[j]).0 == laid[j].0
                                && self.pages()[j].1@ == laid[j].1@,
                        forall|j: int| 0 <= j < n ==> (#[trigger] laid[j]).1@.min_pk == pairs@[j].0,
                        forall|j: int| 0 <= j < k ==> (#[trigger] self.pages()[j]).1.dirty_mark() == Some(mark),
                        forall|j: int| k <= j < n ==> (#[trigger] self.pages()[j]).1.dirty_mark() is None,
                        self.dirty_queue() == bounds_of(pairs@).take(k as int),
                    decreases n - k,
                {
                    let ghost held_pages = self.pages();
                    self.mark_page(k, mark);
                    proof {
                        lemma_same_content_transitive(laid, held_pages, self.pages());
                        assert forall|j: int| 0 <= j < n implies (#[trigger] self.pages()[j]).0 == laid[j].0
                            && self.pages()[j].1@ == laid[j].1@ by {
                            if j != k {
                                assert(self.pages()[j] == held_pages[j]);
                            }
                            assert(held_pages[j].0 == laid[j].0);
                        }
                        assert forall|j: int| 0 <= j < k + 1 implies (#[trigger] self.pages()[j]).1.dirty_mark()
                            == Some(mark) by {
                            if j != k {
                                assert(self.pages()[j] == held_pages[j]);
                            }
                        }
                        assert forall|j: int| k + 1 <= j < n implies (#[trigger] self.pages()[j]).1.dirty_mark() is None by {
                            assert(self.pages()[j] == held_pages[j]);
                        }
                        assert(self.dirty_queue() =~= bounds_of(pairs@).take(k + 1));
                    }
                    k = k + 1;
                }
                proof {
                    assert(bounds_of(pairs@).take(n as int) =~= bounds_of(pairs@));
                }
            },
        }
        proof {
            lemma_same_content_transitive(before, laid, self.pages());
        }
        true
    }
}

} // verus!
