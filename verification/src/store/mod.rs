//! The paged store: slots of pages, their write-ahead log and recovery.
use crate::custom_error::{common_err, CustomResult, GENERIC_CODE};
use crate::feature::value::ValueKind;
use crate::spec_calc_hash;
use crate::store::flush::{write_views, FileWrite};
use crate::store::layout::{laid_out, proper, read_index, spec_index_pairs};
use crate::store::page::{Page};
use crate::store::slot::{
    holds, in_range, keys_routed, lemma_page_changed, lemma_tiles_order, lemma_tiles_partition,
    page_changed,
    same_content, Slot,
};
use crate::store::wal::Wal;
use vstd::prelude::*;
use vstd::string::StringExecFns;

pub mod flush;
pub mod layout;
pub mod page;
pub mod recover;
pub mod repair;
pub mod slot;
pub mod split;
pub mod wal;
pub mod wire;

verus! {

/// The first and the last action that changed something since it was last
/// written out.
#[derive(Debug, Clone, Copy, PartialEq, Eq, Structural)]
pub struct DirtyRecord {
    pub first_action_id: u64,
    pub last_action_id: u64,
}

/// Whether something was changed since it was last written out, and by
/// which actions.
#[derive(Debug)]
pub struct Dirty(Option<DirtyRecord>);

impl View for Dirty {
    type V = Option<DirtyRecord>;

    closed spec fn view(&self) -> Option<DirtyRecord> {
        self.0
    }
}

impl Dirty {
    /// A clean mark.
    pub fn new() -> (d: Dirty)
        ensures
            d@ is None,
    {
        Dirty(None)
    }

    pub fn is_dirty(&self) -> (b: bool)
        ensures
            b == (self@ is Some),
    {
        self.0.is_some()
    }

    /// The actions that the mark holds, none where it is clean.
    pub fn record(&self) -> (r: Option<DirtyRecord>)
        ensures
            r == self@,
    {
        self.0
    }

    /// What the mark holds after action `action_id`: the first action stays
    /// where there was one.
    pub open spec fn spec_update(before: Option<DirtyRecord>, action_id: u64) -> DirtyRecord {
        match before {
            None => DirtyRecord { first_action_id: action_id, last_action_id: action_id },
            Some(record) => DirtyRecord {
                first_action_id: record.first_action_id,
                last_action_id: action_id,
            },
        }
    }

    /// Notes the action `action_id`; says whether the mark was clean.
    pub fn update(&mut self, action_id: u64) -> (first_update: bool)
        ensures
            final(self)@ == Some(Self::spec_update(old(self)@, action_id)),
            first_update == (old(self)@ is None),
    {
        match self.0 {
            None => {
                self.0 = Some(
                    DirtyRecord { first_action_id: action_id, last_action_id: action_id },
                );
                true
            },
            Some(record) => {
                self.0 = Some(
                    DirtyRecord {
                        first_action_id: record.first_action_id,
                        last_action_id: action_id,
                    },
                );
                false
            },
        }
    }

    /// Makes the mark clean.
    pub fn reset(&mut self)
        ensures
            final(self)@ is None,
    {
        self.0 = None;
    }
}

/// The number of slots of a store.
pub const SLOT_COUNT: usize = 4096;

/// The slot of the keys with hash `key_hash`: the twelve high bits of the
/// hash.
pub open spec fn spec_slot_id(key_hash: u64) -> u16 {
    (key_hash >> 52) as u16
}

pub proof fn lemma_slot_id_bound(key_hash: u64)
    ensures
        (key_hash >> 52) < 4096,
{
    assert((key_hash >> 52) < 4096) by (bit_vector);
}

/// The slot of the keys with hash `key_hash`.
pub fn slot_id_of(key_hash: u64) -> (slot_id: u16)
    ensures
        slot_id == spec_slot_id(key_hash),
        slot_id < SLOT_COUNT,
{
    proof {
        lemma_slot_id_bound(key_hash);
    }
    (key_hash >> 52) as u16
}

/// The order of pages for locking: by slot, and within a slot by lower
/// bound.
pub open spec fn pair_less(a: (u16, u64), b: (u16, u64)) -> bool {
    a.0 < b.0 || (a.0 == b.0 && a.1 < b.1)
}

/// Whether `a` comes before `b` in the order of pages for locking.
fn pair_before(a: (u16, u64), b: (u16, u64)) -> (r: bool)
    ensures
        r == pair_less(a, b),
{
    a.0 < b.0 || (a.0 == b.0 && a.1 < b.1)
}

/// Puts `page` into `order` at its place, unless it is there.
fn insert_pair(order: &mut Vec<(u16, u64)>, page: (u16, u64))
    requires
        forall|a: int, b: int|
            0 <= a < b < old(order)@.len() ==> pair_less(
                #[trigger] old(order)@[a],
                #[trigger] old(order)@[b],
            ),
    ensures
        forall|a: int, b: int|
            0 <= a < b < final(order)@.len() ==> pair_less(
                #[trigger] final(order)@[a],
                #[trigger] final(order)@[b],
            ),
        final(order)@.contains(page),
        forall|p: (u16, u64)| old(order)@.contains(p) ==> final(order)@.contains(p),
        forall|p: (u16, u64)| final(order)@.contains(p) ==> p == page || old(order)@.contains(p),
{
    let n = order.len();
    let mut at: usize = 0;
    while at < n && pair_before(order[at], page)
        invariant
            n == order@.len(),
            order@ == old(order)@,
            at <= n,
            forall|a: int| 0 <= a < at ==> pair_less(#[trigger] order@[a], page),
        decreases n - at,
    {
        at = at + 1;
    }
    if at < n && order[at].0 == page.0 && order[at].1 == page.1 {
        assert(order@[at as int] == page);
        return ;
    }
    let ghost held = order@;
    proof {
        assert forall|b: int| at <= b < held.len() implies pair_less(page, #[trigger] held[b]) by {
            assert(!pair_less(held[at as int], page));
            if b > at {
                assert(pair_less(held[at as int], held[b]));
            }
        }
    }
    order.insert(at, page);
    proof {
        assert(order@[at as int] == page);
        assert forall|a: int, b: int| 0 <= a < b < order@.len() implies pair_less(
            #[trigger] order@[a],
            #[trigger] order@[b],
        ) by {
            let x = if a < at { a } else { a - 1 };
            let y = if b < at { b } else { b - 1 };
            if a != at && b != at {
                assert(order@[a] == held[x] && order@[b] == held[y]);
                assert(pair_less(held[x], held[y]));
            } else if a == at {
                assert(order@[b] == held[y]);
                assert(pair_less(page, held[y]));
            } else {
                assert(order@[a] == held[x]);
                assert(pair_less(held[x], page));
            }
        }
        assert forall|p: (u16, u64)| held.contains(p) implies order@.contains(p) by {
            let a = choose|a: int| 0 <= a < held.len() && held[a] == p;
            let b = if a < at { a } else { a + 1 };
            assert(order@[b] == p);
        }
        assert forall|p: (u16, u64)| order@.contains(p) implies p == page || held.contains(p) by {
            let a = choose|a: int| 0 <= a < order@.len() && order@[a] == p;
            if a != at {
                let b = if a < at { a } else { a - 1 };
                assert(held[b] == p);
            }
        }
    }
}

/// No two pages with ranges in order hold one key: a key that is bound to
/// windows is bound to no others.
pub proof fn lemma_holds_unique(
    pages: Seq<(u64, Page)>,
    slot_id: u16,
    key: Seq<char>,
    a: Map<u64, ValueKind>,
    b: Map<u64, ValueKind>,
)
    requires
        crate::store::slot::ranges_ok(pages, slot_id),
        holds(pages, key, a),
        holds(pages, key, b),
    ensures
        a == b,
{
    let i = choose|i: int|
        0 <= i < pages.len() && (#[trigger] pages[i]).1@.data.contains_key(key)
            && pages[i].1@.data[key] == a;
    let j = choose|j: int|
        0 <= j < pages.len() && (#[trigger] pages[j]).1@.data.contains_key(key)
            && pages[j].1@.data[key] == b;
    pages[i].1.lemma_hash_containment(key);
    pages[j].1.lemma_hash_containment(key);
    if i < j {
        lemma_tiles_order(pages, i, j);
    }
    if j < i {
        lemma_tiles_order(pages, j, i);
    }
}

/// What the error says where no page holds a hash.
pub open spec fn no_page_message() -> Seq<char> {
    "no page holds the hash"@
}

/// The slots of a store, each with its pages.
#[derive(Debug)]
pub struct Store {
    data_dir: String,
    slot_index: Vec<Slot>,
}

impl View for Store {
    type V = Map<Seq<char>, Map<u64, ValueKind>>;

    /// The windows of each key that the store holds.
    open spec fn view(&self) -> Map<Seq<char>, Map<u64, ValueKind>> {
        Map::new(
            |key: Seq<char>| self.content(key) is Some,
            |key: Seq<char>| self.content(key)->Some_0,
        )
    }
}

impl Store {
    pub closed spec fn spec_data_dir(&self) -> Seq<char> {
        self.data_dir@
    }

    /// The slots, by their id.
    pub closed spec fn slots(&self) -> Seq<Slot> {
        self.slot_index@
    }

    /// There is a slot for each id, in the store's directory; each is
    /// complete, and holds no key but those whose hash it takes.
    pub open spec fn wf(&self) -> bool {
        &&& self.slots().len() == SLOT_COUNT
        &&& forall|s: int|
            0 <= s < self.slots().len() ==> {
                let slot = #[trigger] self.slots()[s];
                &&& slot.complete()
                &&& slot.spec_id() == s
                &&& slot.spec_data_dir() == self.spec_data_dir()
                &&& keys_routed(slot.pages(), s)
            }
    }

    /// The pages of the slot that takes the keys with the hash of `key`.
    pub open spec fn pages_for(&self, key: Seq<char>) -> Seq<(u64, Page)> {
        self.slots()[spec_slot_id(spec_calc_hash(key)) as int].pages()
    }

    /// The windows to which the store binds `key`, if it holds the key.
    pub open spec fn content(&self, key: Seq<char>) -> Option<Map<u64, ValueKind>> {
        if exists|windows: Map<u64, ValueKind>| holds(self.pages_for(key), key, windows) {
            Some(choose|windows: Map<u64, ValueKind>| holds(self.pages_for(key), key, windows))
        } else {
            None
        }
    }

    /// A key that a page holds has a hash that the page's slot takes.
    pub proof fn lemma_key_routed(&self, s: int, i: int, key: Seq<char>)
        requires
            self.wf(),
            0 <= s < self.slots().len(),
            0 <= i < self.slots()[s].pages().len(),
            self.slots()[s].pages()[i].1@.data.contains_key(key),
        ensures
            spec_slot_id(spec_calc_hash(key)) == s,
    {
        let pages = self.slots()[s].pages();
        assert(holds(pages, key, pages[i].1@.data[key]));
    }

    /// A key is in one page of the store at most: in the page whose range
    /// holds its hash, in the slot that takes its hash.
    pub proof fn lemma_one_page(&self, key: Seq<char>, s: int, i: int, t: int, j: int)
        requires
            self.wf(),
            0 <= s < self.slots().len(),
            0 <= i < self.slots()[s].pages().len(),
            self.slots()[s].pages()[i].1@.data.contains_key(key),
            0 <= t < self.slots().len(),
            0 <= j < self.slots()[t].pages().len(),
            self.slots()[t].pages()[j].1@.data.contains_key(key),
        ensures
            s == spec_slot_id(spec_calc_hash(key)),
            in_range(self.slots()[s].pages()[i].1@, spec_calc_hash(key)),
            s == t,
            i == j,
    {
        self.lemma_key_routed(s, i, key);
        self.lemma_key_routed(t, j, key);
        let pages = self.slots()[s].pages();
        assert(self.slots()[s].complete());
        pages[i].1.lemma_hash_containment(key);
        pages[j].1.lemma_hash_containment(key);
        if i < j {
            lemma_tiles_order(pages, i, j);
        }
        if j < i {
            lemma_tiles_order(pages, j, i);
        }
    }

    /// A key that a page of its slot binds to windows has them as content.
    pub proof fn lemma_content(&self, key: Seq<char>, windows: Map<u64, ValueKind>)
        requires
            self.wf(),
            holds(self.pages_for(key), key, windows),
        ensures
            self.content(key) == Some(windows),
    {
        let s = spec_slot_id(spec_calc_hash(key)) as int;
        lemma_slot_id_bound(spec_calc_hash(key));
        assert(self.slots()[s].complete());
        let chosen = choose|w: Map<u64, ValueKind>| holds(self.pages_for(key), key, w);
        lemma_holds_unique(self.pages_for(key), s as u16, key, windows, chosen);
    }

    /// Stores whose slots hold the same hold the same.
    pub proof fn lemma_same_content(&self, other: &Store, key: Seq<char>)
        requires
            self.wf(),
            other.wf(),
            same_content(self.pages_for(key), other.pages_for(key)),
        ensures
            self.content(key) == other.content(key),
    {
        let a = self.pages_for(key);
        let b = other.pages_for(key);
        assert forall|w: Map<u64, ValueKind>| holds(a, key, w) == holds(b, key, w) by {}
        if exists|w: Map<u64, ValueKind>| holds(a, key, w) {
            let wa = choose|w: Map<u64, ValueKind>| holds(a, key, w);
            assert(holds(b, key, wa));
            self.lemma_content(key, wa);
            other.lemma_content(key, wa);
        }
    }

    pub fn data_dir(&self) -> (dir: &String)
        ensures
            dir@ == self.spec_data_dir(),
    {
        &self.data_dir
    }

    /// The slot that takes the keys with hash `key_hash`.
    pub fn get_slot(&self, key_hash: u64) -> (r: CustomResult<&Slot>)
        ensures
            match r {
                Ok(slot) => spec_slot_id(key_hash) < self.slots().len() && *slot == self.slots()[spec_slot_id(
                    key_hash,
                ) as int],
                Err(e) => e.code == GENERIC_CODE && spec_slot_id(key_hash) >= self.slots().len(),
            },
    {
        let slot_id = slot_id_of(key_hash) as usize;
        if slot_id < self.slot_index.len() {
            Ok(&self.slot_index[slot_id])
        } else {
            Err(common_err(String::from_str("no slot takes the hash")))
        }
    }

    /// The slot with id `s`.
    pub fn slot(&self, s: usize) -> (slot: &Slot)
        requires
            s < self.slots().len(),
        ensures
            *slot == self.slots()[s as int],
    {
        &self.slot_index[s]
    }

    /// The slot with id `s`, to be changed in place.
    pub fn slot_mut(&mut self, s: usize) -> (slot: &mut Slot)
        requires
            s < old(self).slots().len(),
        ensures
            *slot == old(self).slots()[s as int],
            final(self).slots() == old(self).slots().update(s as int, *final(slot)),
            final(self).spec_data_dir() == old(self).spec_data_dir(),
    {
        &mut self.slot_index[s]
    }

    /// The page whose range holds `key_hash` in the slot that takes the
    /// hash, with its lower bound. Fails where no page of the slot holds the
    /// hash: in a well-formed store, for the largest hash only.
    pub fn get_page(&self, key_hash: u64) -> (r: CustomResult<(u64, &Page)>)
        requires
            self.wf(),
        ensures
            match r {
                Ok((min_pk, page)) => {
                    let pages = self.slots()[spec_slot_id(key_hash) as int].pages();
                    &&& in_range(page@, key_hash)
                    &&& page@.min_pk == min_pk
                    &&& exists|i: int| 0 <= i < pages.len() && #[trigger] pages[i] == (min_pk, *page)
                },
                Err(e) => e.code == GENERIC_CODE && key_hash == u64::MAX,
            },
    {
        proof {
            lemma_slot_id_bound(key_hash);
        }
        let slot = match self.get_slot(key_hash) {
            Ok(slot) => slot,
            Err(e) => {
                return Err(e);
            },
        };
        proof {
            assert(self.slots()[spec_slot_id(key_hash) as int].complete());
            if key_hash < u64::MAX {
                lemma_tiles_partition(slot.pages(), key_hash);
            }
        }
        slot.get_page(key_hash)
    }

    /// The slot and the index in it of the page whose range holds
    /// `key_hash`. Fails for the largest hash, which no page holds.
    pub fn locate(&self, key_hash: u64) -> (r: CustomResult<(usize, usize)>)
        requires
            self.wf(),
        ensures
            match r {
                Ok((s, i)) => {
                    &&& s == spec_slot_id(key_hash)
                    &&& s < self.slots().len()
                    &&& i < self.slots()[s as int].pages().len()
                    &&& in_range(self.slots()[s as int].pages()[i as int].1@, key_hash)
                },
                Err(e) => e.code == GENERIC_CODE && e.message@ == no_page_message() && key_hash
                    == u64::MAX,
            },
    {
        let s = slot_id_of(key_hash) as usize;
        let slot = &self.slot_index[s];
        proof {
            assert(self.slots()[s as int].complete());
            if key_hash < u64::MAX {
                lemma_tiles_partition(slot.pages(), key_hash);
            }
        }
        match slot.page_index(key_hash) {
            Some(i) => Ok((s, i)),
            None => Err(common_err(String::from_str("no page holds the hash"))),
        }
    }

    /// `after` is `before` with the page `page` in the place of the page
    /// with index `i` of slot `s`.
    pub open spec fn page_replaced(before: Store, after: Store, s: int, i: int, page: Page) -> bool {
        &&& 0 <= s < before.slots().len()
        &&& 0 <= i < before.slots()[s].pages().len()
        &&& after.spec_data_dir() == before.spec_data_dir()
        &&& after.slots().len() == before.slots().len()
        &&& forall|t: int| 0 <= t < before.slots().len() && t != s ==> after.slots()[t] == before.slots()[t]
        &&& after.slots()[s].pages() == before.slots()[s].pages().update(
            i,
            (before.slots()[s].pages()[i].0, page),
        )
        &&& after.slots()[s].inner_wf() == before.slots()[s].inner_wf()
        &&& after.slots()[s].spec_id() == before.slots()[s].spec_id()
        &&& after.slots()[s].spec_data_dir() == before.slots()[s].spec_data_dir()
        &&& after.slots()[s].bitmap() == before.slots()[s].bitmap()
        &&& after.slots()[s].dirty_queue() == before.slots()[s].dirty_queue()
        &&& after.slots()[s].index_mark() == before.slots()[s].index_mark()
    }

    /// The page with index `i` of slot `s`, to be changed in place.
    pub fn page_mut(&mut self, s: usize, i: usize) -> (page: &mut Page)
        requires
            s < old(self).slots().len(),
            i < old(self).slots()[s as int].pages().len(),
        ensures
            *page == old(self).slots()[s as int].pages()[i as int].1,
            Self::page_replaced(*old(self), *final(self), s as int, i as int, *final(page)),
    {
        let slot = &mut self.slot_index[s];
        slot.page_mut(i)
    }

    /// A page that was changed within keeps the store well formed.
    pub proof fn lemma_page_replaced(before: Store, after: Store, s: int, i: int, page: Page)
        requires
            before.wf(),
            Self::page_replaced(before, after, s, i, page),
            page.wf(),
            page@.slot_id == before.slots()[s].pages()[i].1@.slot_id,
            page@.id == before.slots()[s].pages()[i].1@.id,
            page@.min_pk == before.slots()[s].pages()[i].1@.min_pk,
            page@.max_pk == before.slots()[s].pages()[i].1@.max_pk,
            forall|key: Seq<char>| #[trigger]
                page@.data.contains_key(key) ==> spec_slot_id(spec_calc_hash(key)) == s,
        ensures
            after.wf(),
            page_changed(before.slots()[s].pages(), after.slots()[s].pages(), i),
    {
        let old_pages = before.slots()[s].pages();
        let new_pages = after.slots()[s].pages();
        assert(before.slots()[s].complete());
        assert(page_changed(old_pages, new_pages, i));
        lemma_page_changed(old_pages, new_pages, i, before.slots()[s].spec_id(), before.slots()[s].bitmap());
        assert(keys_routed(new_pages, s)) by {
            assert forall|key: Seq<char>, windows: Map<u64, ValueKind>| #[trigger]
                holds(new_pages, key, windows) implies spec_slot_id(spec_calc_hash(key)) == s by {
                let j = choose|j: int|
                    0 <= j < new_pages.len() && (#[trigger] new_pages[j]).1@.data.contains_key(key)
                        && new_pages[j].1@.data[key] == windows;
                if j != i {
                    assert(new_pages[j] == old_pages[j]);
                    assert(holds(old_pages, key, windows));
                }
            }
        }
        assert forall|t: int| 0 <= t < after.slots().len() implies {
            let slot = #[trigger] after.slots()[t];
            &&& slot.complete()
            &&& slot.spec_id() == t
            &&& slot.spec_data_dir() == after.spec_data_dir()
            &&& keys_routed(slot.pages(), t)
        } by {
            if t != s {
                assert(after.slots()[t] == before.slots()[t]);
                assert(before.slots()[t].complete());
            }
        }
    }

    /// A page that was changed in what it binds one key to changes the
    /// content of the store for that key, and for no other.
    pub proof fn lemma_page_put(
        before: Store,
        after: Store,
        s: int,
        i: int,
        page: Page,
        key: Seq<char>,
        windows: Map<u64, ValueKind>,
    )
        requires
            before.wf(),
            after.wf(),
            Self::page_replaced(before, after, s, i, page),
            page@.data == before.slots()[s].pages()[i].1@.data.insert(key, windows),
            s == spec_slot_id(spec_calc_hash(key)),
        ensures
            after.content(key) == Some(windows),
            forall|other: Seq<char>| other != key ==> #[trigger] after.content(other) == before.content(other),
    {
        let old_pages = before.slots()[s].pages();
        let new_pages = after.slots()[s].pages();
        assert(new_pages[i].1@.data.contains_key(key));
        assert(holds(after.pages_for(key), key, windows));
        after.lemma_content(key, windows);
        assert forall|other: Seq<char>| other != key implies #[trigger] after.content(other)
            == before.content(other) by {
            let t = spec_slot_id(spec_calc_hash(other)) as int;
            lemma_slot_id_bound(spec_calc_hash(other));
            if t != s {
                assert(after.slots()[t] == before.slots()[t]);
                assert(same_content(after.pages_for(other), before.pages_for(other)));
            } else {
                assert forall|w: Map<u64, ValueKind>|
                    holds(new_pages, other, w) == holds(old_pages, other, w) by {
                    if holds(new_pages, other, w) {
                        let j = choose|j: int|
                            0 <= j < new_pages.len() && (#[trigger] new_pages[j]).1@.data.contains_key(
                                other,
                            ) && new_pages[j].1@.data[other] == w;
                        if j != i {
                            assert(new_pages[j] == old_pages[j]);
                        }
                        assert(old_pages[j].1@.data.contains_key(other) && old_pages[j].1@.data[other]
                            == w);
                    }
                    if holds(old_pages, other, w) {
                        let j = choose|j: int|
                            0 <= j < old_pages.len() && (#[trigger] old_pages[j]).1@.data.contains_key(
                                other,
                            ) && old_pages[j].1@.data[other] == w;
                        if j != i {
                            assert(new_pages[j] == old_pages[j]);
                        }
                        assert(new_pages[j].1@.data.contains_key(other) && new_pages[j].1@.data[other]
                            == w);
                    }
                }
                if exists|w: Map<u64, ValueKind>| holds(new_pages, other, w) {
                    let w = choose|w: Map<u64, ValueKind>| holds(new_pages, other, w);
                    assert(holds(old_pages, other, w));
                    after.lemma_content(other, w);
                    before.lemma_content(other, w);
                } else {
                    assert(forall|w: Map<u64, ValueKind>| !holds(old_pages, other, w));
                }
            }
            if t != s {
                after.lemma_same_content(&before, other);
            }
        }
    }

    /// Notes that action `action_id` changed the page with index `i` of slot
    /// `s`; a page that was clean joins those that wait to be written out.
    #[verifier::rlimit(30)]
    pub fn after_update(&mut self, s: usize, i: usize, action_id: u64)
        requires
            old(self).wf(),
            s < old(self).slots().len(),
            i < old(self).slots()[s as int].pages().len(),
        ensures
            final(self).wf(),
            final(self).spec_data_dir() == old(self).spec_data_dir(),
            forall|key: Seq<char>| #[trigger] final(self).content(key) == old(self).content(key),
            forall|t: int|
                0 <= t < final(self).slots().len() ==> (#[trigger] final(self).slots()[t]).pages().len()
                    == old(self).slots()[t].pages().len(),
            forall|t: int|
                0 <= t < final(self).slots().len() && t != s ==> #[trigger] final(self).slots()[t]
                    == old(self).slots()[t],
            forall|j: int|
                0 <= j < final(self).slots()[s as int].pages().len() && j != i ==> #[trigger] final(self).slots()[s as int].pages()[j] == old(self).slots()[s as int].pages()[j],
            final(self).slots()[s as int].index_mark() == old(self).slots()[s as int].index_mark(),
            final(self).slots()[s as int].bitmap() == old(self).slots()[s as int].bitmap(),
            final(self).slots()[s as int].pages()[i as int].1@ == old(self).slots()[s as int].pages()[i as int].1@,
            final(self).slots()[s as int].pages()[i as int].1.dirty_mark() == Some(
                Dirty::spec_update(
                    old(self).slots()[s as int].pages()[i as int].1.dirty_mark(),
                    action_id,
                ),
            ),
            final(self).slots()[s as int].dirty_queue() == if old(self).slots()[s as int].pages()[i as int].1.dirty_mark() is None {
                old(self).slots()[s as int].dirty_queue().push(
                    old(self).slots()[s as int].pages()[i as int].1@.min_pk,
                )
            } else {
                old(self).slots()[s as int].dirty_queue()
            },
    {
        let ghost before = self.slots();
        let slot = &mut self.slot_index[s];
        assert(before[s as int].complete());
        slot.after_update(i, action_id);
        proof {
            let now = self.slots();
            let old_pages = before[s as int].pages();
            let new_pages = now[s as int].pages();
            assert(old_pages[i as int].1.wf());
            assert(page_changed(old_pages, new_pages, i as int)) by {
                new_pages[i as int].1.lemma_same_entries_wf(&old_pages[i as int].1);
            }
            lemma_page_changed(
                old_pages,
                new_pages,
                i as int,
                before[s as int].spec_id(),
                before[s as int].bitmap(),
            );
            crate::store::slot::lemma_page_same_data(old_pages, new_pages, i as int);
            assert forall|t: int| 0 <= t < now.len() implies {
                let slot = #[trigger] now[t];
                &&& slot.complete()
                &&& slot.spec_id() == t
                &&& slot.spec_data_dir() == self.spec_data_dir()
                &&& same_content(old(self).slots()[t].pages(), slot.pages())
                &&& slot.pages().len() == before[t].pages().len()
            } by {
                if t != s {
                    assert(now[t] == before[t]);
                    assert(before[t].complete());
                }
            }
            self.lemma_all_same_content(old(self));
        }
    }

    /// A key that the page whose range holds its hash does not hold is not
    /// in the store.
    pub proof fn lemma_content_none(&self, key: Seq<char>, i: int)
        requires
            self.wf(),
            0 <= i < self.pages_for(key).len(),
            in_range(self.pages_for(key)[i].1@, spec_calc_hash(key)),
            !self.pages_for(key)[i].1@.data.contains_key(key),
        ensures
            self.content(key) is None,
    {
        let pages = self.pages_for(key);
        let s = spec_slot_id(spec_calc_hash(key)) as int;
        lemma_slot_id_bound(spec_calc_hash(key));
        assert(self.slots()[s].complete());
        if exists|w: Map<u64, ValueKind>| holds(pages, key, w) {
            let w = choose|w: Map<u64, ValueKind>| holds(pages, key, w);
            let j = choose|j: int|
                0 <= j < pages.len() && (#[trigger] pages[j]).1@.data.contains_key(key)
                    && pages[j].1@.data[key] == w;
            pages[j].1.lemma_hash_containment(key);
            if i < j {
                lemma_tiles_order(pages, i, j);
            }
            if j < i {
                lemma_tiles_order(pages, j, i);
            }
        }
    }

    /// The pages of a slot that wait to be written out when the first `n` of
    /// `pages` are marked again whose lower bound lies from `min_pk` up to,
    /// not including, `max_pk`: behind those of `queue`, each of them that
    /// was clean, in the order of the pages.
    pub open spec fn requeue_queue(
        pages: Seq<(u64, Page)>,
        queue: Seq<u64>,
        min_pk: u64,
        max_pk: u64,
        n: int,
    ) -> Seq<u64>
        decreases n,
    {
        if n <= 0 {
            queue
        } else {
            let earlier = Self::requeue_queue(pages, queue, min_pk, max_pk, n - 1);
            let page = pages[n - 1].1;
            if min_pk <= page@.min_pk < max_pk && page.dirty_mark() is None {
                earlier.push(page@.min_pk)
            } else {
                earlier
            }
        }
    }

    /// Whether `after` is `before` with the pages of slot `s` marked as
    /// changed by action `action_id` whose lower bound lies from `min_pk` up
    /// to, not including, `max_pk`. Each of them that was clean waits to be
    /// written out. The pages hold what they held.
    pub open spec fn requeued(
        before: Store,
        after: Store,
        s: int,
        min_pk: u64,
        max_pk: u64,
        action_id: u64,
    ) -> bool {
        &&& after.slots().len() == before.slots().len()
        &&& forall|t: int|
            0 <= t < after.slots().len() && t != s ==> #[trigger] after.slots()[t] == before.slots()[t]
        &&& 0 <= s < before.slots().len() ==> {
            let held = before.slots()[s];
            let slot = after.slots()[s];
            &&& slot.pages().len() == held.pages().len()
            &&& slot.bitmap() == held.bitmap()
            &&& slot.index_mark() == held.index_mark()
            &&& forall|i: int|
                0 <= i < slot.pages().len() ==> {
                    let page = (#[trigger] slot.pages()[i]).1;
                    let was = held.pages()[i].1;
                    &&& page@ == was@
                    &&& if min_pk <= was@.min_pk < max_pk {
                        page.dirty_mark() == Some(Dirty::spec_update(was.dirty_mark(), action_id))
                    } else {
                        slot.pages()[i] == held.pages()[i]
                    }
                }
            &&& slot.dirty_queue() == Self::requeue_queue(
                held.pages(),
                held.dirty_queue(),
                min_pk,
                max_pk,
                held.pages().len() as int,
            )
        }
    }

    /// Marks as changed by action `action_id` the pages of slot `slot_id`
    /// whose lower bound lies from `min_pk` up to, not including, `max_pk`:
    /// they wait to be written out, as after a write of them that has
    /// failed. Nothing changes where the store has no such slot.
    #[verifier::rlimit(30)]
    pub fn requeue(&mut self, slot_id: u16, min_pk: u64, max_pk: u64, action_id: u64)
        requires
            old(self).wf(),
        ensures
            final(self).wf(),
            final(self).spec_data_dir() == old(self).spec_data_dir(),
            final(self)@ == old(self)@,
            Self::requeued(*old(self), *final(self), slot_id as int, min_pk, max_pk, action_id),
    {
        let s = slot_id as usize;
        if s >= self.slot_index.len() {
            return ;
        }
        let n = self.slot_index[s].page_count();
        let mut i: usize = 0;
        while i < n
            invariant
                self.wf(),
                s == slot_id,
                s < self.slots().len(),
                i <= n,
                n == self.slots()[s as int].pages().len(),
                n == old(self).slots()[s as int].pages().len(),
                old(self).wf(),
                self.spec_data_dir() == old(self).spec_data_dir(),
                self.slots().len() == old(self).slots().len(),
                forall|key: Seq<char>| #[trigger] self.content(key) == old(self).content(key),
                forall|t: int|
                    0 <= t < self.slots().len() && t != s ==> #[trigger] self.slots()[t] == old(
                        self,
                    ).slots()[t],
                self.slots()[s as int].bitmap() == old(self).slots()[s as int].bitmap(),
                self.slots()[s as int].index_mark() == old(self).slots()[s as int].index_mark(),
                forall|j: int|
                    i <= j < n ==> #[trigger] self.slots()[s as int].pages()[j] == old(
                        self,
                    ).slots()[s as int].pages()[j],
                forall|j: int|
                    0 <= j < i ==> {
                        let page = (#[trigger] self.slots()[s as int].pages()[j]).1;
                        let was = old(self).slots()[s as int].pages()[j].1;
                        &&& page@ == was@
                        &&& if min_pk <= was@.min_pk < max_pk {
                            page.dirty_mark() == Some(
                                Dirty::spec_update(was.dirty_mark(), action_id),
                            )
                        } else {
                            self.slots()[s as int].pages()[j] == old(self).slots()[s as int].pages()[j]
                        }
                    },
                self.slots()[s as int].dirty_queue() == Self::requeue_queue(
                    old(self).slots()[s as int].pages(),
                    old(self).slots()[s as int].dirty_queue(),
                    min_pk,
                    max_pk,
                    i as int,
                ),
            decreases n - i,
        {
            let ghost before = *self;
            let lower = self.slot_index[s].page_at(i).min_pk();
            if min_pk <= lower && lower < max_pk {
                self.after_update(s, i, action_id);
            }
            proof {
                assert forall|j: int| 0 <= j < i + 1 implies {
                    let page = (#[trigger] self.slots()[s as int].pages()[j]).1;
                    let was = old(self).slots()[s as int].pages()[j].1;
                    &&& page@ == was@
                    &&& if min_pk <= was@.min_pk < max_pk {
                        page.dirty_mark() == Some(Dirty::spec_update(was.dirty_mark(), action_id))
                    } else {
                        self.slots()[s as int].pages()[j] == old(self).slots()[s as int].pages()[j]
                    }
                } by {
                    if j < i {
                        assert(self.slots()[s as int].pages()[j] == before.slots()[s as int].pages()[j]);
                    } else {
                        assert(before.slots()[s as int].pages()[j] == old(self).slots()[s as int].pages()[j]);
                    }
                }
                assert forall|j: int| i + 1 <= j < n implies #[trigger] self.slots()[s as int].pages()[j]
                    == old(self).slots()[s as int].pages()[j] by {
                    assert(self.slots()[s as int].pages()[j] == before.slots()[s as int].pages()[j]);
                }
                assert forall|t: int| 0 <= t < self.slots().len() && t != s implies #[trigger] self.slots()[t]
                    == old(self).slots()[t] by {
                    assert(self.slots()[t] == before.slots()[t]);
                }
                assert(before.slots()[s as int].pages()[i as int] == old(self).slots()[s as int].pages()[i as int]);
            }
            i = i + 1;
        }
        proof {
            assert(self@ =~= old(self)@);
        }
    }

    /// Whether `after` and `done` are what laying the pages of slot `s` out
    /// as the bytes `index` of an index of pages tell makes of `before`.
    ///
    /// That is done where the store has the slot, the slot has one page,
    /// the bytes are whole pairs of a lower bound and a page id, and the
    /// pairs can be the pages of a slot. Else nothing changes.
    pub open spec fn layout_restored(
        before: Store,
        after: Store,
        s: int,
        index: Seq<u8>,
        done: bool,
    ) -> bool {
        let pairs = spec_index_pairs(index);
        &&& after.slots().len() == before.slots().len()
        &&& forall|t: int|
            0 <= t < after.slots().len() && t != s ==> #[trigger] after.slots()[t] == before.slots()[t]
        &&& done == (0 <= s < before.slots().len() && index.len() % 16 == 0
            && before.slots()[s].pages().len() == 1 && proper(pairs))
        &&& if done {
            laid_out(before.slots()[s], after.slots()[s], pairs)
        } else {
            after.slots() == before.slots()
        }
    }

    /// Lays the pages of slot `slot_id` out as the bytes `index` of the
    /// index of its pages tell: a page for each pair of a lower bound and a
    /// page id, which holds the keys whose hash lies in its range. The store
    /// holds what it held.
    ///
    /// Says whether that was done. Nothing changes where the store has no
    /// such slot, where the slot has more than one page, or where the bytes
    /// are no index of the pages of a slot.
    pub fn restore_layout(&mut self, slot_id: u16, index: &[u8]) -> (done: bool)
        requires
            old(self).wf(),
        ensures
            final(self).wf(),
            final(self).spec_data_dir() == old(self).spec_data_dir(),
            final(self)@ == old(self)@,
            Self::layout_restored(*old(self), *final(self), slot_id as int, index@, done),
    {
        let s = slot_id as usize;
        if s >= self.slot_index.len() {
            return false;
        }
        let pairs = match read_index(index) {
            Some(pairs) => pairs,
            None => {
                return false;
            },
        };
        let ghost before = self.slots();
        assert(before[s as int].complete());
        let slot = &mut self.slot_index[s];
        let done = slot.restore_layout(&pairs);
        proof {
            assert forall|t: int| 0 <= t < self.slots().len() implies {
                let slot = #[trigger] self.slots()[t];
                &&& slot.complete()
                &&& slot.spec_id() == t
                &&& slot.spec_data_dir() == self.spec_data_dir()
                &&& keys_routed(slot.pages(), t)
                &&& same_content(before[t].pages(), slot.pages())
            } by {
                if t != s {
                    assert(self.slots()[t] == before[t]);
                }
                assert(before[t].complete());
                assert(keys_routed(before[t].pages(), t));
            }
            self.lemma_all_same_content(old(self));
            assert(self@ =~= old(self)@);
        }
        if !done {
            proof {
                assert(self.slots() =~= before);
            }
        }
        done
    }

    /// Whether `after` is `before` with the index of the pages of slot `s`
    /// marked as changed by action `action_id`.
    pub open spec fn index_requeued(before: Store, after: Store, s: int, action_id: u64) -> bool {
        &&& after.slots().len() == before.slots().len()
        &&& forall|t: int|
            0 <= t < after.slots().len() && t != s ==> #[trigger] after.slots()[t] == before.slots()[t]
        &&& 0 <= s < before.slots().len() ==> {
            let held = before.slots()[s];
            let slot = after.slots()[s];
            &&& slot.pages() == held.pages()
            &&& slot.bitmap() == held.bitmap()
            &&& slot.dirty_queue() == held.dirty_queue()
            &&& slot.index_mark() == Some(Dirty::spec_update(held.index_mark(), action_id))
        }
    }

    /// Marks the index of the pages of slot `slot_id` as changed by action
    /// `action_id`, as after a write of it that has failed. Nothing changes
    /// where the store has no such slot.
    pub fn requeue_index(&mut self, slot_id: u16, action_id: u64)
        requires
            old(self).wf(),
        ensures
            final(self).wf(),
            final(self).spec_data_dir() == old(self).spec_data_dir(),
            final(self)@ == old(self)@,
            Self::index_requeued(*old(self), *final(self), slot_id as int, action_id),
    {
        let s = slot_id as usize;
        if s >= self.slot_index.len() {
            return ;
        }
        let ghost before = self.slots();
        assert(before[s as int].complete());
        let slot = &mut self.slot_index[s];
        slot.mark_index_dirty(action_id);
        proof {
            assert forall|t: int| 0 <= t < self.slots().len() implies {
                let slot = #[trigger] self.slots()[t];
                &&& slot.complete()
                &&& slot.spec_id() == t
                &&& slot.spec_data_dir() == self.spec_data_dir()
                &&& keys_routed(slot.pages(), t)
            } by {
                if t != s {
                    assert(self.slots()[t] == before[t]);
                }
                assert(before[t].complete());
            }
            assert forall|key: Seq<char>| #[trigger] self.content(key) == old(self).content(key) by {
                let t = spec_slot_id(spec_calc_hash(key)) as int;
                lemma_slot_id_bound(spec_calc_hash(key));
                if t != s {
                    assert(self.slots()[t] == before[t]);
                }
                assert(self.pages_for(key) == old(self).pages_for(key));
            }
            assert(self@ =~= old(self)@);
        }
    }

    /// The slots are as they are made, without pages, one for each id.
    pub open spec fn fresh(&self) -> bool {
        &&& self.slots().len() == SLOT_COUNT
        &&& forall|s: int|
            0 <= s < self.slots().len() ==> {
                let slot = #[trigger] self.slots()[s];
                &&& slot.wf()
                &&& slot.spec_id() == s
                &&& slot.spec_data_dir() == self.spec_data_dir()
                &&& slot.pages().len() == 0
                &&& slot.bitmap() == Seq::new(crate::store::slot::PAGE_NUM as nat, |i: int| false)
                &&& slot.dirty_queue().len() == 0
                &&& slot.index_mark() is None
            }
    }

    /// A store in the directory `data_dir` whose slots have no pages yet.
    pub fn empty(data_dir: String) -> (store: Store)
        ensures
            store.fresh(),
            store.spec_data_dir() == data_dir@,
    {
        let mut slot_index: Vec<Slot> = Vec::new();
        let mut s: usize = 0;
        while s < SLOT_COUNT
            invariant
                s <= SLOT_COUNT,
                slot_index@.len() == s,
                forall|t: int|
                    0 <= t < s ==> {
                        let slot = #[trigger] slot_index@[t];
                        &&& slot.wf()
                        &&& slot.spec_id() == t
                        &&& slot.spec_data_dir() == data_dir@
                        &&& slot.pages().len() == 0
                        &&& slot.bitmap() == Seq::new(
                            crate::store::slot::PAGE_NUM as nat,
                            |i: int| false,
                        )
                        &&& slot.dirty_queue().len() == 0
                        &&& slot.index_mark() is None
                    },
            decreases SLOT_COUNT - s,
        {
            slot_index.push(Slot::new(s as u16, data_dir.clone()));
            s = s + 1;
        }
        Store { data_dir, slot_index }
    }

    /// The store in the directory `data_dir` as the log `log` gives it: the
    /// slots with their first pages, and what the log's committed
    /// transactions have written.
    pub fn new(data_dir: String, log: &[u8]) -> (r: CustomResult<Store>)
        ensures
            match r {
                Ok(store) => crate::store::recover::recovered(store, data_dir@, log@),
                Err(e) => e.code == GENERIC_CODE && crate::store::recover::log_bad_at_start(log@),
            },
    {
        let mut store = Store::empty(data_dir);
        match crate::store::recover::recover(&mut store, log) {
            Ok(_) => Ok(store),
            Err(e) => Err(e),
        }
    }

    /// The slot and the lower bound of the page whose range holds
    /// `key_hash`, if a page holds it.
    pub open spec fn page_ref(&self, key_hash: u64) -> Option<(u16, u64)> {
        let slot = spec_slot_id(key_hash);
        let pages = self.slots()[slot as int].pages();
        if exists|i: int| 0 <= i < pages.len() && in_range((#[trigger] pages[i]).1@, key_hash) {
            let i = choose|i: int| 0 <= i < pages.len() && in_range((#[trigger] pages[i]).1@, key_hash);
            Some((slot, pages[i].0))
        } else {
            None
        }
    }

    /// Some hash among `hashes` refers to the page `page`.
    pub open spec fn referred(&self, hashes: Seq<u64>, page: (u16, u64)) -> bool {
        exists|j: int| 0 <= j < hashes.len() && self.page_ref(#[trigger] hashes[j]) == Some(page)
    }

    /// The pages that an update of the keys with the hashes `hashes` has to
    /// lock, each by its slot and its lower bound, in the order in which to
    /// lock them: by slot, and within a slot by lower bound, each page once.
    #[verifier::rlimit(30)]
    pub fn lock_order(&self, hashes: &Vec<u64>) -> (order: Vec<(u16, u64)>)
        requires
            self.wf(),
        ensures
            forall|a: int, b: int|
                0 <= a < b < order@.len() ==> pair_less(#[trigger] order@[a], #[trigger] order@[b]),
            forall|page: (u16, u64)| order@.contains(page) <==> self.referred(hashes@, page),
    {
        let mut order: Vec<(u16, u64)> = Vec::new();
        let n = hashes.len();
        let mut k: usize = 0;
        proof {
            assert(hashes@.take(0) =~= Seq::empty());
        }
        while k < n
            invariant
                n == hashes@.len(),
                k <= n,
                self.wf(),
                forall|a: int, b: int|
                    0 <= a < b < order@.len() ==> pair_less(
                        #[trigger] order@[a],
                        #[trigger] order@[b],
                    ),
                forall|page: (u16, u64)|
                    order@.contains(page) <==> self.referred(hashes@.take(k as int), page),
            decreases n - k,
        {
            let hash = hashes[k];
            let ghost held = order@;
            let ghost seen = hashes@.take(k as int);
            let ghost next = hashes@.take(k + 1);
            proof {
                assert forall|page: (u16, u64)|
                    self.referred(next, page) <==> (self.referred(seen, page) || self.page_ref(hash)
                        == Some(page)) by {
                    if self.referred(seen, page) {
                        let j = choose|j: int|
                            0 <= j < seen.len() && self.page_ref(#[trigger] seen[j]) == Some(page);
                        assert(next[j] == seen[j]);
                    }
                    if self.page_ref(hash) == Some(page) {
                        assert(next[k as int] == hash);
                    }
                    if self.referred(next, page) {
                        let j = choose|j: int|
                            0 <= j < next.len() && self.page_ref(#[trigger] next[j]) == Some(page);
                        if j < k {
                            assert(seen[j] == next[j]);
                        }
                    }
                }
            }
            match self.locate(hash) {
                Ok((s, i)) => {
                    let page = (s as u16, self.slot_index[s].page_key(i));
                    proof {
                        self.lemma_page_ref(hash, i as int);
                    }
                    insert_pair(&mut order, page);
                },
                Err(_) => {
                    proof {
                        lemma_slot_id_bound(hash);
                        self.lemma_no_page_ref(hash);
                    }
                },
            }
            k = k + 1;
        }
        proof {
            assert(hashes@.take(n as int) =~= hashes@);
        }
        order
    }

    /// The page whose range holds a hash is the page that the hash refers
    /// to.
    pub proof fn lemma_page_ref(&self, key_hash: u64, i: int)
        requires
            self.wf(),
            0 <= i < self.slots()[spec_slot_id(key_hash) as int].pages().len(),
            in_range(self.slots()[spec_slot_id(key_hash) as int].pages()[i].1@, key_hash),
        ensures
            self.page_ref(key_hash) == Some(
                (
                    spec_slot_id(key_hash),
                    self.slots()[spec_slot_id(key_hash) as int].pages()[i].0,
                ),
            ),
    {
        let pages = self.slots()[spec_slot_id(key_hash) as int].pages();
        lemma_slot_id_bound(key_hash);
        assert(self.slots()[spec_slot_id(key_hash) as int].complete());
        let j = choose|j: int| 0 <= j < pages.len() && in_range((#[trigger] pages[j]).1@, key_hash);
        assert(in_range(pages[i].1@, key_hash));
        if i < j {
            lemma_tiles_order(pages, i, j);
        }
        if j < i {
            lemma_tiles_order(pages, j, i);
        }
    }

    /// The largest hash refers to no page.
    pub proof fn lemma_no_page_ref(&self, key_hash: u64)
        requires
            self.wf(),
            key_hash == u64::MAX,
        ensures
            self.page_ref(key_hash) is None,
    {
        let pages = self.slots()[spec_slot_id(key_hash) as int].pages();
        assert forall|i: int| 0 <= i < pages.len() implies !in_range(
            (#[trigger] pages[i]).1@,
            key_hash,
        ) by {}
    }

    /// Whether the slots before index `n` were written out with success, one
    /// after the other: `stores`, `wals` and `lists` hold the store, the log
    /// and the writes before the first slot and after each.
    pub open spec fn flush_trace(
        stores: Seq<Store>,
        wals: Seq<Wal>,
        lists: Seq<Seq<FileWrite>>,
        n: int,
    ) -> bool {
        &&& stores.len() == n + 1
        &&& wals.len() == n + 1
        &&& lists.len() == n + 1
        &&& forall|s: int, t: int|
            0 <= s && t == s + 1 && t <= n ==> {
                &&& Slot::flushed(
                    (#[trigger] stores[s]).slots()[s],
                    (#[trigger] stores[t]).slots()[s],
                    wals[s],
                    wals[t],
                    lists[s],
                    lists[t],
                    Ok(()),
                )
                &&& stores[t].slots() == stores[s].slots().update(s, stores[t].slots()[s])
                &&& stores[t].spec_data_dir() == stores[s].spec_data_dir()
            }
    }

    /// Whether `after`, `wal_after`, `writes` and the result `r` are what a
    /// checkpoint makes of the store `before`, the log `wal_before` and the
    /// writes `held`: the slots are written out in the order of their ids,
    /// up to the first that fails.
    pub open spec fn checkpointed(
        before: Store,
        after: Store,
        wal_before: Wal,
        wal_after: Wal,
        held: Seq<FileWrite>,
        writes: Seq<FileWrite>,
        r: CustomResult<()>,
    ) -> bool {
        match r {
            Ok(_) => exists|stores: Seq<Store>, wals: Seq<Wal>, lists: Seq<Seq<FileWrite>>|
                {
                    &&& #[trigger] Self::flush_trace(stores, wals, lists, SLOT_COUNT as int)
                    &&& stores[0] == before
                    &&& wals[0] == wal_before
                    &&& lists[0] == held
                    &&& stores.last() == after
                    &&& wals.last() == wal_after
                    &&& lists.last() == writes
                },
            Err(_) => exists|
                n: int,
                stores: Seq<Store>,
                wals: Seq<Wal>,
                lists: Seq<Seq<FileWrite>>,
            |
                {
                    &&& 0 <= n < SLOT_COUNT
                    &&& #[trigger] Self::flush_trace(stores, wals, lists, n)
                    &&& stores[0] == before
                    &&& wals[0] == wal_before
                    &&& lists[0] == held
                    &&& Slot::flushed(
                        stores.last().slots()[n],
                        after.slots()[n],
                        wals.last(),
                        wal_after,
                        lists.last(),
                        writes,
                        r,
                    )
                    &&& after.slots() == stores.last().slots().update(n, after.slots()[n])
                    &&& after.spec_data_dir() == before.spec_data_dir()
                },
        }
    }

    /// Writes out what has changed: each slot in the order of the ids, as
    /// `Slot::check_point` does. The writes are added to `writes` in their
    /// order. What the store holds stays as it is. Stops at the first slot
    /// that fails.
    #[verifier::rlimit(30)]
    pub fn check_point(&mut self, wal: &mut Wal, writes: &mut Vec<FileWrite>) -> (r: CustomResult<
        (),
    >)
        requires
            old(self).wf(),
            old(wal).wf(),
        ensures
            final(self).wf(),
            final(wal).wf(),
            final(self).spec_data_dir() == old(self).spec_data_dir(),
            forall|key: Seq<char>| #[trigger] final(self).content(key) == old(self).content(key),
            old(wal).sent().is_prefix_of(final(wal).sent()),
            final(wal).written_count() == old(wal).written_count(),
            final(wal).state() == old(wal).state(),
            write_views(old(writes)@).is_prefix_of(write_views(final(writes)@)),
            r matches Err(e) ==> e.code == GENERIC_CODE,
            Self::checkpointed(*old(self), *final(self), *old(wal), *final(wal), old(writes)@, final(writes)@, r),
    {
        let n = self.slot_index.len();
        let mut s: usize = 0;
        let ghost mut stores: Seq<Store> = seq![*self];
        let ghost mut wals: Seq<Wal> = seq![*wal];
        let ghost mut lists: Seq<Seq<FileWrite>> = seq![writes@];
        while s < n
            invariant
                n == SLOT_COUNT,
                s <= n,
                old(self).wf(),
                self.wf(),
                wal.wf(),
                self.spec_data_dir() == old(self).spec_data_dir(),
                self.slots().len() == old(self).slots().len(),
                forall|t: int|
                    0 <= t < self.slots().len() ==> same_content(
                        old(self).slots()[t].pages(),
                        (#[trigger] self.slots()[t]).pages(),
                    ),
                old(wal).sent().is_prefix_of(wal.sent()),
                wal.written_count() == old(wal).written_count(),
                wal.state() == old(wal).state(),
                write_views(old(writes)@).is_prefix_of(write_views(writes@)),
                Self::flush_trace(stores, wals, lists, s as int),
                stores[0] == *old(self),
                wals[0] == *old(wal),
                lists[0] == old(writes)@,
                stores.last() == *self,
                wals.last() == *wal,
                lists.last() == writes@,
            decreases n - s,
        {
            let ghost before = self.slots();
            let ghost start = *self;
            let ghost sent = wal.sent();
            let ghost held = write_views(writes@);
            let slot = &mut self.slot_index[s];
            assert(before[s as int].complete());
            let flushed = slot.check_point(wal, writes);
            proof {
                let now = self.slots();
                assert(sent.is_prefix_of(wal.sent()));
                assert(held.is_prefix_of(write_views(writes@)));
                assert(now =~= before.update(s as int, now[s as int]));
                assert forall|t: int| 0 <= t < now.len() implies same_content(
                    old(self).slots()[t].pages(),
                    (#[trigger] now[t]).pages(),
                ) by {
                    if t == s {
                        crate::store::flush::lemma_same_content_transitive(
                            old(self).slots()[t].pages(),
                            before[t].pages(),
                            now[t].pages(),
                        );
                    } else {
                        assert(now[t] == before[t]);
                    }
                }
                assert forall|t: int| 0 <= t < now.len() implies {
                    let slot = #[trigger] now[t];
                    &&& slot.complete()
                    &&& slot.spec_id() == t
                    &&& slot.spec_data_dir() == self.spec_data_dir()
                } by {
                    if t != s {
                        assert(now[t] == before[t]);
                    }
                }
            }
            match flushed {
                Ok(_) => {
                    proof {
                        let next_stores = stores.push(*self);
                        let next_wals = wals.push(*wal);
                        let next_lists = lists.push(writes@);
                        assert forall|a: int, b: int| 0 <= a && b == a + 1 && b <= s + 1 implies {
                            &&& Slot::flushed(
                                (#[trigger] next_stores[a]).slots()[a],
                                (#[trigger] next_stores[b]).slots()[a],
                                next_wals[a],
                                next_wals[b],
                                next_lists[a],
                                next_lists[b],
                                Ok(()),
                            )
                            &&& next_stores[b].slots() == next_stores[a].slots().update(
                                a,
                                next_stores[b].slots()[a],
                            )
                            &&& next_stores[b].spec_data_dir() == next_stores[a].spec_data_dir()
                        } by {
                            if b <= s {
                                assert(next_stores[a] == stores[a] && next_stores[b] == stores[b]);
                                assert(Slot::flushed(
                                    stores[a].slots()[a],
                                    stores[b].slots()[a],
                                    wals[a],
                                    wals[b],
                                    lists[a],
                                    lists[b],
                                    Ok(()),
                                ));
                            } else {
                                assert(next_stores[a] == start);
                            }
                        }
                        stores = next_stores;
                        wals = next_wals;
                        lists = next_lists;
                    }
                },
                Err(e) => {
                    proof {
                        self.lemma_all_same_content(old(self));
                    }
                    return Err(e);
                },
            }
            s = s + 1;
        }
        proof {
            self.lemma_all_same_content(old(self));
        }
        Ok(())
    }

    /// Stores whose slots hold the same, slot by slot, hold the same.
    pub proof fn lemma_all_same_content(&self, other: &Store)
        requires
            self.wf(),
            other.wf(),
            forall|t: int|
                0 <= t < self.slots().len() ==> same_content(
                    other.slots()[t].pages(),
                    (#[trigger] self.slots()[t]).pages(),
                ),
        ensures
            forall|key: Seq<char>| #[trigger] self.content(key) == other.content(key),
    {
        assert forall|key: Seq<char>| #[trigger] self.content(key) == other.content(key) by {
            let s = spec_slot_id(spec_calc_hash(key)) as int;
            lemma_slot_id_bound(spec_calc_hash(key));
            assert(same_content(other.slots()[s].pages(), self.slots()[s].pages()));
            other.lemma_same_content(self, key);
        }
    }
}

} // verus!
