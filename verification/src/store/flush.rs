//! Writing out what has changed: the pages of a slot, one at a time, and the
//! index of its pages. What is to be written to files is handed back as a
//! list; the records of the log are sent as the list grows.
use crate::custom_error::{common_err, CustomResult, GENERIC_CODE};
use crate::feature::value::ValueKind;
use crate::store::page::{Page, PageView};
use crate::store::slot::{
    bitmap_exact, holds, ids_ok, lemma_page_changed, lemma_page_same_data, page_changed,
    pages_wf, ranges_ok, ranges_ordered, same_content, tiles, Slot, FILE_SIZE, PAGE_SIZE,
};
use crate::store::split::{
    bounds_ascending, clear_bits, fresh_ids, is_split, lemma_split_encodable, lowest_ids, same_data,
    split_bounds,
};
use crate::store::wal::{
    LogItemView, LogValueView, Shadowed, Wal, WalLogKind, WalPageBkStoreValue,
    WalPageIndexStoreValue,
};
use crate::store::wire::{be_bytes, new_buffer, put_u64, written};
use crate::store::{Dirty};
use crate::tools::decimal::{decimal, push_u64};
use crate::tools::ordered_map::{ascending, entries_map};
use bytes::BytesMut;
use vstd::prelude::*;
use vstd::string::StringExecFns;

verus! {

/// Bytes to be written to a file and made durable before what follows them.
///
/// The write has its place among the records of the log: the records whose
/// action id is below `log_position` are written to the log before it, and
/// the others after it. So the writes and the records are one sequence.
#[derive(Debug)]
pub struct FileWrite {
    pub path: String,
    /// The place of the first byte in the file.
    pub seek_pos: u64,
    /// Whether the file is emptied before the bytes are written.
    pub truncate: bool,
    pub bytes: BytesMut,
    /// The action id that the log handed out next when the write was made.
    pub log_position: u64,
    /// The transaction that makes the write, and what it writes out.
    pub flush: Flush,
}

/// A transaction that writes something out: its id, and what its record
/// tells was put into a shadow file.
#[derive(Debug, Clone, Copy)]
pub struct Flush {
    pub tid: u64,
    pub told: Shadowed,
}

/// The transaction `tid` that writes out the page `page`.
pub open spec fn page_flush(tid: u64, page: PageView) -> Flush {
    Flush { tid, told: Shadowed::Page(bk_value(page)) }
}

/// The transaction `tid` that writes out the index of the pages of slot
/// `slot_id`.
pub open spec fn index_flush(tid: u64, slot_id: u16) -> Flush {
    Flush { tid, told: Shadowed::Index(WalPageIndexStoreValue { slot_id }) }
}

/// A `FileWrite` with its path as a sequence of characters and its bytes as
/// a sequence.
pub struct FileWriteView {
    pub path: Seq<char>,
    pub seek_pos: u64,
    pub truncate: bool,
    pub bytes: Seq<u8>,
    pub log_position: u64,
    pub flush: Flush,
}

impl View for FileWrite {
    type V = FileWriteView;

    open spec fn view(&self) -> FileWriteView {
        FileWriteView {
            path: self.path@,
            seek_pos: self.seek_pos,
            truncate: self.truncate,
            bytes: written(self.bytes),
            log_position: self.log_position,
            flush: self.flush,
        }
    }
}

/// The writes, as sequences.
pub open spec fn write_views(writes: Seq<FileWrite>) -> Seq<FileWriteView> {
    Seq::new(writes.len(), |i: int| writes[i]@)
}

/// The name of a file of slot `slot_id` in the directory `dir`.
pub open spec fn spec_slot_file(dir: Seq<char>, slot_id: u16, suffix: Seq<char>) -> Seq<char> {
    dir + "/slot_"@ + decimal(slot_id as nat) + suffix
}

/// The name of the file that holds the index of the slot's pages.
pub open spec fn spec_index_path(dir: Seq<char>, slot_id: u16) -> Seq<char> {
    spec_slot_file(dir, slot_id, "_index"@)
}

/// The name of the shadow of the index file.
pub open spec fn spec_index_bk_path(dir: Seq<char>, slot_id: u16) -> Seq<char> {
    spec_slot_file(dir, slot_id, "_index_bk"@)
}

/// The name of the file that takes a page before it is written in place.
pub open spec fn spec_shard_path(dir: Seq<char>, slot_id: u16) -> Seq<char> {
    spec_slot_file(dir, slot_id, "_shard"@)
}

/// The number of the page file that holds the page `page_id`.
pub open spec fn spec_file_index(page_id: u64) -> u64 {
    ((PAGE_SIZE * page_id) / (FILE_SIZE as int)) as u64
}

/// The place of the page `page_id` in its page file.
pub open spec fn spec_seek_pos(page_id: u64) -> u64 {
    ((PAGE_SIZE * page_id) % (FILE_SIZE as int)) as u64
}

/// The name of the page file that holds the page `page_id`.
pub open spec fn spec_page_path(dir: Seq<char>, slot_id: u16, page_id: u64) -> Seq<char> {
    spec_slot_file(dir, slot_id, "_page_"@ + decimal(spec_file_index(page_id) as nat))
}

/// The write of a page's bytes to the shadow file of its slot.
pub open spec fn shadow_write(
    dir: Seq<char>,
    slot_id: u16,
    bytes: Seq<u8>,
    log_position: u64,
    flush: Flush,
) -> FileWriteView {
    FileWriteView {
        path: spec_shard_path(dir, slot_id),
        seek_pos: 0,
        truncate: true,
        bytes,
        log_position,
        flush,
    }
}

/// The write of a page's bytes to its place in its page file.
pub open spec fn page_write(
    dir: Seq<char>,
    slot_id: u16,
    page_id: u64,
    bytes: Seq<u8>,
    log_position: u64,
    flush: Flush,
) -> FileWriteView {
    FileWriteView {
        path: spec_page_path(dir, slot_id, page_id),
        seek_pos: spec_seek_pos(page_id),
        truncate: false,
        bytes,
        log_position,
        flush,
    }
}

/// What the record that tells of a page in the shadow file holds.
pub open spec fn bk_value(page: PageView) -> WalPageBkStoreValue {
    WalPageBkStoreValue {
        slot_id: page.slot_id,
        page_id: page.id,
        min_pk: page.min_pk,
        max_pk: page.max_pk,
    }
}

/// The three records of a transaction that writes something out: it begins,
/// tells what was put into a shadow file, and commits.
pub open spec fn flush_records(tid: u64, first_action: u64, told: LogValueView) -> Seq<LogItemView> {
    seq![
        LogItemView { tid, kind: WalLogKind::Begin, action_id: first_action, value: None },
        LogItemView {
            tid,
            kind: match told {
                LogValueView::PageIndexStore(_) => WalLogKind::PageIndexStore,
                LogValueView::PageBkStore(_) => WalLogKind::PageBkStore,
                LogValueView::FeatureUpdate(_) => WalLogKind::FeatureUpdate,
            },
            action_id: (first_action + 1) as u64,
            value: Some(told),
        },
        LogItemView {
            tid,
            kind: WalLogKind::Commit,
            action_id: (first_action + 2) as u64,
            value: None,
        },
    ]
}

/// The writes of a transaction that writes something out have their places
/// between its records: the write to the shadow file, with the place
/// `first_action + 1`, comes behind the record that begins the transaction
/// and before the record that tells of the shadow file; the write to the
/// place itself, with the place `first_action + 2`, comes behind that record
/// and before the record that commits.
pub proof fn lemma_write_order(
    tid: u64,
    first_action: u64,
    told: LogValueView,
    shadow: FileWriteView,
    primary: FileWriteView,
)
    requires
        first_action + 2 <= u64::MAX,
        shadow.log_position == first_action + 1,
        primary.log_position == first_action + 2,
    ensures
        ({
            let records = flush_records(tid, first_action, told);
            &&& records[0].kind == WalLogKind::Begin
            &&& records[0].action_id < shadow.log_position <= records[1].action_id
            &&& records[1].value == Some(told)
            &&& records[1].action_id < primary.log_position <= records[2].action_id
            &&& records[2].kind == WalLogKind::Commit
        }),
{
}

/// The pages with their lower bounds before them.
pub open spec fn keyed(made: Seq<Page>) -> Seq<(u64, Page)> {
    Seq::new(made.len(), |k: int| (made[k]@.min_pk, made[k]))
}

/// The pages `before` with the pages `made` in the place of page `i`.
#[verifier::opaque]
pub open spec fn spliced(before: Seq<(u64, Page)>, i: int, made: Seq<Page>) -> Seq<(u64, Page)> {
    before.take(i) + keyed(made) + before.skip(i + 1)
}

/// The bits `after` are the bits `before` with the ids of `made` set and the
/// id `old_id` clear.
pub open spec fn ids_moved(before: Seq<bool>, after: Seq<bool>, old_id: u64, made: Seq<Page>) -> bool {
    &&& after.len() == before.len()
    &&& forall|id: int|
        0 <= id < before.len() ==> (#[trigger] after[id] == (id != old_id && (before[id]
            || exists|k: int| 0 <= k < made.len() && (#[trigger] made[k])@.id == id)))
}

/// What the pages hold at each index when the pages `made` take the place of
/// page `i`.
pub proof fn lemma_spliced_index(before: Seq<(u64, Page)>, i: int, made: Seq<Page>, j: int)
    requires
        0 <= i < before.len(),
        0 <= j < before.len() - 1 + made.len(),
    ensures
        spliced(before, i, made).len() == before.len() - 1 + made.len(),
        j < i ==> spliced(before, i, made)[j] == before[j],
        i <= j < i + made.len() ==> spliced(before, i, made)[j] == (made[j - i]@.min_pk, made[j - i]),
        i + made.len() <= j ==> spliced(before, i, made)[j] == before[j - made.len() + 1],
{
    reveal(spliced);
}

/// The length of the pages when the pages `made` take the place of page `i`.
pub proof fn lemma_spliced_len(before: Seq<(u64, Page)>, i: int, made: Seq<Page>)
    requires
        0 <= i < before.len(),
    ensures
        spliced(before, i, made).len() == before.len() - 1 + made.len(),
{
    reveal(spliced);
}

/// The pages are well formed pages of slot `slot_id` whose ranges follow one
/// another from `min_pk` to `max_pk`, none of them empty.
pub open spec fn chain(made: Seq<Page>, min_pk: u64, max_pk: u64, slot_id: u16) -> bool {
    &&& made.len() >= 1
    &&& made[0]@.min_pk == min_pk
    &&& made.last()@.max_pk == max_pk
    &&& forall|k: int|
        0 <= k < made.len() ==> {
            let page = #[trigger] made[k];
            &&& page.wf()
            &&& page@.slot_id == slot_id
            &&& page@.min_pk < page@.max_pk
        }
    &&& forall|k: int, l: int|
        0 <= k && l == k + 1 && l < made.len() ==> (#[trigger] made[k])@.max_pk == (
        #[trigger] made[l])@.min_pk
}

/// The pages into which a page with a range that is not empty was split
/// follow one another through that range.
pub proof fn lemma_split_chain(page: &Page, made: Seq<Page>, slot_id: u16)
    requires
        page@.min_pk < page@.max_pk,
        is_split(page, made, slot_id),
        split_bounds(page.entries(), page@.min_pk).len() >= 1,
        split_bounds(page.entries(), page@.min_pk)[0] == page@.min_pk,
        bounds_ascending(split_bounds(page.entries(), page@.min_pk)),
        forall|a: int|
            1 <= a < split_bounds(page.entries(), page@.min_pk).len() ==> page@.min_pk
                < #[trigger] split_bounds(page.entries(), page@.min_pk)[a] < page@.max_pk,
    ensures
        chain(made, page@.min_pk, page@.max_pk, slot_id),
{
    let bounds = split_bounds(page.entries(), page@.min_pk);
    let m = made.len() as int;
    assert(made[0]@.min_pk == bounds[0]);
    assert(made[m - 1]@.max_pk == page@.max_pk);
    assert forall|k: int| 0 <= k < made.len() implies {
        let p = #[trigger] made[k];
        &&& p.wf()
        &&& p@.slot_id == slot_id
        &&& p@.min_pk < p@.max_pk
    } by {
        assert(made[k]@.min_pk == bounds[k]);
        if k + 1 < m {
            assert(bounds[k] < bounds[k + 1]);
        } else if k >= 1 {
            assert(bounds[k] < page@.max_pk);
        }
    }
    assert forall|k: int, l: int| 0 <= k && l == k + 1 && l < made.len() implies (
    #[trigger] made[k])@.max_pk == (#[trigger] made[l])@.min_pk by {
        assert(made[k]@.max_pk == bounds[k + 1]);
        assert(made[l]@.min_pk == bounds[k + 1]);
    }
}

/// The pages of a chain begin one behind the other.
pub proof fn lemma_chain_order(
    made: Seq<Page>,
    min_pk: u64,
    max_pk: u64,
    slot_id: u16,
    a: int,
    b: int,
)
    requires
        chain(made, min_pk, max_pk, slot_id),
        0 <= a < b < made.len(),
    ensures
        made[a]@.min_pk < made[b]@.min_pk,
    decreases b - a,
{
    assert(made[b - 1]@.max_pk == made[b]@.min_pk);
    assert(made[b - 1]@.min_pk < made[b - 1]@.max_pk);
    if a < b - 1 {
        lemma_chain_order(made, min_pk, max_pk, slot_id, a, b - 1);
    }
}

/// Pages that follow one another through the range of page `i` keep the
/// ranges in order when they take its place.
pub proof fn lemma_spliced_ranges(before: Seq<(u64, Page)>, i: int, made: Seq<Page>, slot_id: u16)
    requires
        0 <= i < before.len(),
        ranges_ok(before, slot_id),
        chain(made, before[i].1@.min_pk, before[i].1@.max_pk, slot_id),
    ensures
        ranges_ok(spliced(before, i, made), slot_id),
        tiles(before) ==> tiles(spliced(before, i, made)),
{
    let after = spliced(before, i, made);
    let m = made.len() as int;
    lemma_spliced_len(before, i, made);
    assert forall|j: int| 0 <= j < after.len() implies {
        let p = (#[trigger] after[j]).1;
        &&& p.wf()
        &&& p@.min_pk == after[j].0
        &&& p@.slot_id == slot_id
        &&& p@.min_pk < p@.max_pk
    } by {
        lemma_spliced_index(before, i, made, j);
        if j < i {
            assert(before[j].1.wf());
        } else if j < i + m {
            assert(made[j - i].wf());
        } else {
            assert(before[j - m + 1].1.wf());
        }
    }
    assert forall|j: int, l: int| 0 <= j && l == j + 1 && l < after.len() implies (
    #[trigger] after[j]).1@.max_pk <= (#[trigger] after[l]).1@.min_pk && (tiles(before)
        ==> after[j].1@.max_pk == after[l].1@.min_pk) by {
        lemma_spliced_index(before, i, made, j);
        lemma_spliced_index(before, i, made, j + 1);
        if j + 1 < i {
            assert(before[j].1@.max_pk <= before[j + 1].1@.min_pk);
        } else if j + 1 == i {
            assert(before[j].1@.max_pk <= before[j + 1].1@.min_pk);
        } else if j + 1 < i + m {
            assert(made[j - i]@.max_pk == made[j - i + 1]@.min_pk);
        } else if j + 1 == i + m {
            assert(before[i].1@.max_pk <= before[i + 1].1@.min_pk);
        } else {
            assert(before[j - m + 1].1@.max_pk <= before[j - m + 2].1@.min_pk);
        }
    }
    assert(ranges_ordered(after));
    assert(ascending(after)) by {
        assert forall|a: int, b: int| 0 <= a < b < after.len() implies after[a].0 < after[b].0 by {
            crate::store::slot::lemma_tiles_order(after, a, b);
        }
    }
    if tiles(before) {
        lemma_spliced_index(before, i, made, 0);
        lemma_spliced_index(before, i, made, after.len() - 1);
    }
}

/// Pages with fresh ids keep the ids apart when they take the place of page
/// `i`, whose id is given back.
pub proof fn lemma_spliced_ids(
    before: Seq<(u64, Page)>,
    i: int,
    made: Seq<Page>,
    bits: Seq<bool>,
    mid: Seq<bool>,
    after_bits: Seq<bool>,
)
    requires
        0 <= i < before.len(),
        ids_ok(before, bits),
        fresh_ids(made, bits, mid),
        after_bits == mid.update(before[i].1@.id as int, false),
    ensures
        ids_ok(spliced(before, i, made), after_bits),
        bitmap_exact(before, bits) ==> bitmap_exact(spliced(before, i, made), after_bits),
        ids_moved(bits, after_bits, before[i].1@.id, made),
{
    let after = spliced(before, i, made);
    let m = made.len() as int;
    let old_id = before[i].1@.id;
    lemma_spliced_len(before, i, made);
    assert(bits[old_id as int]);
    assert forall|j: int| 0 <= j < after.len() implies (#[trigger] after[j]).1@.id
        < after_bits.len() && after_bits[after[j].1@.id as int] by {
        lemma_spliced_index(before, i, made, j);
        if j < i {
            assert(before[j].1@.id != before[i].1@.id);
            assert(bits[before[j].1@.id as int]);
        } else if j < i + m {
            let k = j - i;
            assert(!bits[made[k]@.id as int]);
            assert(mid[made[k]@.id as int]);
        } else {
            assert(before[i].1@.id != before[j - m + 1].1@.id);
            assert(bits[before[j - m + 1].1@.id as int]);
        }
    }
    assert forall|a: int, b: int| 0 <= a < b < after.len() implies (#[trigger] after[a]).1@.id != (
    #[trigger] after[b]).1@.id by {
        lemma_spliced_index(before, i, made, a);
        lemma_spliced_index(before, i, made, b);
        let in_a = i <= a < i + m;
        let in_b = i <= b < i + m;
        if in_a && in_b {
            assert(made[a - i]@.id != made[b - i]@.id);
        } else if in_a {
            assert(!bits[made[a - i]@.id as int]);
            assert(bits[before[b - m + 1].1@.id as int]);
        } else if in_b {
            assert(!bits[made[b - i]@.id as int]);
            assert(bits[before[a].1@.id as int]);
        } else {
            let x = if a < i { a } else { a - m + 1 };
            let y = if b < i { b } else { b - m + 1 };
            assert(before[x].1@.id != before[y].1@.id);
        }
    }
    if bitmap_exact(before, bits) {
        assert forall|id: int| 0 <= id < after_bits.len() && #[trigger] after_bits[id] implies exists|
            j: int,
        | 0 <= j < after.len() && (#[trigger] after[j]).1@.id == id by {
            assert(mid[id] && id != old_id);
            if bits[id] {
                let x = choose|x: int| 0 <= x < before.len() && (#[trigger] before[x]).1@.id == id;
                let j = if x < i { x } else { x + m - 1 };
                lemma_spliced_index(before, i, made, j);
                assert(after[j].1@.id == id);
            } else {
                let k = choose|k: int| 0 <= k < made.len() && (#[trigger] made[k])@.id == id;
                lemma_spliced_index(before, i, made, i + k);
                assert(after[i + k].1@.id == id);
            }
        }
    }
    assert forall|id: int| 0 <= id < bits.len() implies (#[trigger] after_bits[id] == (id != old_id
        && (bits[id] || exists|k: int| 0 <= k < made.len() && (#[trigger] made[k])@.id == id))) by {
        assert(mid[id] == (bits[id] || exists|k: int|
            0 <= k < made.len() && (#[trigger] made[k])@.id == id));
    }
}

/// The pages into which page `i` was split hold in its place what the pages
/// held before.
pub proof fn lemma_spliced_content(before: Seq<(u64, Page)>, i: int, made: Seq<Page>)
    requires
        0 <= i < before.len(),
        same_data(made, before[i].1@.data),
    ensures
        same_content(before, spliced(before, i, made)),
{
    let after = spliced(before, i, made);
    let m = made.len() as int;
    let data = before[i].1@.data;
    lemma_spliced_len(before, i, made);
    assert forall|key: Seq<char>, windows: Map<u64, ValueKind>|
        holds(before, key, windows) == holds(after, key, windows) by {
        if holds(before, key, windows) {
            let x = choose|x: int|
                0 <= x < before.len() && (#[trigger] before[x]).1@.data.contains_key(key)
                    && before[x].1@.data[key] == windows;
            if x == i {
                assert(data.contains_key(key));
                let k = choose|k: int|
                    0 <= k < made.len() && (#[trigger] made[k])@.data.contains_key(key)
                        && made[k]@.data[key] == data[key];
                lemma_spliced_index(before, i, made, i + k);
                assert(after[i + k].1@.data.contains_key(key));
            } else {
                let j = if x < i { x } else { x + m - 1 };
                lemma_spliced_index(before, i, made, j);
                assert(after[j].1@.data.contains_key(key));
            }
        }
        if holds(after, key, windows) {
            let j = choose|j: int|
                0 <= j < after.len() && (#[trigger] after[j]).1@.data.contains_key(key)
                    && after[j].1@.data[key] == windows;
            lemma_spliced_index(before, i, made, j);
            if j < i {
                assert(before[j].1@.data.contains_key(key));
            } else if j < i + m {
                assert(made[j - i]@.data.contains_key(key));
                assert(before[i].1@.data.contains_key(key));
            } else {
                assert(before[j - m + 1].1@.data.contains_key(key));
            }
        }
    }
}

/// The pages of `pages` from index `i` on, `m` of them.
pub open spec fn run(pages: Seq<(u64, Page)>, i: int, m: int) -> Seq<Page> {
    Seq::new(m as nat, |k: int| pages[i + k].1)
}

/// The writes of the pages `made` to their places in the page files.
pub open spec fn page_writes(
    dir: Seq<char>,
    slot_id: u16,
    made: Seq<Page>,
    log_position: u64,
    flush: Flush,
) -> Seq<FileWriteView> {
    Seq::new(
        made.len(),
        |k: int| page_write(dir, slot_id, made[k]@.id, made[k].spec_encode(), log_position, flush),
    )
}

/// The pages without page `i` are well formed as the pages were.
pub proof fn lemma_removed(before: Seq<(u64, Page)>, i: int, slot_id: u16, bits: Seq<bool>)
    requires
        0 <= i < before.len(),
        pages_wf(before, slot_id, bits),
    ensures
        pages_wf(before.remove(i), slot_id, bits),
{
    let after = before.remove(i);
    assert forall|j: int| 0 <= j < after.len() implies (#[trigger] after[j]) == before[if j < i {
        j
    } else {
        j + 1
    }] by {}
    assert forall|j: int| 0 <= j < after.len() implies {
        let page = (#[trigger] after[j]).1;
        &&& page.wf()
        &&& page@.min_pk == after[j].0
        &&& page@.slot_id == slot_id
        &&& page@.min_pk < page@.max_pk
        &&& page@.id < bits.len()
        &&& bits[page@.id as int]
    } by {
        let x = if j < i { j } else { j + 1 };
        assert(after[j] == before[x]);
        assert(before[x].1.wf());
        assert(bits[before[x].1@.id as int]);
    }
    assert forall|j: int, l: int| 0 <= j && l == j + 1 && l < after.len() implies (
    #[trigger] after[j]).1@.max_pk <= (#[trigger] after[l]).1@.min_pk by {
        let x = if j < i { j } else { j + 1 };
        let y = if j + 1 < i { j + 1 } else { j + 2 };
        assert(after[j] == before[x] && after[l] == before[y]);
        crate::store::slot::lemma_tiles_order(before, x, y);
    }
    assert forall|a: int, b: int| 0 <= a < b < after.len() implies after[a].0 < after[b].0 && (
    #[trigger] after[a]).1@.id != (#[trigger] after[b]).1@.id by {
        let x = if a < i { a } else { a + 1 };
        let y = if b < i { b } else { b + 1 };
        assert(after[a] == before[x] && after[b] == before[y]);
        assert(before[x].1@.id != before[y].1@.id);
    }
}

/// The bytes of the index of the pages: for each page, in the order of the
/// ranges, its lower bound and its id in eight bytes each.
pub open spec fn index_bytes(pages: Seq<(u64, Page)>) -> Seq<u8>
    decreases pages.len(),
{
    if pages.len() == 0 {
        Seq::empty()
    } else {
        index_bytes(pages.drop_last()) + be_bytes(pages.last().0 as nat, 8) + be_bytes(
            pages.last().1@.id as nat,
            8,
        )
    }
}

/// The write of the bytes of an index of pages to a file that holds nothing
/// else.
pub open spec fn index_write(
    path: Seq<char>,
    bytes: Seq<u8>,
    log_position: u64,
    flush: Flush,
) -> FileWriteView {
    FileWriteView { path, seek_pos: 0, truncate: true, bytes, log_position, flush }
}

/// Pages that hold what other pages hold, which hold what yet others hold,
/// hold what those hold.
pub proof fn lemma_same_content_transitive(
    a: Seq<(u64, Page)>,
    b: Seq<(u64, Page)>,
    c: Seq<(u64, Page)>,
)
    requires
        same_content(a, b),
        same_content(b, c),
    ensures
        same_content(a, c),
{
    assert forall|key: Seq<char>, windows: Map<u64, ValueKind>|
        holds(a, key, windows) == holds(c, key, windows) by {
        assert(holds(a, key, windows) == holds(b, key, windows));
        assert(holds(b, key, windows) == holds(c, key, windows));
    }
}

/// The file number and the place in the file of the page `page_id`.
pub fn page_file_position(page_id: u64) -> (r: (u64, u64))
    ensures
        r.0 == spec_file_index(page_id),
        r.1 == spec_seek_pos(page_id),
{
    let product: u128 = 65_536 * (page_id as u128);
    ((product / 1_073_741_824) as u64, (product % 1_073_741_824) as u64)
}

/// The name of a file of slot `slot_id` in the directory `dir`.
fn slot_file(dir: &String, slot_id: u16, suffix: &str) -> (path: String)
    ensures
        path@ == spec_slot_file(dir@, slot_id, suffix@),
{
    let mut path = dir.clone();
    path.append("/slot_");
    push_u64(&mut path, slot_id as u64);
    path.append(suffix);
    path
}

/// The name of the file that holds the index of the pages of slot `slot_id`
/// in the directory `dir`.
pub fn index_path(dir: &String, slot_id: u16) -> (path: String)
    ensures
        path@ == spec_index_path(dir@, slot_id),
{
    slot_file(dir, slot_id, "_index")
}

/// The name of the shadow of the index file of slot `slot_id`.
pub fn index_bk_path(dir: &String, slot_id: u16) -> (path: String)
    ensures
        path@ == spec_index_bk_path(dir@, slot_id),
{
    slot_file(dir, slot_id, "_index_bk")
}

/// The name of the file that takes a page of slot `slot_id` before it is
/// written in place.
pub fn shard_path(dir: &String, slot_id: u16) -> (path: String)
    ensures
        path@ == spec_shard_path(dir@, slot_id),
{
    slot_file(dir, slot_id, "_shard")
}

/// The name of the page file of slot `slot_id` that holds the page
/// `page_id`, and the page's place in it.
pub fn page_store_file(dir: &String, slot_id: u16, page_id: u64) -> (r: (String, u64))
    ensures
        r.0@ == spec_page_path(dir@, slot_id, page_id),
        r.1 == spec_seek_pos(page_id),
{
    let (file_index, seek_pos) = page_file_position(page_id);
    let mut path = dir.clone();
    path.append("/slot_");
    push_u64(&mut path, slot_id as u64);
    path.append("_page_");
    push_u64(&mut path, file_index);
    proof {
        assert(path@ =~= spec_page_path(dir@, slot_id, page_id));
    }
    (path, seek_pos)
}

impl Slot {
    /// The name of the file that holds the index of the slot's pages.
    pub fn get_slot_index_path(&self) -> (path: String)
        ensures
            path@ == spec_index_path(self.spec_data_dir(), self.spec_id()),
    {
        index_path(self.data_dir(), self.id())
    }

    /// The name of the shadow of the index file.
    pub fn get_slot_index_path_bk(&self) -> (path: String)
        ensures
            path@ == spec_index_bk_path(self.spec_data_dir(), self.spec_id()),
    {
        index_bk_path(self.data_dir(), self.id())
    }

    /// The name of the file that takes a page before it is written in place.
    pub fn get_shard_page_store_file(&self) -> (path: String)
        ensures
            path@ == spec_shard_path(self.spec_data_dir(), self.spec_id()),
    {
        shard_path(self.data_dir(), self.id())
    }

    /// The name of the page file that holds the page `page_id`, and the
    /// page's place in it.
    pub fn get_page_store_file(&self, page_id: u64) -> (r: (String, u64))
        ensures
            r.0@ == spec_page_path(self.spec_data_dir(), self.spec_id(), page_id),
            r.1 == spec_seek_pos(page_id),
    {
        page_store_file(self.data_dir(), self.id(), page_id)
    }

    /// Whether `after` is `before` but for the sending of the three records
    /// of a transaction that writes out what `told` tells.
    pub open spec fn flush_logged(before: Wal, after: Wal, told: LogValueView) -> bool {
        &&& after.sent() == before.sent() + flush_records(
            before.ids().next_tid,
            before.ids().next_action_id,
            told,
        )
        &&& after.ids().next_tid == crate::store::wal::next_id(before.ids().next_tid)
        &&& after.ids().next_action_id == before.ids().next_action_id + 3
        &&& after.written_count() == before.written_count()
        &&& after.state() == before.state()
        &&& Wal::same_writer(before, after)
    }

    /// Writes out the page with index `i`, which fits its place in the page
    /// file: to the shadow file first, then in place; the page is clean
    /// after that.
    #[verifier::rlimit(30)]
    fn store_in_place(&mut self, i: usize, wal: &mut Wal, writes: &mut Vec<FileWrite>)
        requires
            old(self).complete(),
            old(wal).wf(),
            i < old(self).pages().len(),
            old(self).pages()[i as int].1.encodable(),
            old(wal).ids().next_action_id + 3 <= u64::MAX,
        ensures
            final(self).complete(),
            final(wal).wf(),
            final(self).spec_id() == old(self).spec_id(),
            final(self).spec_data_dir() == old(self).spec_data_dir(),
            final(self).bitmap() == old(self).bitmap(),
            final(self).dirty_queue() == old(self).dirty_queue(),
            final(self).index_mark() == old(self).index_mark(),
            page_changed(old(self).pages(), final(self).pages(), i as int),
            final(self).pages()[i as int].1@ == old(self).pages()[i as int].1@,
            final(self).pages()[i as int].1.entries() == old(self).pages()[i as int].1.entries(),
            final(self).pages()[i as int].1.dirty_mark() is None,
            same_content(old(self).pages(), final(self).pages()),
            Self::flush_logged(
                *old(wal),
                *final(wal),
                LogValueView::PageBkStore(bk_value(old(self).pages()[i as int].1@)),
            ),
            write_views(final(writes)@) == write_views(old(writes)@) + seq![
                shadow_write(
                    old(self).spec_data_dir(),
                    old(self).spec_id(),
                    old(self).pages()[i as int].1.spec_encode(),
                    (old(wal).ids().next_action_id + 1) as u64,
                    page_flush(old(wal).ids().next_tid, old(self).pages()[i as int].1@),
                ),
                page_write(
                    old(self).spec_data_dir(),
                    old(self).spec_id(),
                    old(self).pages()[i as int].1@.id,
                    old(self).pages()[i as int].1.spec_encode(),
                    (old(wal).ids().next_action_id + 2) as u64,
                    page_flush(old(wal).ids().next_tid, old(self).pages()[i as int].1@),
                ),
            ],
    {
        let ghost before = self.pages();
        let ghost sent = wal.sent();
        let ghost first = wal.ids().next_action_id;
        let tid = wal.generate_tid();
        let _ = wal.send_begin_log(tid);
        let page = self.page_at(i);
        assert(before[i as int].1.wf());
        let mut shadow = new_buffer();
        let _ = page.encode(&mut shadow);
        let mut in_place = new_buffer();
        let _ = page.encode(&mut in_place);
        let told = WalPageBkStoreValue {
            slot_id: page.slot_id(),
            page_id: page.id(),
            min_pk: page.min_pk(),
            max_pk: page.max_pk(),
        };
        let (path, seek_pos) = self.get_page_store_file(page.id());
        let shadow_path = self.get_shard_page_store_file();
        let flush = Flush { tid, told: Shadowed::Page(told) };
        let ghost held = writes@;
        writes.push(
            FileWrite {
                path: shadow_path,
                seek_pos: 0,
                truncate: true,
                bytes: shadow,
                log_position: wal.id_source().next_action_id,
                flush,
            },
        );
        let _ = wal.send_page_bk_store_log(tid, told);
        writes.push(
            FileWrite {
                path,
                seek_pos,
                truncate: false,
                bytes: in_place,
                log_position: wal.id_source().next_action_id,
                flush,
            },
        );
        let page = self.page_mut(i);
        page.reset_dirty();
        let _ = wal.commit_log(tid);
        proof {
            let bytes = before[i as int].1.spec_encode();
            assert(Seq::<u8>::empty() + bytes =~= bytes);
            assert(write_views(writes@) =~= write_views(held) + seq![
                shadow_write(self.spec_data_dir(), self.spec_id(), bytes, (first + 1) as u64, page_flush(tid, before[i as int].1@)),
                page_write(self.spec_data_dir(), self.spec_id(), before[i as int].1@.id, bytes, (first + 2) as u64, page_flush(tid, before[i as int].1@)),
            ]);
            assert(wal.sent() =~= sent + flush_records(
                tid,
                first,
                LogValueView::PageBkStore(bk_value(before[i as int].1@)),
            ));
            assert(page_changed(before, self.pages(), i as int));
            lemma_page_changed(before, self.pages(), i as int, self.spec_id(), self.bitmap());
            lemma_page_same_data(before, self.pages(), i as int);
        }
    }

    /// Puts the pages `made` among the slot's pages from index `i` on.
    pub(crate) fn insert_run(&mut self, i: usize, made: Vec<Page>)
        requires
            ascending(old(self).pages()),
            i <= old(self).pages().len(),
            made@.len() >= 1,
            forall|a: int, b: int|
                0 <= a < b < made@.len() ==> (#[trigger] made@[a])@.min_pk < (#[trigger] made@[b])@.min_pk,
            forall|j: int| 0 <= j < i ==> old(self).pages()[j].0 < made@[0]@.min_pk,
            forall|j: int|
                i <= j < old(self).pages().len() ==> made@.last()@.min_pk < old(self).pages()[j].0,
        ensures
            final(self).pages() == old(self).pages().take(i as int) + keyed(made@) + old(
                self,
            ).pages().skip(i as int),
            final(self).inner_wf() == old(self).inner_wf(),
            final(self).spec_id() == old(self).spec_id(),
            final(self).spec_data_dir() == old(self).spec_data_dir(),
            final(self).bitmap() == old(self).bitmap(),
            final(self).dirty_queue() == old(self).dirty_queue(),
            final(self).index_mark() == old(self).index_mark(),
    {
        let mut made = made;
        let ghost all = made@;
        let ghost base = self.pages();
        let mut k: usize = made.len();
        proof {
            assert(all.skip(k as int) =~= Seq::empty());
            assert(base.take(i as int) + keyed(all.skip(k as int)) + base.skip(i as int) =~= base);
        }
        while k > 0
            invariant
                all.len() >= 1,
                k <= all.len(),
                made@ == all.take(k as int),
                i <= base.len(),
                forall|a: int, b: int|
                    0 <= a < b < all.len() ==> (#[trigger] all[a])@.min_pk < (#[trigger] all[b])@.min_pk,
                forall|j: int| 0 <= j < i ==> base[j].0 < all[0]@.min_pk,
                forall|j: int| i <= j < base.len() ==> all.last()@.min_pk < base[j].0,
                ascending(self.pages()),
                self.pages() == base.take(i as int) + keyed(all.skip(k as int)) + base.skip(i as int),
                self.inner_wf() == old(self).inner_wf(),
                self.spec_id() == old(self).spec_id(),
                self.spec_data_dir() == old(self).spec_data_dir(),
                self.bitmap() == old(self).bitmap(),
                self.dirty_queue() == old(self).dirty_queue(),
                self.index_mark() == old(self).index_mark(),
            decreases k,
        {
            let ghost now = self.pages();
            let page = match made.pop() {
                Some(page) => page,
                None => {
                    return ;
                },
            };
            k = k - 1;
            proof {
                assert(page == all[k as int]);
                assert(made@ =~= all.take(k as int));
                let rest = keyed(all.skip(k + 1));
                assert forall|j: int| 0 <= j < i implies now[j].0 < page@.min_pk by {
                    assert(now[j] == base[j]);
                    if k > 0 {
                        assert(all[0]@.min_pk < all[k as int]@.min_pk);
                    }
                }
                assert forall|j: int| i <= j < now.len() implies page@.min_pk < now[j].0 by {
                    if j - i < rest.len() {
                        assert(now[j] == rest[j - i]);
                        assert(all.skip(k + 1)[j - i] == all[k + 1 + (j - i)]);
                        assert(all[k as int]@.min_pk < all[k + 1 + (j - i)]@.min_pk);
                    } else {
                        assert(now[j] == base[j - rest.len()]);
                        if k < all.len() - 1 {
                            assert(all[k as int]@.min_pk < all[all.len() - 1]@.min_pk);
                        }
                    }
                }
            }
            self.put_page(i, page);
            proof {
                assert(self.pages() =~= base.take(i as int) + keyed(all.skip(k as int)) + base.skip(
                    i as int,
                ));
            }
        }
        proof {
            assert(all.skip(0) =~= all);
        }
    }

    /// Appends the writes of the pages `made` to their places in the page
    /// files, each with the place `log_position` among the records of the
    /// log.
    fn write_pages(
        &self,
        page: &Page,
        made: &Vec<Page>,
        writes: &mut Vec<FileWrite>,
        log_position: u64,
        flush: Flush,
    )
        requires
            page.wf(),
            page.encodable(),
            same_data(made@, page@.data),
            forall|k: int| 0 <= k < made@.len() ==> (#[trigger] made@[k]).wf(),
        ensures
            write_views(final(writes)@) == write_views(old(writes)@) + page_writes(
                self.spec_data_dir(),
                self.spec_id(),
                made@,
                log_position,
                flush,
            ),
    {
        let m = made.len();
        let mut k: usize = 0;
        let ghost held = write_views(writes@);
        proof {
            assert(held + page_writes(self.spec_data_dir(), self.spec_id(), made@.take(0), log_position, flush) =~= held);
        }
        while k < m
            invariant
                m == made@.len(),
                k <= m,
                page.wf(),
                page.encodable(),
                same_data(made@, page@.data),
                forall|t: int| 0 <= t < made@.len() ==> (#[trigger] made@[t]).wf(),
                write_views(writes@) == held + page_writes(
                    self.spec_data_dir(),
                    self.spec_id(),
                    made@.take(k as int),
                    log_position,
                    flush,
                ),
            decreases m - k,
        {
            proof {
                lemma_split_encodable(page, made@, k as int);
            }
            let mut bytes = new_buffer();
            let _ = made[k].encode(&mut bytes);
            let (path, seek_pos) = self.get_page_store_file(made[k].id());
            let ghost before = write_views(writes@);
            writes.push(FileWrite { path, seek_pos, truncate: false, bytes, log_position, flush });
            proof {
                let one = page_write(
                    self.spec_data_dir(),
                    self.spec_id(),
                    made@[k as int]@.id,
                    made@[k as int].spec_encode(),
                    log_position,
                    flush,
                );
                assert(Seq::<u8>::empty() + made@[k as int].spec_encode() =~= made@[k as int].spec_encode());
                assert(write_views(writes@) =~= before.push(one));
                assert(page_writes(self.spec_data_dir(), self.spec_id(), made@.take(k + 1), log_position, flush)
                    =~= page_writes(self.spec_data_dir(), self.spec_id(), made@.take(k as int), log_position, flush).push(
                    one,
                ));
            }
            k = k + 1;
        }
        proof {
            assert(made@.take(m as int) =~= made@);
        }
    }

    /// The page `page` was taken from index `i` of the pages of `before` and
    /// split into the pages `made`, whose ids are taken in `after`.
    #[verifier::opaque]
    pub open spec fn split_taken(before: Slot, after: Slot, i: int, page: Page, made: Seq<Page>) -> bool {
        &&& 0 <= i < before.pages().len()
        &&& before.wf()
        &&& after.inner_wf()
        &&& after.spec_id() == before.spec_id()
        &&& after.spec_data_dir() == before.spec_data_dir()
        &&& after.dirty_queue() == before.dirty_queue()
        &&& after.index_mark() == before.index_mark()
        &&& page == before.pages()[i].1
        &&& after.pages() == before.pages().remove(i)
        &&& is_split(&page, made, before.spec_id())
        &&& chain(made, page@.min_pk, page@.max_pk, before.spec_id())
        &&& fresh_ids(made, before.bitmap(), after.bitmap())
        &&& lowest_ids(made, before.bitmap())
        &&& clear_bits(before.bitmap()) >= split_bounds(page.entries(), page@.min_pk).len()
    }

    /// Takes the page with index `i` out of the slot's pages and splits it.
    /// Fails, and changes nothing, where fewer ids are free than the split
    /// needs pages.
    #[verifier::rlimit(30)]
    fn begin_split(&mut self, i: usize) -> (r: CustomResult<(Page, Vec<Page>)>)
        requires
            old(self).wf(),
            i < old(self).pages().len(),
        ensures
            final(self).wf(),
            final(self).spec_id() == old(self).spec_id(),
            final(self).spec_data_dir() == old(self).spec_data_dir(),
            final(self).dirty_queue() == old(self).dirty_queue(),
            final(self).index_mark() == old(self).index_mark(),
            match r {
                Ok((page, made)) => Self::split_taken(*old(self), *final(self), i as int, page, made@),
                Err(e) => {
                    &&& e.code == GENERIC_CODE
                    &&& clear_bits(old(self).bitmap()) < split_bounds(
                        old(self).pages()[i as int].1.entries(),
                        old(self).pages()[i as int].1@.min_pk,
                    ).len()
                    &&& final(self).pages() == old(self).pages()
                    &&& final(self).bitmap() == old(self).bitmap()
                },
            },
    {
        let ghost before = self.pages();
        proof {
            lemma_removed(before, i as int, self.spec_id(), self.bitmap());
        }
        let page = self.take_page(i);
        let ghost removed = self.pages();
        match page.split(self) {
            Ok(made) => {
                proof {
                    assert(page@.min_pk < page@.max_pk);
                    lemma_split_chain(&page, made@, self.spec_id());
                    reveal(Slot::split_taken);
                }
                Ok((page, made))
            },
            Err(e) => {
                proof {
                    assert forall|j: int| 0 <= j < i implies removed[j].0 < page@.min_pk by {
                        assert(removed[j] == before[j]);
                        assert(before[j].0 < before[i as int].0);
                    }
                    assert forall|j: int| i <= j < removed.len() implies page@.min_pk
                        < removed[j].0 by {
                        assert(removed[j] == before[j + 1]);
                        assert(before[i as int].0 < before[j + 1].0);
                    }
                }
                self.put_page(i, page);
                proof {
                    assert(self.pages() =~= before);
                }
                Err(e)
            },
        }
    }

    /// Sends the three records of the transaction that writes out `page`, and
    /// appends the writes: `page` to the shadow file, then the pages `made`
    /// to their places. Returns the id of the action that tells of the
    /// shadow.
    #[verifier::rlimit(30)]
    fn log_and_write(
        &self,
        page: &Page,
        made: &Vec<Page>,
        wal: &mut Wal,
        writes: &mut Vec<FileWrite>,
    ) -> (bk_action_id: u64)
        requires
            old(wal).wf(),
            old(wal).ids().next_action_id + 3 <= u64::MAX,
            page.encodable(),
            exists|before: Slot, i: int| Self::split_taken(before, *self, i, *page, made@),
        ensures
            final(wal).wf(),
            bk_action_id == old(wal).ids().next_action_id + 1,
            Self::flush_logged(*old(wal), *final(wal), LogValueView::PageBkStore(bk_value(page@))),
            write_views(final(writes)@) == write_views(old(writes)@) + seq![
                shadow_write(self.spec_data_dir(), self.spec_id(), page.spec_encode(), (old(wal).ids().next_action_id + 1) as u64, page_flush(old(wal).ids().next_tid, page@)),
            ] + page_writes(self.spec_data_dir(), self.spec_id(), made@, (old(wal).ids().next_action_id + 2) as u64, page_flush(old(wal).ids().next_tid, page@)),
    {
        let ghost sent = wal.sent();
        let ghost first = wal.ids().next_action_id;
        let ghost held = write_views(writes@);
        proof {
            reveal(Slot::split_taken);
            let (before, i) = choose|before: Slot, i: int|
                Self::split_taken(before, *self, i, *page, made@);
            assert(before.pages()[i].1.wf());
            assert forall|k: int| 0 <= k < made@.len() implies (#[trigger] made@[k]).wf() by {}
        }
        let tid = wal.generate_tid();
        let _ = wal.send_begin_log(tid);
        let mut shadow = new_buffer();
        let _ = page.encode(&mut shadow);
        let shadow_path = self.get_shard_page_store_file();
        let flush = Flush {
            tid,
            told: Shadowed::Page(
                WalPageBkStoreValue {
                    slot_id: page.slot_id(),
                    page_id: page.id(),
                    min_pk: page.min_pk(),
                    max_pk: page.max_pk(),
                },
            ),
        };
        writes.push(
            FileWrite {
                path: shadow_path,
                seek_pos: 0,
                truncate: true,
                bytes: shadow,
                log_position: wal.id_source().next_action_id,
                flush,
            },
        );
        let told = WalPageBkStoreValue {
            slot_id: page.slot_id(),
            page_id: page.id(),
            min_pk: page.min_pk(),
            max_pk: page.max_pk(),
        };
        let bk_action_id = match wal.send_page_bk_store_log(tid, told) {
            Ok(action_id) => action_id,
            Err(_) => 0,
        };
        proof {
            assert(Seq::<u8>::empty() + page.spec_encode() =~= page.spec_encode());
            assert(write_views(writes@) =~= held + seq![
                shadow_write(self.spec_data_dir(), self.spec_id(), page.spec_encode(), (first + 1) as u64, page_flush(tid, page@)),
            ]);
        }
        self.write_pages(page, made, writes, wal.id_source().next_action_id, flush);
        let _ = wal.commit_log(tid);
        proof {
            assert(wal.sent() =~= sent + flush_records(
                tid,
                first,
                LogValueView::PageBkStore(bk_value(page@)),
            ));
        }
        bk_action_id
    }

    /// Puts the pages `made`, into which the page `page` was split, in its
    /// place at index `i`, gives its id back, and marks the index of the
    /// pages as changed by action `action_id`.
    #[verifier::rlimit(30)]
    fn finish_split(
        &mut self,
        i: usize,
        page: &Page,
        made: Vec<Page>,
        action_id: u64,
        Ghost(start): Ghost<Slot>,
    )
        requires
            Self::split_taken(start, *old(self), i as int, *page, made@),
        ensures
            final(self).wf(),
            same_content(start.pages(), final(self).pages()),
            final(self).pages().len() == start.pages().len() - 1 + made@.len(),
            made@.len() == split_bounds(page.entries(), page@.min_pk).len(),
            clear_bits(start.bitmap()) >= made@.len(),
            run(final(self).pages(), i as int, made@.len() as int) == made@,
            is_split(page, made@, start.spec_id()),
            tiles(start.pages()) ==> tiles(final(self).pages()),
            bitmap_exact(start.pages(), start.bitmap()) ==> bitmap_exact(
                final(self).pages(),
                final(self).bitmap(),
            ),
            final(self).pages() == spliced(start.pages(), i as int, made@),
            ids_moved(start.bitmap(), final(self).bitmap(), page@.id, made@),
            lowest_ids(made@, start.bitmap()),
            final(self).index_mark() == Some(Dirty::spec_update(old(self).index_mark(), action_id)),
            final(self).spec_id() == old(self).spec_id(),
            final(self).spec_data_dir() == old(self).spec_data_dir(),
            final(self).dirty_queue() == old(self).dirty_queue(),
    {
        let ghost all = made@;
        let ghost removed = self.pages();
        let ghost mid = self.bitmap();
        let ghost before = start.pages();
        let ghost bits = start.bitmap();
        proof {
            reveal(Slot::split_taken);
            assert forall|a: int, b: int| 0 <= a < b < all.len() implies (#[trigger] all[a])@.min_pk
                < (#[trigger] all[b])@.min_pk by {
                lemma_chain_order(all, page@.min_pk, page@.max_pk, self.spec_id(), a, b);
            }
            assert forall|j: int| 0 <= j < i implies removed[j].0 < all[0]@.min_pk by {
                assert(removed[j] == before[j]);
                assert(before[j].0 < before[i as int].0);
            }
            assert forall|j: int| i <= j < removed.len() implies all.last()@.min_pk
                < removed[j].0 by {
                assert(removed[j] == before[j + 1]);
                crate::store::slot::lemma_tiles_order(before, i as int, j + 1);
                assert(all.last()@.min_pk < all.last()@.max_pk);
            }
            assert(ascending(removed)) by {
                assert forall|a: int, b: int| 0 <= a < b < removed.len() implies removed[a].0
                    < removed[b].0 by {
                    let x = if a < i { a } else { a + 1 };
                    let y = if b < i { b } else { b + 1 };
                    assert(removed[a] == before[x] && removed[b] == before[y]);
                }
            }
        }
        self.insert_run(i, made);
        self.freed_page(page.id());
        self.mark_index_dirty(action_id);
        proof {
            assert(removed.take(i as int) =~= before.take(i as int));
            assert(removed.skip(i as int) =~= before.skip(i + 1));
            assert(self.pages() =~= spliced(before, i as int, all)) by {
                reveal(spliced);
            }
            lemma_spliced_ranges(before, i as int, all, self.spec_id());
            lemma_spliced_ids(before, i as int, all, bits, mid, self.bitmap());
            lemma_spliced_content(before, i as int, all);
            lemma_spliced_len(before, i as int, all);
            let m = all.len() as int;
            assert(run(self.pages(), i as int, m) =~= all) by {
                assert forall|k: int| 0 <= k < m implies run(self.pages(), i as int, m)[k]
                    == all[k] by {
                    lemma_spliced_index(before, i as int, all, i + k);
                }
            }
        }
    }

    /// Writes out the page with index `i` by splitting it: the page goes to
    /// the shadow file, the pages into which it is split to their places in
    /// the page files; they take its place among the slot's pages, its id is
    /// given back, and the index of the pages is marked as changed.
    ///
    /// Fails, and changes nothing, where fewer ids are free than the split
    /// needs pages.
    #[verifier::rlimit(30)]
    fn store_split(&mut self, i: usize, wal: &mut Wal, writes: &mut Vec<FileWrite>) -> (r:
        CustomResult<()>)
        requires
            old(self).complete(),
            old(wal).wf(),
            i < old(self).pages().len(),
            old(self).pages()[i as int].1.encodable(),
            old(wal).ids().next_action_id + 3 <= u64::MAX,
        ensures
            final(self).complete(),
            final(wal).wf(),
            final(self).spec_id() == old(self).spec_id(),
            final(self).spec_data_dir() == old(self).spec_data_dir(),
            final(self).dirty_queue() == old(self).dirty_queue(),
            same_content(old(self).pages(), final(self).pages()),
            Self::split_stored(*old(self), *final(self), i as int, *old(wal), *final(wal), old(writes)@, final(writes)@, r),
    {
        let ghost start = *self;
        let (page, made) = match self.begin_split(i) {
            Ok(taken) => taken,
            Err(e) => {
                proof {
                    assert(same_content(start.pages(), self.pages()));
                }
                return Err(e);
            },
        };
        proof {
            assert(page == start.pages()[i as int].1) by {
                reveal(Slot::split_taken);
            }
        }
        let bk_action_id = self.log_and_write(&page, &made, wal, writes);
        self.finish_split(i, &page, made, bk_action_id, Ghost(start));
        Ok(())
    }

    /// What `store_split` has done to the slot `before`, the log `wal_before`
    /// and the writes `held`, given its result `r`.
    ///
    /// The write to the shadow file has its place behind the record that
    /// begins the transaction and before the record that tells of it; the
    /// writes of the new pages behind that record and before the record that
    /// commits.
    pub open spec fn split_stored(
        before: Slot,
        after: Slot,
        i: int,
        wal_before: Wal,
        wal_after: Wal,
        held: Seq<FileWrite>,
        writes: Seq<FileWrite>,
        r: CustomResult<()>,
    ) -> bool {
        let page = before.pages()[i].1;
        let m = split_bounds(page.entries(), page@.min_pk).len() as int;
        Self::same_place(before, after) && match r {
            Ok(_) => {
                let made = run(after.pages(), i, m);
                &&& clear_bits(before.bitmap()) >= m
                &&& after.pages().len() == before.pages().len() - 1 + m
                &&& after.pages() == spliced(before.pages(), i, made)
                &&& is_split(&page, made, before.spec_id())
                &&& ids_moved(before.bitmap(), after.bitmap(), page@.id, made)
                &&& lowest_ids(made, before.bitmap())
                &&& after.index_mark() == Some(
                    Dirty::spec_update(
                        before.index_mark(),
                        (wal_before.ids().next_action_id + 1) as u64,
                    ),
                )
                &&& Self::flush_logged(
                    wal_before,
                    wal_after,
                    LogValueView::PageBkStore(bk_value(page@)),
                )
                &&& write_views(writes) == write_views(held) + seq![
                    shadow_write(before.spec_data_dir(), before.spec_id(), page.spec_encode(), (wal_before.ids().next_action_id + 1) as u64, page_flush(wal_before.ids().next_tid, page@)),
                ] + page_writes(before.spec_data_dir(), before.spec_id(), made, (wal_before.ids().next_action_id + 2) as u64, page_flush(wal_before.ids().next_tid, page@))
            },
            Err(e) => {
                &&& e.code == GENERIC_CODE
                &&& clear_bits(before.bitmap()) < m
                &&& after.pages() == before.pages()
                &&& after.bitmap() == before.bitmap()
                &&& after.index_mark() == before.index_mark()
                &&& wal_after.sent() == wal_before.sent()
                &&& wal_after.ids() == wal_before.ids()
                &&& wal_after.written_count() == wal_before.written_count()
                &&& wal_after.state() == wal_before.state()
                &&& writes == held
            },
        }
    }

    /// The slot `after` has the id and the directory of the slot `before`.
    pub open spec fn same_place(before: Slot, after: Slot) -> bool {
        after.spec_id() == before.spec_id() && after.spec_data_dir() == before.spec_data_dir()
    }

    /// Whether nothing has changed from `before` to `after`, in the slot, in
    /// the log and in the writes.
    pub open spec fn unchanged(
        before: Slot,
        after: Slot,
        wal_before: Wal,
        wal_after: Wal,
        held: Seq<FileWrite>,
        writes: Seq<FileWrite>,
    ) -> bool {
        &&& Self::same_place(before, after)
        &&& after.pages() == before.pages()
        &&& after.bitmap() == before.bitmap()
        &&& after.index_mark() == before.index_mark()
        &&& wal_after.sent() == wal_before.sent()
        &&& wal_after.ids() == wal_before.ids()
        &&& wal_after.written_count() == wal_before.written_count()
        &&& wal_after.state() == wal_before.state()
        &&& writes == held
    }

    /// What `store_in_place` has done to the slot `before`, the log
    /// `wal_before` and the writes `held`.
    ///
    /// The write to the shadow file has its place behind the record that
    /// begins the transaction and before the record that tells of it; the
    /// write in place behind that record and before the record that commits.
    pub open spec fn in_place_stored(
        before: Slot,
        after: Slot,
        i: int,
        wal_before: Wal,
        wal_after: Wal,
        held: Seq<FileWrite>,
        writes: Seq<FileWrite>,
    ) -> bool {
        let page = before.pages()[i].1;
        &&& Self::same_place(before, after)
        &&& page_changed(before.pages(), after.pages(), i)
        &&& after.pages()[i].1@ == page@
        &&& after.pages()[i].1.entries() == page.entries()
        &&& after.pages()[i].1.dirty_mark() is None
        &&& after.bitmap() == before.bitmap()
        &&& after.index_mark() == before.index_mark()
        &&& Self::flush_logged(wal_before, wal_after, LogValueView::PageBkStore(bk_value(page@)))
        &&& write_views(writes) == write_views(held) + seq![
            shadow_write(before.spec_data_dir(), before.spec_id(), page.spec_encode(), (wal_before.ids().next_action_id + 1) as u64, page_flush(wal_before.ids().next_tid, page@)),
            page_write(before.spec_data_dir(), before.spec_id(), page@.id, page.spec_encode(), (wal_before.ids().next_action_id + 2) as u64, page_flush(wal_before.ids().next_tid, page@)),
        ]
    }

    /// What `store_one_page` has done to the slot `before`, the log
    /// `wal_before` and the writes `held`, given its result `r`.
    pub open spec fn page_stored(
        before: Slot,
        after: Slot,
        min_pk: u64,
        wal_before: Wal,
        wal_after: Wal,
        held: Seq<FileWrite>,
        writes: Seq<FileWrite>,
        r: CustomResult<()>,
    ) -> bool {
        if !entries_map(before.pages()).contains_key(min_pk) {
            r is Ok && Self::unchanged(before, after, wal_before, wal_after, held, writes)
        } else {
            let i = crate::tools::pairs::index_of(before.pages(), min_pk);
            let page = before.pages()[i].1;
            if !page.encodable() || wal_before.ids().next_action_id + 3 > u64::MAX {
                &&& r is Err
                &&& r->Err_0.code == GENERIC_CODE
                &&& Self::unchanged(before, after, wal_before, wal_after, held, writes)
            } else if page.spec_need_space() < PAGE_SIZE {
                r is Ok && Self::in_place_stored(
                    before,
                    after,
                    i,
                    wal_before,
                    wal_after,
                    held,
                    writes,
                )
            } else {
                Self::split_stored(before, after, i, wal_before, wal_after, held, writes, r)
            }
        }
    }

    /// Writes out the page that begins at `min_pk`, if there is one.
    ///
    /// A transaction begins; the page goes to the slot's shadow file, and a
    /// record tells so. A page that is shorter than its place in the page
    /// file then goes to that place and is clean. A longer page is split:
    /// the new pages go to their places and take the place of the page among
    /// the slot's pages, the id of the page is given back, and the index of
    /// the pages is marked as changed by the action of that record. The
    /// transaction commits. The writes are added to `writes` in their order.
    ///
    /// Fails, and changes nothing, where the page cannot be encoded, where
    /// fewer than three action ids are left, or where the split needs more
    /// pages than ids are free.
    #[verifier::rlimit(30)]
    pub fn store_one_page(
        &mut self,
        min_pk: u64,
        wal: &mut Wal,
        writes: &mut Vec<FileWrite>,
    ) -> (r: CustomResult<()>)
        requires
            old(self).complete(),
            old(wal).wf(),
        ensures
            final(self).complete(),
            final(wal).wf(),
            final(self).spec_id() == old(self).spec_id(),
            final(self).spec_data_dir() == old(self).spec_data_dir(),
            final(self).dirty_queue() == old(self).dirty_queue(),
            same_content(old(self).pages(), final(self).pages()),
            Self::page_stored(*old(self), *final(self), min_pk, *old(wal), *final(wal), old(writes)@, final(writes)@, r),
    {
        let ghost before = self.pages();
        let i = match self.index_of_page(min_pk) {
            Some(i) => i,
            None => {
                proof {
                    crate::tools::pairs::lemma_key_not_in_map(before, min_pk);
                    assert(same_content(before, self.pages()));
                }
                return Ok(());
            },
        };
        proof {
            crate::tools::ordered_map::lemma_entry_in_map(before, i as int);
            assert(before[i as int].1.wf());
            assert(same_content(before, self.pages()));
        }
        if !self.page_at(i).can_encode() {
            return Err(common_err(String::from_str("the page cannot be encoded")));
        }
        if !wal.room_for(3) {
            return Err(common_err(String::from_str("no action id is left")));
        }
        if self.page_at(i).need_space() < PAGE_SIZE as usize {
            self.store_in_place(i, wal, writes);
            Ok(())
        } else {
            self.store_split(i, wal, writes)
        }
    }

    /// Whether page `keys[j]` was written out with success from each state
    /// to the next: `slots`, `wals` and `lists` hold the slot, the log and
    /// the writes before the first page and after each.
    pub open spec fn is_trace(
        slots: Seq<Slot>,
        wals: Seq<Wal>,
        lists: Seq<Seq<FileWrite>>,
        keys: Seq<u64>,
    ) -> bool {
        &&& slots.len() == keys.len() + 1
        &&& wals.len() == keys.len() + 1
        &&& lists.len() == keys.len() + 1
        &&& forall|j: int|
            0 <= j < keys.len() ==> Self::page_stored(
                slots[j],
                slots[j + 1],
                #[trigger] keys[j],
                wals[j],
                wals[j + 1],
                lists[j],
                lists[j + 1],
                Ok(()),
            )
    }

    /// Whether `after`, `wal_after` and `writes` are what writing out the
    /// pages that begin at `keys`, one after the other and each with
    /// success, makes of `before`, `wal_before` and `held`.
    pub open spec fn stored_through(
        before: Slot,
        after: Slot,
        keys: Seq<u64>,
        wal_before: Wal,
        wal_after: Wal,
        held: Seq<FileWrite>,
        writes: Seq<FileWrite>,
    ) -> bool {
        exists|slots: Seq<Slot>, wals: Seq<Wal>, lists: Seq<Seq<FileWrite>>|
            {
                &&& #[trigger] Self::is_trace(slots, wals, lists, keys)
                &&& Self::unchanged(before, slots[0], wal_before, wals[0], held, lists[0])
                &&& slots.last() == after
                &&& wals.last() == wal_after
                &&& lists.last() == writes
            }
    }

    /// Whether `after`, `wal_after`, `writes` and the result `r` are what
    /// writing out the pages that begin at `keys`, one after the other and
    /// up to the first that fails, makes of `before`, `wal_before` and
    /// `held`.
    pub open spec fn pages_stored(
        before: Slot,
        after: Slot,
        keys: Seq<u64>,
        wal_before: Wal,
        wal_after: Wal,
        held: Seq<FileWrite>,
        writes: Seq<FileWrite>,
        r: CustomResult<()>,
    ) -> bool {
        match r {
            Ok(_) => Self::stored_through(
                before,
                after,
                keys,
                wal_before,
                wal_after,
                held,
                writes,
            ),
            Err(_) => exists|j: int, mid: Slot, wal_mid: Wal, mid_writes: Seq<FileWrite>|
                0 <= j < keys.len() && #[trigger] Self::stored_through(
                    before,
                    mid,
                    keys.take(j),
                    wal_before,
                    wal_mid,
                    held,
                    mid_writes,
                ) && Self::page_stored(
                    mid,
                    after,
                    keys[j],
                    wal_mid,
                    wal_after,
                    mid_writes,
                    writes,
                    r,
                ),
        }
    }

    /// Writes out up to ten of the pages that wait for it, those that have
    /// waited longest first, each as `store_one_page` does. Stops at the
    /// first page that fails.
    #[verifier::rlimit(30)]
    pub fn store_page(&mut self, wal: &mut Wal, writes: &mut Vec<FileWrite>) -> (r: CustomResult<()>)
        requires
            old(self).complete(),
            old(wal).wf(),
        ensures
            final(self).complete(),
            final(wal).wf(),
            final(self).spec_id() == old(self).spec_id(),
            final(self).spec_data_dir() == old(self).spec_data_dir(),
            same_content(old(self).pages(), final(self).pages()),
            final(self).dirty_queue() == old(self).dirty_queue().skip(
                if old(self).dirty_queue().len() < 10 {
                    old(self).dirty_queue().len() as int
                } else {
                    10
                },
            ),
            old(wal).sent().is_prefix_of(final(wal).sent()),
            final(wal).written_count() == old(wal).written_count(),
            final(wal).state() == old(wal).state(),
            write_views(old(writes)@).is_prefix_of(write_views(final(writes)@)),
            r matches Err(e) ==> e.code == GENERIC_CODE,
            Self::pages_stored(
                *old(self),
                *final(self),
                Self::present(
                    old(self).dirty_queue().take(
                        if old(self).dirty_queue().len() < 10 {
                            old(self).dirty_queue().len() as int
                        } else {
                            10
                        },
                    ),
                    entries_map(old(self).pages()),
                ),
                *old(wal),
                *final(wal),
                old(writes)@,
                final(writes)@,
                r,
            ),
    {
        let ghost before = self.pages();
        let keys = self.get_wait_store_page();
        let n = keys.len();
        let mut k: usize = 0;
        let ghost mut slots: Seq<Slot> = seq![*self];
        let ghost mut wals: Seq<Wal> = seq![*wal];
        let ghost mut lists: Seq<Seq<FileWrite>> = seq![writes@];
        proof {
            assert(same_content(before, self.pages()));
            assert(keys@.take(0) =~= Seq::empty());
        }
        while k < n
            invariant
                n == keys@.len(),
                k <= n,
                before == old(self).pages(),
                self.complete(),
                wal.wf(),
                self.spec_id() == old(self).spec_id(),
                self.spec_data_dir() == old(self).spec_data_dir(),
                same_content(before, self.pages()),
                self.dirty_queue() == old(self).dirty_queue().skip(
                    if old(self).dirty_queue().len() < 10 {
                        old(self).dirty_queue().len() as int
                    } else {
                        10
                    },
                ),
                old(wal).sent().is_prefix_of(wal.sent()),
                wal.written_count() == old(wal).written_count(),
                wal.state() == old(wal).state(),
                write_views(old(writes)@).is_prefix_of(write_views(writes@)),
                keys@ == Self::present(
                    old(self).dirty_queue().take(
                        if old(self).dirty_queue().len() < 10 {
                            old(self).dirty_queue().len() as int
                        } else {
                            10
                        },
                    ),
                    entries_map(old(self).pages()),
                ),
                Self::is_trace(slots, wals, lists, keys@.take(k as int)),
                Self::unchanged(*old(self), slots[0], *old(wal), wals[0], old(writes)@, lists[0]),
                slots.last() == *self,
                wals.last() == *wal,
                lists.last() == writes@,
            decreases n - k,
        {
            let ghost now = self.pages();
            let ghost sent = wal.sent();
            let ghost held = write_views(writes@);
            let ghost mid = *self;
            let ghost wal_mid = *wal;
            let ghost mid_writes = writes@;
            let r = self.store_one_page(keys[k], wal, writes);
            proof {
                lemma_same_content_transitive(before, now, self.pages());
                assert(sent.is_prefix_of(wal.sent()));
                assert(held.is_prefix_of(write_views(writes@)));
                assert(keys@.take(k + 1).drop_last() =~= keys@.take(k as int));
                assert(keys@.take(k + 1).last() == keys@[k as int]);
            }
            match r {
                Ok(_) => {
                    proof {
                        let done = keys@.take(k + 1);
                        let next_slots = slots.push(*self);
                        let next_wals = wals.push(*wal);
                        let next_lists = lists.push(writes@);
                        assert forall|j: int| 0 <= j < done.len() implies Self::page_stored(
                            next_slots[j],
                            next_slots[j + 1],
                            #[trigger] done[j],
                            next_wals[j],
                            next_wals[j + 1],
                            next_lists[j],
                            next_lists[j + 1],
                            Ok(()),
                        ) by {
                            if j < k {
                                assert(keys@.take(k as int)[j] == done[j]);
                                assert(Self::page_stored(
                                    slots[j],
                                    slots[j + 1],
                                    keys@.take(k as int)[j],
                                    wals[j],
                                    wals[j + 1],
                                    lists[j],
                                    lists[j + 1],
                                    Ok(()),
                                ));
                            }
                        }
                        slots = next_slots;
                        wals = next_wals;
                        lists = next_lists;
                    }
                },
                Err(e) => {
                    proof {
                        assert(Self::stored_through(
                            *old(self),
                            mid,
                            keys@.take(k as int),
                            *old(wal),
                            wal_mid,
                            old(writes)@,
                            mid_writes,
                        ));
                    }
                    return Err(e);
                },
            }
            k = k + 1;
        }
        proof {
            assert(keys@.take(n as int) =~= keys@);
        }
        Ok(())
    }

    /// The bytes of the index of the slot's pages.
    fn encode_index(&self) -> (buf: BytesMut)
        ensures
            written(buf) == index_bytes(self.pages()),
    {
        let mut buf = new_buffer();
        let n = self.page_count();
        let mut i: usize = 0;
        proof {
            assert(self.pages().take(0) =~= Seq::empty());
        }
        while i < n
            invariant
                n == self.pages().len(),
                i <= n,
                written(buf) == index_bytes(self.pages().take(i as int)),
            decreases n - i,
        {
            let page = self.page_at(i);
            proof {
                assert(self.pages().take(i + 1).drop_last() =~= self.pages().take(i as int));
                assert(self.pages().take(i + 1).last() == self.pages()[i as int]);
            }
            put_u64(&mut buf, self.page_key(i));
            put_u64(&mut buf, page.id());
            i = i + 1;
        }
        proof {
            assert(self.pages().take(n as int) =~= self.pages());
        }
        buf
    }

    /// What `store_page_index` has done to the slot `before`, the log
    /// `wal_before` and the writes `held`, given its result `r`.
    ///
    /// The write to the shadow of the index file has its place behind the
    /// record that begins the transaction and before the record that tells
    /// of it; the write to the index file behind that record and before the
    /// record that commits.
    pub open spec fn index_stored(
        before: Slot,
        after: Slot,
        wal_before: Wal,
        wal_after: Wal,
        held: Seq<FileWrite>,
        writes: Seq<FileWrite>,
        r: CustomResult<()>,
    ) -> bool {
        if before.index_mark() is None {
            r is Ok && Self::unchanged(before, after, wal_before, wal_after, held, writes)
        } else if wal_before.ids().next_action_id + 3 > u64::MAX {
            &&& r is Err
            &&& r->Err_0.code == GENERIC_CODE
            &&& Self::unchanged(before, after, wal_before, wal_after, held, writes)
        } else {
            &&& r is Ok
            &&& Self::same_place(before, after)
            &&& after.pages() == before.pages()
            &&& after.bitmap() == before.bitmap()
            &&& after.index_mark() is None
            &&& Self::flush_logged(
                wal_before,
                wal_after,
                LogValueView::PageIndexStore(WalPageIndexStoreValue { slot_id: before.spec_id() }),
            )
            &&& write_views(writes) == write_views(held) + seq![
                index_write(
                    spec_index_bk_path(before.spec_data_dir(), before.spec_id()),
                    index_bytes(before.pages()),
                    (wal_before.ids().next_action_id + 1) as u64,
                    index_flush(wal_before.ids().next_tid, before.spec_id()),
                ),
                index_write(
                    spec_index_path(before.spec_data_dir(), before.spec_id()),
                    index_bytes(before.pages()),
                    (wal_before.ids().next_action_id + 2) as u64,
                    index_flush(wal_before.ids().next_tid, before.spec_id()),
                ),
            ]
        }
    }

    /// Writes out the index of the slot's pages, if it has changed since it
    /// was last written out.
    ///
    /// A transaction begins; the index goes to the shadow of the index file,
    /// and a record tells so; the index goes to the index file; the index is
    /// clean; the transaction commits. The writes are added to `writes` in
    /// their order.
    ///
    /// Fails, and changes nothing, where fewer than three action ids are
    /// left.
    #[verifier::rlimit(30)]
    pub fn store_page_index(&mut self, wal: &mut Wal, writes: &mut Vec<FileWrite>) -> (r:
        CustomResult<()>)
        requires
            old(self).complete(),
            old(wal).wf(),
        ensures
            final(self).complete(),
            final(wal).wf(),
            final(self).spec_id() == old(self).spec_id(),
            final(self).spec_data_dir() == old(self).spec_data_dir(),
            final(self).dirty_queue() == old(self).dirty_queue(),
            Self::index_stored(*old(self), *final(self), *old(wal), *final(wal), old(writes)@, final(writes)@, r),
    {
        if self.index_dirty().is_none() {
            return Ok(());
        }
        if !wal.room_for(3) {
            return Err(common_err(String::from_str("no action id is left")));
        }
        let ghost sent = wal.sent();
        let ghost first = wal.ids().next_action_id;
        let ghost held = write_views(writes@);
        let tid = wal.generate_tid();
        let _ = wal.send_begin_log(tid);
        let shadow = self.encode_index();
        let in_place = self.encode_index();
        let bk_path = self.get_slot_index_path_bk();
        let flush = Flush { tid, told: Shadowed::Index(WalPageIndexStoreValue::new(self.id())) };
        writes.push(
            FileWrite {
                path: bk_path,
                seek_pos: 0,
                truncate: true,
                bytes: shadow,
                log_position: wal.id_source().next_action_id,
                flush,
            },
        );
        let _ = wal.send_page_index_store_log(tid, WalPageIndexStoreValue::new(self.id()));
        let path = self.get_slot_index_path();
        writes.push(
            FileWrite {
                path,
                seek_pos: 0,
                truncate: true,
                bytes: in_place,
                log_position: wal.id_source().next_action_id,
                flush,
            },
        );
        self.reset_index_dirty();
        let _ = wal.commit_log(tid);
        proof {
            assert(write_views(writes@) =~= held + seq![
                index_write(
                    spec_index_bk_path(self.spec_data_dir(), self.spec_id()),
                    index_bytes(self.pages()),
                    (first + 1) as u64,
                    index_flush(tid, self.spec_id()),
                ),
                index_write(
                    spec_index_path(self.spec_data_dir(), self.spec_id()),
                    index_bytes(self.pages()),
                    (first + 2) as u64,
                    index_flush(tid, self.spec_id()),
                ),
            ]);
            assert(wal.sent() =~= sent + flush_records(
                tid,
                first,
                LogValueView::PageIndexStore(WalPageIndexStoreValue { slot_id: self.spec_id() }),
            ));
        }
        Ok(())
    }

    /// The lower bounds of the pages that `store_page` writes out: of the
    /// first ten that wait, those at which a page begins.
    pub open spec fn waiting(&self) -> Seq<u64> {
        Self::present(
            self.dirty_queue().take(
                if self.dirty_queue().len() < 10 {
                    self.dirty_queue().len() as int
                } else {
                    10
                },
            ),
            entries_map(self.pages()),
        )
    }

    /// Whether `after`, `wal_after`, `writes` and the result `r` are what a
    /// checkpoint makes of the slot `before`, the log `wal_before` and the
    /// writes `held`: the pages that wait are written out, and then, where
    /// none of them has failed, the index of the pages.
    pub open spec fn flushed(
        before: Slot,
        after: Slot,
        wal_before: Wal,
        wal_after: Wal,
        held: Seq<FileWrite>,
        writes: Seq<FileWrite>,
        r: CustomResult<()>,
    ) -> bool {
        exists|mid: Slot, wal_mid: Wal, mid_writes: Seq<FileWrite>, stored: CustomResult<()>|
            {
                &&& #[trigger] Self::pages_stored(
                    before,
                    mid,
                    before.waiting(),
                    wal_before,
                    wal_mid,
                    held,
                    mid_writes,
                    stored,
                )
                &&& if stored is Ok {
                    Self::index_stored(mid, after, wal_mid, wal_after, mid_writes, writes, r)
                } else {
                    r == stored && Self::unchanged(
                        mid,
                        after,
                        wal_mid,
                        wal_after,
                        mid_writes,
                        writes,
                    )
                }
            }
    }

    /// Writes out what has changed in the slot: up to ten of the pages that
    /// wait for it, as `store_page` does, and then, where none of them has
    /// failed, the index of the pages, as `store_page_index` does.
    #[verifier::rlimit(30)]
    pub fn check_point(&mut self, wal: &mut Wal, writes: &mut Vec<FileWrite>) -> (r: CustomResult<()>)
        requires
            old(self).complete(),
            old(wal).wf(),
        ensures
            final(self).complete(),
            final(wal).wf(),
            final(self).spec_id() == old(self).spec_id(),
            final(self).spec_data_dir() == old(self).spec_data_dir(),
            same_content(old(self).pages(), final(self).pages()),
            final(self).dirty_queue() == old(self).dirty_queue().skip(
                if old(self).dirty_queue().len() < 10 {
                    old(self).dirty_queue().len() as int
                } else {
                    10
                },
            ),
            old(wal).sent().is_prefix_of(final(wal).sent()),
            final(wal).written_count() == old(wal).written_count(),
            final(wal).state() == old(wal).state(),
            write_views(old(writes)@).is_prefix_of(write_views(final(writes)@)),
            r matches Err(e) ==> e.code == GENERIC_CODE,
            Self::flushed(*old(self), *final(self), *old(wal), *final(wal), old(writes)@, final(writes)@, r),
    {
        let ghost sent = wal.sent();
        let ghost held = write_views(writes@);
        let stored = self.store_page(wal, writes);
        let ghost mid = *self;
        let ghost wal_mid = *wal;
        let ghost mid_writes = writes@;
        match stored {
            Ok(_) => {
                let r = self.store_page_index(wal, writes);
                proof {
                    assert(sent.is_prefix_of(wal_mid.sent()));
                    assert(wal_mid.sent().is_prefix_of(wal.sent()));
                    assert(held.is_prefix_of(write_views(mid_writes)));
                    assert(write_views(mid_writes).is_prefix_of(write_views(writes@)));
                    assert(Self::pages_stored(
                        *old(self),
                        mid,
                        old(self).waiting(),
                        *old(wal),
                        wal_mid,
                        old(writes)@,
                        mid_writes,
                        stored,
                    ));
                }
                r
            },
            Err(e) => {
                proof {
                    assert(Self::pages_stored(
                        *old(self),
                        mid,
                        old(self).waiting(),
                        *old(wal),
                        wal_mid,
                        old(writes)@,
                        mid_writes,
                        stored,
                    ));
                }
                Err(e)
            },
        }
    }
}

} // verus!
