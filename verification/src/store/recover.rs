//! Bringing a store back from the bytes of its write-ahead log.
use crate::calc_hash;
use crate::custom_error::{CustomResult, GENERIC_CODE};
use crate::feature::value::ValueKind;
use crate::spec_calc_hash;
use crate::store::page::{Page, PageView};
use crate::store::slot::{Slot, PAGE_NUM};
use crate::store::wal::{
    item_views, log_bytes, FeatureUpdateView, IdSource, LogItemView, LogValueView, WalLogItem,
    WalLogKind, WalLogValue,
};
use crate::store::wire::{cursor_rest, new_cursor, Parsed};
use crate::store::{spec_slot_id, Store, SLOT_COUNT};
use crate::tools::ordered_map::OrderedMap;
use vstd::prelude::*;

verus! {

/// The records that the bytes `s` spell, up to the end, to the first record
/// that the bytes break off in, or to the first that is bad.
pub open spec fn parse_log(s: Seq<u8>) -> Seq<LogItemView>
    decreases s.len(),
{
    match LogItemView::spec_decode(s) {
        Parsed::Done(item, n) => if 0 < n <= s.len() {
            seq![item] + parse_log(s.skip(n as int))
        } else {
            Seq::empty()
        },
        _ => Seq::empty(),
    }
}

/// The bytes begin with a record that is bad.
pub open spec fn log_bad_at_start(s: Seq<u8>) -> bool {
    LogItemView::spec_decode(s) is Bad
}

/// Some record of `items` commits the transaction `tid`.
pub open spec fn committed(items: Seq<LogItemView>, tid: u64) -> bool {
    exists|i: int|
        0 <= i < items.len() && (#[trigger] items[i]).kind == WalLogKind::Commit && items[i].tid
            == tid
}

/// The windows of `key` in `content`, none where it does not hold the key.
pub open spec fn windows_in(
    content: Map<Seq<char>, Map<u64, ValueKind>>,
    key: Seq<char>,
) -> Map<u64, ValueKind> {
    if content.contains_key(key) {
        content[key]
    } else {
        Map::empty()
    }
}

/// What `content` is after the update `update` was done again. A key whose
/// hash is the largest has no page, and is left out.
pub open spec fn redo(
    content: Map<Seq<char>, Map<u64, ValueKind>>,
    update: FeatureUpdateView,
) -> Map<Seq<char>, Map<u64, ValueKind>> {
    if spec_calc_hash(update.fk) == u64::MAX {
        content
    } else {
        content.insert(update.fk, windows_in(content, update.fk).insert(update.tk, update.redo_v))
    }
}

/// What a store holds after the updates among `items` were done again, in
/// their order, that belong to transactions which `all` commits.
pub open spec fn replay(items: Seq<LogItemView>, all: Seq<LogItemView>) -> Map<
    Seq<char>,
    Map<u64, ValueKind>,
>
    decreases items.len(),
{
    if items.len() == 0 {
        Map::empty()
    } else {
        let before = replay(items.drop_last(), all);
        match items.last().value {
            Some(LogValueView::FeatureUpdate(update)) => if committed(all, items.last().tid) {
                redo(before, update)
            } else {
                before
            },
            _ => before,
        }
    }
}

/// What a store holds after the updates that the records `records` tell of
/// were done again, in their order.
pub open spec fn redo_all(
    content: Map<Seq<char>, Map<u64, ValueKind>>,
    records: Seq<LogItemView>,
) -> Map<Seq<char>, Map<u64, ValueKind>>
    decreases records.len(),
{
    if records.len() == 0 {
        content
    } else {
        let before = redo_all(content, records.drop_last());
        match records.last().value {
            Some(LogValueView::FeatureUpdate(update)) => redo(before, update),
            _ => before,
        }
    }
}

/// Doing again what records tell, and then what further records tell, is
/// doing again what all of them tell.
pub proof fn lemma_redo_all_append(
    content: Map<Seq<char>, Map<u64, ValueKind>>,
    a: Seq<LogItemView>,
    b: Seq<LogItemView>,
)
    ensures
        redo_all(content, a + b) == redo_all(redo_all(content, a), b),
    decreases b.len(),
{
    if b.len() == 0 {
        assert(a + b =~= a);
    } else {
        lemma_redo_all_append(content, a, b.drop_last());
        assert((a + b).drop_last() =~= a + b.drop_last());
        assert((a + b).last() == b.last());
    }
}

/// What `content` is after the updates among `items` were done again, in
/// their order, that belong to transactions which `all` commits.
pub open spec fn replay_from(
    content: Map<Seq<char>, Map<u64, ValueKind>>,
    items: Seq<LogItemView>,
    all: Seq<LogItemView>,
) -> Map<Seq<char>, Map<u64, ValueKind>>
    decreases items.len(),
{
    if items.len() == 0 {
        content
    } else {
        let before = replay_from(content, items.drop_last(), all);
        match items.last().value {
            Some(LogValueView::FeatureUpdate(update)) => if committed(all, items.last().tid) {
                redo(before, update)
            } else {
                before
            },
            _ => before,
        }
    }
}

/// Replaying records behind others goes on from what the others gave.
pub proof fn lemma_replay_append(a: Seq<LogItemView>, b: Seq<LogItemView>, all: Seq<LogItemView>)
    ensures
        replay(a + b, all) == replay_from(replay(a, all), b, all),
    decreases b.len(),
{
    if b.len() == 0 {
        assert(a + b =~= a);
    } else {
        lemma_replay_append(a, b.drop_last(), all);
        assert((a + b).drop_last() =~= a + b.drop_last());
        assert((a + b).last() == b.last());
    }
}

/// Replaying records depends on what is committed only for the
/// transactions of the records.
pub proof fn lemma_replay_same_commits(
    items: Seq<LogItemView>,
    all: Seq<LogItemView>,
    other: Seq<LogItemView>,
)
    requires
        forall|i: int|
            0 <= i < items.len() ==> committed(all, (#[trigger] items[i]).tid) == committed(
                other,
                items[i].tid,
            ),
    ensures
        replay(items, all) == replay(items, other),
    decreases items.len(),
{
    if items.len() > 0 {
        assert forall|i: int| 0 <= i < items.drop_last().len() implies committed(
            all,
            (#[trigger] items.drop_last()[i]).tid,
        ) == committed(other, items.drop_last()[i].tid) by {
            assert(items.drop_last()[i] == items[i]);
        }
        lemma_replay_same_commits(items.drop_last(), all, other);
        assert(items.last() == items[items.len() - 1]);
    }
}

/// Replaying the records of transactions that are committed does again all
/// that they tell.
pub proof fn lemma_replay_committed(
    content: Map<Seq<char>, Map<u64, ValueKind>>,
    items: Seq<LogItemView>,
    all: Seq<LogItemView>,
)
    requires
        forall|i: int| 0 <= i < items.len() ==> committed(all, (#[trigger] items[i]).tid),
    ensures
        replay_from(content, items, all) == redo_all(content, items),
    decreases items.len(),
{
    if items.len() > 0 {
        assert forall|i: int| 0 <= i < items.drop_last().len() implies committed(
            all,
            (#[trigger] items.drop_last()[i]).tid,
        ) by {
            assert(items.drop_last()[i] == items[i]);
        }
        lemma_replay_committed(content, items.drop_last(), all);
        assert(items.last() == items[items.len() - 1]);
    }
}

/// Replaying the records of transactions that are not committed does
/// nothing.
pub proof fn lemma_replay_uncommitted(
    content: Map<Seq<char>, Map<u64, ValueKind>>,
    items: Seq<LogItemView>,
    all: Seq<LogItemView>,
)
    requires
        forall|i: int| 0 <= i < items.len() ==> !committed(all, (#[trigger] items[i]).tid),
    ensures
        replay_from(content, items, all) == content,
    decreases items.len(),
{
    if items.len() > 0 {
        assert forall|i: int| 0 <= i < items.drop_last().len() implies !committed(
            all,
            (#[trigger] items.drop_last()[i]).tid,
        ) by {
            assert(items.drop_last()[i] == items[i]);
        }
        lemma_replay_uncommitted(content, items.drop_last(), all);
        assert(items.last() == items[items.len() - 1]);
    }
}

/// A log with one more transaction that is committed gives what the log
/// gave before it, with the updates of the transaction done again: where
/// the records `tx` all belong to the transaction `tid`, one of them commits
/// it, and no record of `log` belongs to it.
pub proof fn lemma_replay_transaction(log: Seq<LogItemView>, tx: Seq<LogItemView>, tid: u64)
    requires
        forall|i: int| 0 <= i < log.len() ==> (#[trigger] log[i]).tid != tid,
        forall|i: int| 0 <= i < tx.len() ==> (#[trigger] tx[i]).tid == tid,
        committed(tx, tid),
    ensures
        replay(log + tx, log + tx) == redo_all(replay(log, log), tx),
{
    let all = log + tx;
    lemma_replay_append(log, tx, all);
    assert forall|i: int| 0 <= i < log.len() implies committed(all, (#[trigger] log[i]).tid)
        == committed(log, log[i].tid) by {
        let t = log[i].tid;
        if committed(all, t) {
            let j = choose|j: int|
                0 <= j < all.len() && (#[trigger] all[j]).kind == WalLogKind::Commit && all[j].tid
                    == t;
            if j >= log.len() {
                assert(all[j] == tx[j - log.len()]);
            } else {
                assert(all[j] == log[j]);
            }
        }
        if committed(log, t) {
            let j = choose|j: int|
                0 <= j < log.len() && (#[trigger] log[j]).kind == WalLogKind::Commit && log[j].tid
                    == t;
            assert(all[j] == log[j]);
        }
    }
    lemma_replay_same_commits(log, all, log);
    assert(committed(all, tid)) by {
        let j = choose|j: int|
            0 <= j < tx.len() && (#[trigger] tx[j]).kind == WalLogKind::Commit && tx[j].tid == tid;
        assert(all[log.len() + j] == tx[j]);
    }
    lemma_replay_committed(replay(log, log), tx, all);
}

/// A log that breaks off within a transaction gives what the log gave
/// before the transaction: where the records `torn` all belong to the
/// transaction `tid`, none of them commits it, and no record of `log`
/// belongs to it.
pub proof fn lemma_replay_torn(log: Seq<LogItemView>, torn: Seq<LogItemView>, tid: u64)
    requires
        forall|i: int| 0 <= i < log.len() ==> (#[trigger] log[i]).tid != tid,
        forall|i: int|
            0 <= i < torn.len() ==> (#[trigger] torn[i]).tid == tid && torn[i].kind
                != WalLogKind::Commit,
    ensures
        replay(log + torn, log + torn) == replay(log, log),
{
    let all = log + torn;
    lemma_replay_append(log, torn, all);
    assert forall|t: u64| committed(all, t) == committed(log, t) by {
        if committed(all, t) {
            let j = choose|j: int|
                0 <= j < all.len() && (#[trigger] all[j]).kind == WalLogKind::Commit && all[j].tid
                    == t;
            if j >= log.len() {
                assert(all[j] == torn[j - log.len()]);
            } else {
                assert(all[j] == log[j]);
            }
        }
        if committed(log, t) {
            let j = choose|j: int|
                0 <= j < log.len() && (#[trigger] log[j]).kind == WalLogKind::Commit && log[j].tid
                    == t;
            assert(all[j] == log[j]);
        }
    }
    lemma_replay_same_commits(log, all, log);
    assert(!committed(log, tid)) by {
        if committed(log, tid) {
            let j = choose|j: int|
                0 <= j < log.len() && (#[trigger] log[j]).kind == WalLogKind::Commit && log[j].tid
                    == tid;
            assert(log[j].tid != tid);
        }
    }
    lemma_replay_uncommitted(replay(log, log), torn, all);
}

/// The store holds what `content` holds.
pub open spec fn holds_content(store: Store, content: Map<Seq<char>, Map<u64, ValueKind>>) -> bool {
    forall|key: Seq<char>|
        #[trigger] store.content(key) == if content.contains_key(key) {
            Some(content[key])
        } else {
            None::<Map<u64, ValueKind>>
        }
}

/// A store that holds what `content` holds has `content` as its view.
pub proof fn lemma_holds_content(store: Store, content: Map<Seq<char>, Map<u64, ValueKind>>)
    requires
        holds_content(store, content),
    ensures
        store@ == content,
{
    assert forall|key: Seq<char>| store@.contains_key(key) == content.contains_key(key) by {
        assert(store.content(key) == if content.contains_key(key) {
            Some(content[key])
        } else {
            None::<Map<u64, ValueKind>>
        });
    }
    assert forall|key: Seq<char>| store@.contains_key(key) implies store@[key] == content[key] by {
        assert(store.content(key) == if content.contains_key(key) {
            Some(content[key])
        } else {
            None::<Map<u64, ValueKind>>
        });
    }
    assert(store@ =~= content);
}

/// The slot has its first page and no other: the page has id 0 and a range
/// that holds every hash but the largest. The page waits to be written out
/// where it holds a key, and only there.
pub open spec fn first_page_only(slot: Slot) -> bool {
    let page = slot.pages()[0].1;
    let used = exists|key: Seq<char>| page@.data.contains_key(key);
    &&& slot.pages().len() == 1
    &&& page@.id == 0
    &&& page@.min_pk == 0
    &&& page@.max_pk == u64::MAX
    &&& slot.index_mark() is None
    &&& page.dirty_mark() is Some <==> used
    &&& slot.dirty_queue() == if used {
        seq![0u64]
    } else {
        Seq::<u64>::empty()
    }
}

/// Each slot of the store has its first page and no other.
pub open spec fn first_pages_only(store: Store) -> bool {
    forall|s: int| 0 <= s < store.slots().len() ==> first_page_only(#[trigger] store.slots()[s])
}

/// The mark that the page of slot `slot` has after the updates among `items`
/// were done again that belong to transactions which `all` commits: the
/// actions of those of them whose key the slot takes are noted in their
/// order.
pub open spec fn slot_mark(items: Seq<LogItemView>, all: Seq<LogItemView>, slot: int) -> Option<
    crate::store::DirtyRecord,
>
    decreases items.len(),
{
    if items.len() == 0 {
        None
    } else {
        let before = slot_mark(items.drop_last(), all, slot);
        match items.last().value {
            Some(LogValueView::FeatureUpdate(update)) => if committed(all, items.last().tid)
                && spec_calc_hash(update.fk) != u64::MAX && spec_slot_id(spec_calc_hash(update.fk))
                == slot {
                Some(crate::store::Dirty::spec_update(before, items.last().action_id))
            } else {
                before
            },
            _ => before,
        }
    }
}

/// The first page of each slot of the store has the mark that doing the
/// updates among `items` again gives it.
pub open spec fn marked_by(store: Store, items: Seq<LogItemView>, all: Seq<LogItemView>) -> bool {
    forall|s: int|
        0 <= s < store.slots().len() ==> (#[trigger] store.slots()[s]).pages()[0].1.dirty_mark()
            == slot_mark(items, all, s)
}

/// The store is well formed, lies in the directory `data_dir`, and holds
/// what the committed transactions of the log with the bytes `log` have
/// written, each slot in its first page.
pub open spec fn recovered(store: Store, data_dir: Seq<char>, log: Seq<u8>) -> bool {
    &&& store.wf()
    &&& store.spec_data_dir() == data_dir
    &&& !log_bad_at_start(log)
    &&& store@ == replay(parse_log(log), parse_log(log))
    &&& first_pages_only(store)
    &&& marked_by(store, parse_log(log), parse_log(log))
}

/// Decoding the bytes of a log gives its records back, also where a part of
/// a further record follows them.
pub proof fn lemma_parse_log(items: Seq<LogItemView>, torn: Seq<u8>)
    requires
        forall|i: int| 0 <= i < items.len() ==> (#[trigger] items[i]).encodable(),
        LogItemView::spec_decode(torn) is Short,
    ensures
        parse_log(log_bytes(items) + torn) == items,
    decreases items.len(),
{
    if items.len() == 0 {
        assert(log_bytes(items) + torn =~= torn);
    } else {
        lemma_parse_front(items, torn);
    }
}

/// The bytes of a log begin with the bytes of its first record.
pub proof fn lemma_log_bytes_front(items: Seq<LogItemView>)
    requires
        items.len() > 0,
    ensures
        log_bytes(items) == items.first().spec_encode() + log_bytes(items.drop_first()),
    decreases items.len(),
{
    if items.len() == 1 {
        assert(items.drop_last() =~= Seq::empty());
        assert(items.drop_first() =~= Seq::empty());
        assert(log_bytes(items) =~= items.first().spec_encode() + log_bytes(items.drop_first()));
    } else {
        lemma_log_bytes_front(items.drop_last());
        assert(items.drop_last().drop_first() =~= items.drop_first().drop_last());
        assert(items.drop_last().first() == items.first());
        assert(items.drop_first().last() == items.last());
        assert(log_bytes(items) =~= items.first().spec_encode() + log_bytes(items.drop_first()));
    }
}

/// Bytes that begin with a record spell that record and what the bytes
/// behind it spell.
pub proof fn lemma_parse_step(s: Seq<u8>, item: LogItemView, n: nat)
    requires
        LogItemView::spec_decode(s) == Parsed::Done(item, n),
        0 < n <= s.len(),
    ensures
        parse_log(s) == seq![item] + parse_log(s.skip(n as int)),
{
}

/// The bytes of a record before bytes that spell records spell the record
/// and those records.
pub proof fn lemma_parse_cons(first: LogItemView, rest: Seq<u8>)
    requires
        first.encodable(),
    ensures
        parse_log(first.spec_encode() + rest) == seq![first] + parse_log(rest),
{
    let s = first.spec_encode() + rest;
    let n = (4 + first.spec_need_space()) as nat;
    first.lemma_round_trip(rest);
    assert(s.skip(n as int) =~= rest);
    lemma_parse_step(s, first, n);
}

#[verifier::rlimit(30)]
proof fn lemma_parse_front(items: Seq<LogItemView>, torn: Seq<u8>)
    requires
        items.len() > 0,
        forall|i: int| 0 <= i < items.len() ==> (#[trigger] items[i]).encodable(),
        LogItemView::spec_decode(torn) is Short,
    ensures
        parse_log(log_bytes(items) + torn) == items,
    decreases items.len(), 0int,
{
    let first = items.first();
    let tail = items.drop_first();
    let rest = log_bytes(tail) + torn;
    lemma_log_bytes_front(items);
    assert(first == items[0]);
    assert(log_bytes(items) + torn =~= first.spec_encode() + rest);
    assert forall|i: int| 0 <= i < tail.len() implies (#[trigger] tail[i]).encodable() by {
        assert(tail[i] == items[i + 1]);
    }
    lemma_parse_log(tail, torn);
    lemma_parse_cons(first, rest);
    assert(seq![first] + tail =~= items);
}

/// Reads the records of a log from its bytes: to the end, to the first
/// record that the bytes break off in, or to the first that is bad. Fails
/// where the bytes begin with a bad record.
#[verifier::rlimit(30)]
pub fn read_log(log: &[u8]) -> (r: CustomResult<Vec<WalLogItem>>)
    ensures
        match r {
            Ok(items) => item_views(items@) == parse_log(log@) && !log_bad_at_start(log@),
            Err(e) => e.code == GENERIC_CODE && log_bad_at_start(log@),
        },
{
    let mut items: Vec<WalLogItem> = Vec::new();
    let mut cursor = new_cursor(log);
    let ghost mut used: int = 0;
    proof {
        assert(cursor_rest(cursor) =~= log@);
        assert(log@.skip(0) =~= log@);
        assert(item_views(items@) =~= Seq::empty());
    }
    loop
        invariant
            0 <= used <= log@.len(),
            cursor_rest(cursor) == log@.skip(used),
            parse_log(log@) == item_views(items@) + parse_log(log@.skip(used)),
            items@.len() > 0 ==> !log_bad_at_start(log@),
            items@.len() == 0 ==> used == 0,
        decreases log@.len() - used,
    {
        let ghost rest = cursor_rest(cursor);
        proof {
            if used == 0 {
                assert(log@.skip(0) =~= log@);
            }
        }
        match WalLogItem::decode(&mut cursor) {
            Ok(item) => {
                let ghost held = item_views(items@);
                let ghost n = match LogItemView::spec_decode(rest) {
                    Parsed::Done(_, n) => n as int,
                    _ => 0,
                };
                proof {
                    assert(rest.len() >= 4);
                    assert(n >= 4 && n <= rest.len()) by {
                        lemma_decode_bounds(rest);
                    }
                    assert(log@.skip(used).skip(n) =~= log@.skip(used + n));
                }
                items.push(item);
                proof {
                    assert(item_views(items@) =~= held.push(item@));
                    assert(held + (seq![item@] + parse_log(rest.skip(n))) =~= held.push(item@)
                        + parse_log(rest.skip(n)));
                    used = used + n;
                }
            },
            Err(e) => {
                if items.len() == 0 && !e.is_insufficient_data() {
                    return Err(e);
                }
                proof {
                    assert(item_views(items@) + Seq::<LogItemView>::empty() =~= item_views(items@));
                }
                return Ok(items);
            },
        }
    }
}

/// A record that was decoded takes at least its four bytes of length, and
/// lies within the bytes.
pub proof fn lemma_decode_bounds(s: Seq<u8>)
    ensures
        LogItemView::spec_decode(s) matches Parsed::Done(_, n) ==> 4 <= n <= s.len(),
{
}

/// Gives a slot without pages its first page: an empty page with id 0 whose
/// range holds every hash but the largest.
fn init_slot(slot: &mut Slot)
    requires
        old(slot).wf(),
        old(slot).pages().len() == 0,
        old(slot).bitmap() == Seq::new(PAGE_NUM as nat, |i: int| false),
    ensures
        final(slot).complete(),
        final(slot).pages()[0].1.dirty_mark() is None,
        final(slot).spec_id() == old(slot).spec_id(),
        final(slot).spec_data_dir() == old(slot).spec_data_dir(),
        final(slot).dirty_queue() == old(slot).dirty_queue(),
        final(slot).index_mark() == old(slot).index_mark(),
        final(slot).pages().len() == 1,
        final(slot).pages()[0].1@ == (PageView {
            slot_id: old(slot).spec_id(),
            id: 0,
            min_pk: 0,
            max_pk: u64::MAX,
            data: Map::empty(),
        }),
{
    match slot.new_page(0, u64::MAX) {
        Ok(page) => {
            assert(page@.id == 0) by {
                if page@.id > 0 {
                    assert(old(slot).bitmap()[0]);
                }
            }
            slot.put_page(0, page);
            proof {
                let pages = slot.pages();
                let bits = slot.bitmap();
                assert(pages.len() == 1);
                assert(pages[0] == (0u64, page));
                assert(bits[0]);
                assert forall|id: int| 0 <= id < bits.len() && #[trigger] bits[id] implies exists|
                    i: int,
                | 0 <= i < pages.len() && (#[trigger] pages[i]).1@.id == id by {
                    assert(id == 0);
                    assert(pages[0].1@.id == 0);
                }
            }
        },
        Err(_) => {
            assert(!old(slot).bitmap()[0]);
        },
    }
}

/// Gives each slot of a store its first page.
fn init_slots(store: &mut Store)
    requires
        old(store).fresh(),
    ensures
        final(store).wf(),
        final(store).spec_data_dir() == old(store).spec_data_dir(),
        holds_content(*final(store), Map::empty()),
        first_pages_only(*final(store)),
        marked_by(*final(store), Seq::empty(), Seq::empty()),
{
    let mut s: usize = 0;
    while s < SLOT_COUNT
        invariant
            s <= SLOT_COUNT,
            store.slots().len() == SLOT_COUNT,
            store.spec_data_dir() == old(store).spec_data_dir(),
            forall|t: int|
                0 <= t < s ==> {
                    let slot = #[trigger] store.slots()[t];
                    &&& slot.complete()
                    &&& slot.spec_id() == t
                    &&& slot.spec_data_dir() == store.spec_data_dir()
                    &&& slot.pages().len() == 1
                    &&& slot.pages()[0].1@.data == Map::<Seq<char>, Map<u64, ValueKind>>::empty()
                    &&& first_page_only(slot)
                    &&& slot.pages()[0].1.dirty_mark() is None
                },
            forall|t: int|
                s <= t < SLOT_COUNT ==> {
                    let slot = #[trigger] store.slots()[t];
                    &&& slot.wf()
                    &&& slot.spec_id() == t
                    &&& slot.spec_data_dir() == store.spec_data_dir()
                    &&& slot.pages().len() == 0
                    &&& slot.bitmap() == Seq::new(PAGE_NUM as nat, |i: int| false)
                    &&& slot.dirty_queue().len() == 0
                    &&& slot.index_mark() is None
                },
        decreases SLOT_COUNT - s,
    {
        let ghost before = store.slots();
        let slot = store.slot_mut(s);
        init_slot(slot);
        proof {
            let now = store.slots();
            assert forall|t: int| 0 <= t < now.len() && t != s implies now[t] == before[t] by {}
            assert(now[s as int].dirty_queue() =~= Seq::<u64>::empty());
        }
        s = s + 1;
    }
    proof {
        assert forall|key: Seq<char>| #[trigger] store.content(key) is None by {
            let pages = store.pages_for(key);
            crate::store::lemma_slot_id_bound(spec_calc_hash(key));
            let t = spec_slot_id(spec_calc_hash(key)) as int;
            assert(store.slots()[t].pages().len() == 1);
            assert forall|w: Map<u64, ValueKind>| !crate::store::slot::holds(pages, key, w) by {
                if crate::store::slot::holds(pages, key, w) {
                    let j = choose|j: int|
                        0 <= j < pages.len() && (#[trigger] pages[j]).1@.data.contains_key(key)
                            && pages[j].1@.data[key] == w;
                    assert(j == 0);
                }
            }
        }
    }
}

/// The transactions that the records `items` commit.
pub(crate) fn committed_tids(items: &Vec<WalLogItem>) -> (tids: OrderedMap<bool>)
    ensures
        tids.wf(),
        forall|tid: u64| #[trigger] tids@.contains_key(tid) == committed(item_views(items@), tid),
{
    let mut tids: OrderedMap<bool> = OrderedMap::new();
    let n = items.len();
    let mut k: usize = 0;
    let ghost views = item_views(items@);
    while k < n
        invariant
            n == items@.len(),
            k <= n,
            views == item_views(items@),
            tids.wf(),
            forall|tid: u64| #[trigger]
                tids@.contains_key(tid) == committed(views.take(k as int), tid),
        decreases n - k,
    {
        let ghost before = tids@;
        let ghost seen = views.take(k as int);
        let ghost next = views.take(k + 1);
        if items[k].kind == WalLogKind::Commit {
            tids.insert(items[k].tid, true);
        }
        proof {
            assert(views[k as int] == items@[k as int]@);
            assert forall|tid: u64| #[trigger]
                tids@.contains_key(tid) == committed(next, tid) by {
                if committed(seen, tid) {
                    let i = choose|i: int|
                        0 <= i < seen.len() && (#[trigger] seen[i]).kind == WalLogKind::Commit
                            && seen[i].tid == tid;
                    assert(next[i] == seen[i]);
                }
                if committed(next, tid) {
                    let i = choose|i: int|
                        0 <= i < next.len() && (#[trigger] next[i]).kind == WalLogKind::Commit
                            && next[i].tid == tid;
                    if i < k {
                        assert(seen[i] == next[i]);
                    }
                }
                if views[k as int].kind == WalLogKind::Commit && views[k as int].tid == tid {
                    assert(next[k as int] == views[k as int]);
                }
            }
        }
        k = k + 1;
    }
    proof {
        assert(views.take(n as int) =~= views);
    }
    tids
}

/// Does the update `update` again: sets the window of the key to the value
/// after the update, and marks the page as changed by action `action_id`. A
/// key whose hash is the largest has no page, and is left out.
#[verifier::rlimit(30)]
fn redo_update(
    store: &mut Store,
    fk: &String,
    tk: u64,
    redo_v: ValueKind,
    action_id: u64,
    Ghost(content): Ghost<Map<Seq<char>, Map<u64, ValueKind>>>,
)
    requires
        old(store).wf(),
        holds_content(*old(store), content),
        first_pages_only(*old(store)),
    ensures
        final(store).wf(),
        final(store).spec_data_dir() == old(store).spec_data_dir(),
        holds_content(
            *final(store),
            redo(content, FeatureUpdateView { fk: fk@, tk, undo_v: None, redo_v }),
        ),
        first_pages_only(*final(store)),
        forall|t: int|
            0 <= t < final(store).slots().len() ==> (#[trigger] final(store).slots()[t]).pages()[0].1.dirty_mark()
                == if spec_calc_hash(fk@) != u64::MAX && spec_slot_id(spec_calc_hash(fk@)) == t {
                Some(
                    crate::store::Dirty::spec_update(
                        old(store).slots()[t].pages()[0].1.dirty_mark(),
                        action_id,
                    ),
                )
            } else {
                old(store).slots()[t].pages()[0].1.dirty_mark()
            },
{
    let hash = calc_hash(fk);
    let (s, i) = match store.locate(hash) {
        Ok(place) => place,
        Err(_) => {
            return ;
        },
    };
    let ghost before = *store;
    let ghost held = store.slots()[s as int].pages()[i as int].1;
    proof {
        assert(store.slots()[s as int].complete());
        assert(held.wf());
        if held@.data.contains_key(fk@) {
            assert(crate::store::slot::holds(store.pages_for(fk@), fk@, held@.data[fk@]));
            store.lemma_content(fk@, held@.data[fk@]);
        } else {
            store.lemma_content_none(fk@, i as int);
        }
        assert(store.content(fk@) == if content.contains_key(fk@) {
            Some(content[fk@])
        } else {
            None::<Map<u64, ValueKind>>
        });
    }
    let page = store.page_mut(s, i);
    let r = page.set_window(fk, tk, redo_v);
    proof {
        assert(r is Ok);
        let after = *store;
        let now = after.slots()[s as int].pages()[i as int].1;
        let windows = Page::windows_of(held@.data, fk@).insert(tk, redo_v);
        assert(windows == windows_in(content, fk@).insert(tk, redo_v));
        assert forall|k: Seq<char>| #[trigger] now@.data.contains_key(k) implies spec_slot_id(
            spec_calc_hash(k),
        ) == s by {
            if k != fk@ {
                before.lemma_key_routed(s as int, i as int, k);
            }
        }
        Store::lemma_page_replaced(before, after, s as int, i as int, now);
        Store::lemma_page_put(before, after, s as int, i as int, now, fk@, windows);
        let next = redo(content, FeatureUpdateView { fk: fk@, tk, undo_v: None, redo_v });
        assert(next == content.insert(fk@, windows));
        assert forall|key: Seq<char>|
            #[trigger] after.content(key) == if next.contains_key(key) {
                Some(next[key])
            } else {
                None::<Map<u64, ValueKind>>
            } by {
            if key != fk@ {
                assert(after.content(key) == before.content(key));
            }
        }
    }
    let ghost mid = *store;
    store.after_update(s, i, action_id);
    proof {
        let after = *store;
        assert(first_page_only(before.slots()[s as int]));
        assert(i == 0);
        let page = after.slots()[s as int].pages()[0].1;
        assert(page@.data.contains_key(fk@));
        let held_page = before.slots()[s as int].pages()[0].1;
        if held_page.dirty_mark() is Some {
            let key = choose|key: Seq<char>| held_page@.data.contains_key(key);
            assert(held_page@.data.contains_key(key));
            assert(after.slots()[s as int].dirty_queue() =~= seq![0u64]);
        } else {
            assert(before.slots()[s as int].dirty_queue() =~= Seq::<u64>::empty());
            assert(after.slots()[s as int].dirty_queue() =~= seq![0u64]);
        }
        assert forall|t: int| 0 <= t < after.slots().len() implies first_page_only(
            #[trigger] after.slots()[t],
        ) && (t != s ==> after.slots()[t] == before.slots()[t]) by {
            if t != s {
                assert(after.slots()[t] == mid.slots()[t]);
                assert(mid.slots()[t] == before.slots()[t]);
                assert(first_page_only(before.slots()[t]));
            }
        }
    }
}

/// Brings a store whose slots have no pages yet to what the log with the
/// bytes `log` gives.
///
/// Each slot gets its first page. The records of the log are read, to the
/// end, to the first record that the bytes break off in, or to the first
/// that is bad. The updates of the transactions that the records commit are
/// done again in the order of the records; the updates of other
/// transactions are left out.
///
/// The records that tell of a page or an index in a shadow file change
/// nothing in what the store holds: the log holds every update. What they
/// tell of is put in its place in the files again by the writes of
/// `crate::store::repair`, where the transaction was cut off. Where a
/// transaction that is committed has written out the index of the pages of
/// a slot, `Store::restore_layout` lays the pages of the slot out as the
/// index file tells.
///
/// Fails where the bytes begin with a bad record.
#[verifier::rlimit(30)]
pub fn recover(store: &mut Store, log: &[u8]) -> (r: CustomResult<()>)
    requires
        old(store).fresh(),
    ensures
        final(store).wf(),
        final(store).spec_data_dir() == old(store).spec_data_dir(),
        match r {
            Ok(_) => recovered(*final(store), old(store).spec_data_dir(), log@),
            Err(e) => e.code == GENERIC_CODE && log_bad_at_start(log@),
        },
{
    init_slots(store);
    let items = match read_log(log) {
        Ok(items) => items,
        Err(e) => {
            return Err(e);
        },
    };
    let tids = committed_tids(&items);
    let n = items.len();
    let mut k: usize = 0;
    let ghost views = item_views(items@);
    proof {
        assert(views.take(0) =~= Seq::empty());
    }
    while k < n
        invariant
            n == items@.len(),
            k <= n,
            views == item_views(items@),
            tids.wf(),
            forall|tid: u64| #[trigger] tids@.contains_key(tid) == committed(views, tid),
            store.wf(),
            store.spec_data_dir() == old(store).spec_data_dir(),
            holds_content(*store, replay(views.take(k as int), views)),
            first_pages_only(*store),
            marked_by(*store, views.take(k as int), views),
        decreases n - k,
    {
        let item = &items[k];
        let ghost before = *store;
        proof {
            assert(views.take(k + 1).drop_last() =~= views.take(k as int));
            assert(views.take(k + 1).last() == item@);
        }
        match &item.value {
            Some(WalLogValue::FeatureUpdate(update)) => {
                if tids.contains_key(item.tid) {
                    redo_update(
                        store,
                        &update.fk,
                        update.tk,
                        update.redo_v,
                        item.action_id,
                        Ghost(replay(views.take(k as int), views)),
                    );
                    proof {
                        let content = replay(views.take(k as int), views);
                        assert(redo(
                            content,
                            FeatureUpdateView {
                                fk: update.fk@,
                                tk: update.tk,
                                undo_v: None,
                                redo_v: update.redo_v,
                            },
                        ) == redo(content, update@));
                    }
                }
            },
            _ => {},
        }
        proof {
            assert forall|s: int| 0 <= s < store.slots().len() implies (#[trigger] store.slots()[s]).pages()[0].1.dirty_mark()
                == slot_mark(views.take(k + 1), views, s) by {
                assert(before.slots()[s].pages()[0].1.dirty_mark() == slot_mark(
                    views.take(k as int),
                    views,
                    s,
                ));
            }
        }
        k = k + 1;
    }
    proof {
        assert(views.take(n as int) =~= views);
        lemma_holds_content(*store, replay(views, views));
    }
    Ok(())
}

/// The id behind `id` where `id` is not below `next`, else `next`; the
/// largest id is behind itself.
pub open spec fn id_behind(next: u64, id: u64) -> u64 {
    if id < next {
        next
    } else if id == u64::MAX {
        u64::MAX
    } else {
        (id + 1) as u64
    }
}

/// The ids to hand out behind the records `items`: behind the largest id of
/// a transaction and behind the largest id of an action among them, from 0
/// where there are none.
pub open spec fn spec_recovered_ids(items: Seq<LogItemView>) -> IdSource
    decreases items.len(),
{
    if items.len() == 0 {
        IdSource { next_tid: 0, next_action_id: 0 }
    } else {
        let before = spec_recovered_ids(items.drop_last());
        IdSource {
            next_tid: id_behind(before.next_tid, items.last().tid),
            next_action_id: id_behind(before.next_action_id, items.last().action_id),
        }
    }
}

/// The ids to hand out behind the records `items`: each lies behind every
/// id of its kind among the records, but for the largest id, behind which
/// there is none.
pub fn recovered_ids(items: &Vec<WalLogItem>) -> (ids: IdSource)
    ensures
        ids == spec_recovered_ids(item_views(items@)),
        forall|i: int|
            0 <= i < items@.len() ==> (#[trigger] items@[i]).tid < ids.next_tid || ids.next_tid
                == u64::MAX,
        forall|i: int|
            0 <= i < items@.len() ==> (#[trigger] items@[i]).action_id < ids.next_action_id
                || ids.next_action_id == u64::MAX,
{
    let mut ids = IdSource { next_tid: 0, next_action_id: 0 };
    let n = items.len();
    let mut k: usize = 0;
    let ghost views = item_views(items@);
    proof {
        assert(views.take(0) =~= Seq::empty());
    }
    while k < n
        invariant
            n == items@.len(),
            k <= n,
            views == item_views(items@),
            ids == spec_recovered_ids(views.take(k as int)),
            forall|i: int|
                0 <= i < k ==> (#[trigger] items@[i]).tid < ids.next_tid || ids.next_tid == u64::MAX,
            forall|i: int|
                0 <= i < k ==> (#[trigger] items@[i]).action_id < ids.next_action_id
                    || ids.next_action_id == u64::MAX,
        decreases n - k,
    {
        let tid = items[k].tid;
        let action_id = items[k].action_id;
        proof {
            assert(views.take(k + 1).drop_last() =~= views.take(k as int));
            assert(views.take(k + 1).last() == items@[k as int]@);
        }
        if tid >= ids.next_tid {
            ids.next_tid = if tid == u64::MAX {
                u64::MAX
            } else {
                tid + 1
            };
        }
        if action_id >= ids.next_action_id {
            ids.next_action_id = if action_id == u64::MAX {
                u64::MAX
            } else {
                action_id + 1
            };
        }
        k = k + 1;
    }
    proof {
        assert(views.take(n as int) =~= views);
    }
    ids
}

} // verus!
