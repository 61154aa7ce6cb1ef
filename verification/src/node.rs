//! A node: its datasets, its store and its write-ahead log, and the update
//! of the features of a dataset by an event.
use crate::calc_hash;
use crate::config::Config;
use crate::custom_error::{
    common_err, error_text, type_mismatch_message, CustomResult, GENERIC_CODE,
    TYPE_MISMATCH_CODE,
};
use crate::ds::column::{
    get_value_as_int, spec_value_as_int, spec_value_as_u64, ColumnType, Read,
};
use crate::ds::event::Event;
use crate::ds::{DataSet, DsUpdateResult, FeatureUpdateResult};
use crate::feature::count_feature::CountFeatureTemplate;
use crate::feature::value::{spec_add_int, window_start, ValueKind};
use crate::feature::{Feature, FeatureTemplate};
use crate::spec_calc_hash;
use crate::store::flush::{write_views, FileWrite, FileWriteView};
use crate::store::page::{Page, PageView};
use crate::store::recover::{read_log, recovered, recovered_ids, redo_all, windows_in};
use crate::store::slot::{holds, in_range, Slot};
use crate::store::Dirty;
use crate::store::wal::{
    given_up_run, FeatureUpdateView, IdSource, LogItemView, LogValueView, Shadowed, Wal,
    WalFeatureUpdateValue, WalLogItem, WalLogKind,
};
use crate::store::wire::written;
use crate::store::{spec_slot_id, Store};
use bytes::BytesMut;
use std::collections::HashMap;
use vstd::prelude::*;
use vstd::string::StringExecFns;
use vstd::utf8::encode_utf8;

verus! {

broadcast use vstd::std_specs::hash::group_hash_axioms;

/// What became of the update of one feature: the record of what it did, or
/// the code and the message of the error.
pub enum Outcome {
    Done(FeatureUpdateView),
    Failed(usize, Seq<char>),
}

/// What the error says where a key is too long for a record of the log.
pub open spec fn long_key_message() -> Seq<char> {
    "the feature key is too long"@
}

/// What the error says where an event names a dataset that the node does
/// not have.
pub open spec fn no_dataset_message() -> Seq<char> {
    "the node has no such dataset"@
}

/// What the error says where the log has too few action ids left.
pub open spec fn no_action_id_message() -> Seq<char> {
    "no action id is left"@
}

/// What counting `event` under `key` makes of what a store holds, and what
/// comes of it.
///
/// The count fails where the key is too long for a record of the log, where
/// its hash is the largest, which no page holds, where the event has no
/// time, where the window has no length that fits, and where the window
/// holds a float.
pub open spec fn count_step(
    content: Map<Seq<char>, Map<u64, ValueKind>>,
    cf: CountFeatureTemplate,
    event: &Event,
    key: Seq<char>,
) -> (Map<Seq<char>, Map<u64, ValueKind>>, Outcome) {
    if encode_utf8(key).len() > u16::MAX {
        (content, Outcome::Failed(GENERIC_CODE, long_key_message()))
    } else if spec_calc_hash(key) == u64::MAX {
        (content, Outcome::Failed(GENERIC_CODE, crate::store::no_page_message()))
    } else {
        match spec_value_as_u64(event, cf.time_key@) {
            Read::Failed(code, message) => (content, Outcome::Failed(code, message)),
            Read::Value(time) => match cf.spec_window() {
                None => (content, Outcome::Failed(GENERIC_CODE, cf.spec_window_message())),
                Some(window) => {
                    let windows = windows_in(content, key);
                    let t = window_start(time, window);
                    if windows.contains_key(t) && windows[t] is Float {
                        (content, Outcome::Failed(TYPE_MISMATCH_CODE, type_mismatch_message(key)))
                    } else {
                        let added = spec_add_int(windows, time, window, 1);
                        (
                            content.insert(key, added),
                            Outcome::Done(
                                FeatureUpdateView {
                                    fk: key,
                                    tk: t,
                                    undo_v: if windows.contains_key(t) {
                                        Some(windows[t])
                                    } else {
                                        None
                                    },
                                    redo_v: added[t],
                                },
                            ),
                        )
                    }
                },
            },
        }
    }
}

/// What the update of `feature` for `event` under `key` makes of what a
/// store holds, and what comes of it.
pub open spec fn feature_step(
    content: Map<Seq<char>, Map<u64, ValueKind>>,
    feature: Feature,
    event: &Event,
    key: Seq<char>,
) -> (Map<Seq<char>, Map<u64, ValueKind>>, Outcome) {
    match feature.template {
        FeatureTemplate::COUNT(cf) => count_step(content, cf, event, key),
    }
}

/// An update among `outcomes` that was done has a key whose hash the slot
/// `s` takes and the page with index `i` of `pages` holds in its range.
pub open spec fn touched(
    pages: Seq<(u64, Page)>,
    s: int,
    i: int,
    built: Seq<(Seq<char>, int)>,
    outcomes: Seq<Outcome>,
) -> bool {
    exists|j: int|
        0 <= j < outcomes.len() && j < built.len() && (#[trigger] outcomes[j]) is Done
            && spec_slot_id(spec_calc_hash(built[j].0)) == s && in_range(
            pages[i].1@,
            spec_calc_hash(built[j].0),
        )
}

/// A page with the lower bound `min_pk` was clean in `before` and is marked
/// as changed in `after`.
pub open spec fn became_dirty(before: Seq<(u64, Page)>, after: Seq<(u64, Page)>, min_pk: u64) -> bool {
    exists|i: int|
        0 <= i < before.len() && i < after.len() && (#[trigger] before[i]).1@.min_pk == min_pk
            && before[i].1.dirty_mark() is None && after[i].1.dirty_mark() is Some
}

/// The pages that wait to be written out in `after` are those that waited
/// in `before`, in their order, followed by the lower bounds of the pages
/// that became dirty, each once.
pub open spec fn queue_grown(before: Slot, after: Slot) -> bool {
    let n = before.dirty_queue().len() as int;
    let added = after.dirty_queue().skip(n);
    &&& n <= after.dirty_queue().len()
    &&& after.dirty_queue().take(n) == before.dirty_queue()
    &&& added.no_duplicates()
    &&& forall|min_pk: u64|
        #![trigger added.contains(min_pk)]
        #![trigger became_dirty(before.pages(), after.pages(), min_pk)]
        added.contains(min_pk) <==> became_dirty(before.pages(), after.pages(), min_pk)
}

/// The index of the page of `pages` whose range holds `hash`.
pub open spec fn page_of(pages: Seq<(u64, Page)>, hash: u64) -> int {
    choose|i: int| 0 <= i < pages.len() && in_range(pages[i].1@, hash)
}

/// The pages of slot `s` that wait to be written out after the updates
/// `outcomes` of the keys `built`, where `pages` are the pages of the slot
/// before the updates and `queue` those that waited then: behind these, the
/// lower bound of each page that was clean, in the order in which an update
/// that was done first had its key in the range of the page.
pub open spec fn queued(
    pages: Seq<(u64, Page)>,
    queue: Seq<u64>,
    s: int,
    built: Seq<(Seq<char>, int)>,
    outcomes: Seq<Outcome>,
) -> Seq<u64>
    decreases outcomes.len(),
{
    if outcomes.len() == 0 || built.len() == 0 {
        queue
    } else {
        let earlier = queued(pages, queue, s, built.drop_last(), outcomes.drop_last());
        let hash = spec_calc_hash(built.last().0);
        let i = page_of(pages, hash);
        if outcomes.last() is Done && spec_slot_id(hash) == s && pages[i].1.dirty_mark() is None
            && !touched(pages, s, i, built.drop_last(), outcomes.drop_last()) {
            earlier.push(pages[i].1@.min_pk)
        } else {
            earlier
        }
    }
}

/// What the updates `outcomes` of the keys `built` by action `action_id`
/// have made of the slot `before` with id `s`, but for what its pages hold.
///
/// The slot has its pages with their ids and ranges, its bits and the mark
/// of its index. A page in whose range the key of an update lies that was
/// done has the action noted in its mark. Each other page holds what it
/// held, with the mark that it had. The pages that became dirty wait to be
/// written out, behind those that waited.
pub open spec fn slot_marked(
    before: Slot,
    after: Slot,
    s: int,
    action_id: u64,
    built: Seq<(Seq<char>, int)>,
    outcomes: Seq<Outcome>,
) -> bool {
    &&& after.pages().len() == before.pages().len()
    &&& after.bitmap() == before.bitmap()
    &&& after.index_mark() == before.index_mark()
    &&& forall|i: int|
        0 <= i < after.pages().len() ==> {
            let page = (#[trigger] after.pages()[i]).1;
            let held = before.pages()[i].1;
            &&& page@.slot_id == held@.slot_id
            &&& page@.id == held@.id
            &&& page@.min_pk == held@.min_pk
            &&& page@.max_pk == held@.max_pk
            &&& if touched(before.pages(), s, i, built, outcomes) {
                page.dirty_mark() == Some(Dirty::spec_update(held.dirty_mark(), action_id))
            } else {
                page@ == held@ && page.dirty_mark() == held.dirty_mark()
            }
        }
    &&& queue_grown(before, after)
    &&& after.dirty_queue() == queued(before.pages(), before.dirty_queue(), s, built, outcomes)
}

/// What the updates `outcomes` of the keys `built` by action `action_id`
/// have made of each slot of `before`, but for what its pages hold.
pub open spec fn marks_queued(
    before: Store,
    after: Store,
    action_id: u64,
    built: Seq<(Seq<char>, int)>,
    outcomes: Seq<Outcome>,
) -> bool {
    &&& after.slots().len() == before.slots().len()
    &&& forall|s: int|
        0 <= s < after.slots().len() ==> slot_marked(
            before.slots()[s],
            #[trigger] after.slots()[s],
            s,
            action_id,
            built,
            outcomes,
        )
}

/// `after` is `before` but for the page with index `i`, which keeps its id
/// and its range. Where an action is given, it is noted in the mark of the
/// page, and the page waits to be written out where it was clean; else the
/// mark and the pages that wait are as before.
pub open spec fn slot_updated(before: Slot, after: Slot, i: int, action: Option<u64>) -> bool {
    let held = before.pages()[i].1;
    let page = after.pages()[i].1;
    &&& 0 <= i < before.pages().len()
    &&& after.pages().len() == before.pages().len()
    &&& forall|j: int|
        0 <= j < after.pages().len() && j != i ==> #[trigger] after.pages()[j] == before.pages()[j]
    &&& page@.slot_id == held@.slot_id
    &&& page@.id == held@.id
    &&& page@.min_pk == held@.min_pk
    &&& page@.max_pk == held@.max_pk
    &&& after.bitmap() == before.bitmap()
    &&& after.index_mark() == before.index_mark()
    &&& match action {
        Some(action_id) => {
            &&& page.dirty_mark() == Some(Dirty::spec_update(held.dirty_mark(), action_id))
            &&& after.dirty_queue() == if held.dirty_mark() is None {
                before.dirty_queue().push(held@.min_pk)
            } else {
                before.dirty_queue()
            }
        },
        None => page.dirty_mark() == held.dirty_mark() && after.dirty_queue()
            == before.dirty_queue(),
    }
}

/// `after` is `before` but for the page with index `i` of slot `s`, as
/// `slot_updated` says.
pub open spec fn page_updated(before: Store, after: Store, s: int, i: int, action: Option<u64>) -> bool {
    &&& after.slots().len() == before.slots().len()
    &&& 0 <= s < before.slots().len()
    &&& forall|t: int|
        0 <= t < after.slots().len() && t != s ==> #[trigger] after.slots()[t] == before.slots()[t]
    &&& slot_updated(before.slots()[s], after.slots()[s], i, action)
}

/// One more update touches the page in whose range its key lies, where it
/// was done, and no other.
proof fn lemma_touched_push(
    pages: Seq<(u64, Page)>,
    s: int,
    i: int,
    j: int,
    built: Seq<(Seq<char>, int)>,
    outcomes: Seq<Outcome>,
    entry: (Seq<char>, int),
    outcome: Outcome,
)
    requires
        crate::store::slot::ranges_ordered(pages),
        built.len() == outcomes.len(),
        0 <= i < pages.len(),
        0 <= j < pages.len(),
        outcome is Done ==> spec_slot_id(spec_calc_hash(entry.0)) == s && in_range(
            pages[i].1@,
            spec_calc_hash(entry.0),
        ),
    ensures
        touched(pages, s, j, built.push(entry), outcomes.push(outcome)) == (touched(
            pages,
            s,
            j,
            built,
            outcomes,
        ) || (outcome is Done && j == i)),
{
    let built2 = built.push(entry);
    let outcomes2 = outcomes.push(outcome);
    let n = outcomes.len() as int;
    if touched(pages, s, j, built2, outcomes2) {
        let k = choose|k: int|
            0 <= k < outcomes2.len() && k < built2.len() && (#[trigger] outcomes2[k]) is Done
                && spec_slot_id(spec_calc_hash(built2[k].0)) == s && in_range(
                pages[j].1@,
                spec_calc_hash(built2[k].0),
            );
        if k < n {
            assert(outcomes[k] == outcomes2[k] && built[k] == built2[k]);
            assert(touched(pages, s, j, built, outcomes));
        } else {
            if i < j {
                crate::store::slot::lemma_tiles_order(pages, i, j);
            }
            if j < i {
                crate::store::slot::lemma_tiles_order(pages, j, i);
            }
        }
    }
    if touched(pages, s, j, built, outcomes) {
        let k = choose|k: int|
            0 <= k < outcomes.len() && k < built.len() && (#[trigger] outcomes[k]) is Done
                && spec_slot_id(spec_calc_hash(built[k].0)) == s && in_range(
                pages[j].1@,
                spec_calc_hash(built[k].0),
            );
        assert(outcomes2[k] == outcomes[k] && built2[k] == built[k]);
    }
    if outcome is Done && j == i {
        assert(outcomes2[n] == outcome && built2[n] == entry);
    }
}

/// A slot that an update leaves as it is stays as the updates before made
/// it.
proof fn lemma_slot_idle(
    before: Slot,
    after: Slot,
    s: int,
    action_id: u64,
    built: Seq<(Seq<char>, int)>,
    outcomes: Seq<Outcome>,
    entry: (Seq<char>, int),
    outcome: Outcome,
)
    requires
        built.len() == outcomes.len(),
        slot_marked(before, after, s, action_id, built, outcomes),
        outcome is Done ==> spec_slot_id(spec_calc_hash(entry.0)) != s,
    ensures
        slot_marked(before, after, s, action_id, built.push(entry), outcomes.push(outcome)),
{
    let built2 = built.push(entry);
    let outcomes2 = outcomes.push(outcome);
    let n = outcomes.len() as int;
    assert forall|i: int| 0 <= i < after.pages().len() implies touched(
        before.pages(),
        s,
        i,
        built2,
        outcomes2,
    ) == touched(before.pages(), s, i, built, outcomes) by {
        if touched(before.pages(), s, i, built2, outcomes2) {
            let k = choose|k: int|
                0 <= k < outcomes2.len() && k < built2.len() && (#[trigger] outcomes2[k]) is Done
                    && spec_slot_id(spec_calc_hash(built2[k].0)) == s && in_range(
                    before.pages()[i].1@,
                    spec_calc_hash(built2[k].0),
                );
            assert(k < n);
            assert(outcomes[k] == outcomes2[k] && built[k] == built2[k]);
        }
        if touched(before.pages(), s, i, built, outcomes) {
            let k = choose|k: int|
                0 <= k < outcomes.len() && k < built.len() && (#[trigger] outcomes[k]) is Done
                    && spec_slot_id(spec_calc_hash(built[k].0)) == s && in_range(
                    before.pages()[i].1@,
                    spec_calc_hash(built[k].0),
                );
            assert(outcomes2[k] == outcomes[k] && built2[k] == built[k]);
        }
    }
    assert(built2.drop_last() =~= built);
    assert(outcomes2.drop_last() =~= outcomes);
}

/// The pages that wait behind those of `before` when one more page was
/// marked.
#[verifier::rlimit(30)]
proof fn lemma_queue_step(before: Slot, mid: Slot, after: Slot, i: int, action: Option<u64>)
    requires
        crate::store::slot::ranges_ordered(before.pages()),
        mid.pages().len() == before.pages().len(),
        forall|j: int|
            0 <= j < mid.pages().len() ==> (#[trigger] mid.pages()[j]).1@.min_pk
                == before.pages()[j].1@.min_pk,
        forall|j: int|
            0 <= j < mid.pages().len() && (#[trigger] mid.pages()[j]).1.dirty_mark() is None
                ==> before.pages()[j].1.dirty_mark() is None,
        queue_grown(before, mid),
        slot_updated(mid, after, i, action),
    ensures
        queue_grown(before, after),
{
    let n = before.dirty_queue().len() as int;
    let added = mid.dirty_queue().skip(n);
    let now = after.dirty_queue().skip(n);
    let pk = mid.pages()[i].1@.min_pk;
    let b = before.pages();
    let m = mid.pages();
    let a = after.pages();
    let pushed = action is Some && m[i].1.dirty_mark() is None;
    assert(after.dirty_queue().take(n) =~= mid.dirty_queue().take(n));
    assert forall|x: u64| became_dirty(b, a, x) == (became_dirty(b, m, x) || (pushed && x == pk)) by {
        if became_dirty(b, a, x) {
            let k = choose|k: int|
                0 <= k < b.len() && k < a.len() && (#[trigger] b[k]).1@.min_pk == x
                    && b[k].1.dirty_mark() is None && a[k].1.dirty_mark() is Some;
            if k != i {
                assert(a[k] == m[k]);
                assert(became_dirty(b, m, x));
            } else if !pushed {
                assert(m[k].1.dirty_mark() is Some);
                assert(became_dirty(b, m, x));
            }
        }
        if became_dirty(b, m, x) {
            let k = choose|k: int|
                0 <= k < b.len() && k < m.len() && (#[trigger] b[k]).1@.min_pk == x
                    && b[k].1.dirty_mark() is None && m[k].1.dirty_mark() is Some;
            if k != i {
                assert(a[k] == m[k]);
            }
            assert(a[k].1.dirty_mark() is Some);
        }
        if pushed && x == pk {
            assert(b[i].1@.min_pk == pk);
            assert(a[i].1.dirty_mark() is Some);
        }
    }
    if pushed {
        assert(now =~= added.push(pk));
        assert(!added.contains(pk)) by {
            if added.contains(pk) {
                let k = choose|k: int|
                    0 <= k < b.len() && k < m.len() && (#[trigger] b[k]).1@.min_pk == pk
                        && b[k].1.dirty_mark() is None && m[k].1.dirty_mark() is Some;
                if k < i {
                    crate::store::slot::lemma_tiles_order(b, k, i);
                }
                if i < k {
                    crate::store::slot::lemma_tiles_order(b, i, k);
                }
            }
        }
        assert(now.no_duplicates()) by {
            assert forall|x: int, y: int| 0 <= x < now.len() && 0 <= y < now.len() && x != y implies now[x]
                != now[y] by {
                if x < added.len() && y < added.len() {
                    assert(added[x] != added[y]);
                } else if x < added.len() {
                    assert(added.contains(added[x]));
                } else {
                    assert(added.contains(added[y]));
                }
            }
        }
        assert forall|x: u64| now.contains(x) == (added.contains(x) || x == pk) by {
            if now.contains(x) {
                let k = choose|k: int| 0 <= k < now.len() && now[k] == x;
                if k < added.len() {
                    assert(added[k] == x);
                }
            }
            if added.contains(x) {
                let k = choose|k: int| 0 <= k < added.len() && added[k] == x;
                assert(now[k] == x);
            }
            if x == pk {
                assert(now[added.len() as int] == pk);
            }
        }
    } else {
        assert(now =~= added);
    }
    assert forall|x: u64|
        #![trigger now.contains(x)]
        #![trigger became_dirty(b, a, x)]
        now.contains(x) <==> became_dirty(b, a, x) by {
        assert(added.contains(x) <==> became_dirty(b, m, x));
    }
}

/// What one more update makes of the slot that takes its key, where the
/// page with index `i` holds the key in its range.
#[verifier::rlimit(30)]
proof fn lemma_slot_step(
    before: Slot,
    mid: Slot,
    after: Slot,
    s: int,
    i: int,
    action_id: u64,
    built: Seq<(Seq<char>, int)>,
    outcomes: Seq<Outcome>,
    entry: (Seq<char>, int),
    outcome: Outcome,
)
    requires
        crate::store::slot::ranges_ordered(before.pages()),
        built.len() == outcomes.len(),
        slot_marked(before, mid, s, action_id, built, outcomes),
        slot_updated(
            mid,
            after,
            i,
            if outcome is Done {
                Some(action_id)
            } else {
                None
            },
        ),
        outcome is Failed ==> after.pages()[i].1@ == mid.pages()[i].1@,
        outcome is Done ==> spec_slot_id(spec_calc_hash(entry.0)) == s && in_range(
            mid.pages()[i].1@,
            spec_calc_hash(entry.0),
        ),
    ensures
        slot_marked(before, after, s, action_id, built.push(entry), outcomes.push(outcome)),
{
    let built2 = built.push(entry);
    let outcomes2 = outcomes.push(outcome);
    let b = before.pages();
    let m = mid.pages();
    let a = after.pages();
    assert(m[i].1@.min_pk == b[i].1@.min_pk && m[i].1@.max_pk == b[i].1@.max_pk);
    assert forall|j: int| 0 <= j < a.len() implies {
        let page = (#[trigger] a[j]).1;
        let held = b[j].1;
        &&& page@.slot_id == held@.slot_id
        &&& page@.id == held@.id
        &&& page@.min_pk == held@.min_pk
        &&& page@.max_pk == held@.max_pk
        &&& if touched(b, s, j, built2, outcomes2) {
            page.dirty_mark() == Some(Dirty::spec_update(held.dirty_mark(), action_id))
        } else {
            page@ == held@ && page.dirty_mark() == held.dirty_mark()
        }
    } by {
        lemma_touched_push(b, s, i, j, built, outcomes, entry, outcome);
        assert(m[j].1@.min_pk == b[j].1@.min_pk);
        if j != i {
            assert(a[j] == m[j]);
        }
    }
    assert forall|j: int| 0 <= j < m.len() && (#[trigger] m[j]).1.dirty_mark() is None implies b[j].1.dirty_mark() is None by {}
    assert forall|j: int| 0 <= j < m.len() implies (#[trigger] m[j]).1@.min_pk == b[j].1@.min_pk by {}
    assert(built2.drop_last() =~= built);
    assert(outcomes2.drop_last() =~= outcomes);
    if outcome is Done {
        let hash = spec_calc_hash(entry.0);
        let at = page_of(b, hash);
        assert(in_range(b[i].1@, hash));
        if at < i {
            crate::store::slot::lemma_tiles_order(b, at, i);
        }
        if i < at {
            crate::store::slot::lemma_tiles_order(b, i, at);
        }
        assert(at == i);
    }
    lemma_queue_step(
        before,
        mid,
        after,
        i,
        if outcome is Done {
            Some(action_id)
        } else {
            None
        },
    );
}

/// What one more update that was done makes of the marks of a store.
proof fn lemma_marks_done(
    start: Store,
    mid: Store,
    after: Store,
    s: int,
    i: int,
    action_id: u64,
    built: Seq<(Seq<char>, int)>,
    outcomes: Seq<Outcome>,
    entry: (Seq<char>, int),
    outcome: Outcome,
)
    requires
        start.wf(),
        built.len() == outcomes.len(),
        marks_queued(start, mid, action_id, built, outcomes),
        page_updated(mid, after, s, i, Some(action_id)),
        outcome is Done,
        s == spec_slot_id(spec_calc_hash(entry.0)),
        in_range(mid.slots()[s].pages()[i].1@, spec_calc_hash(entry.0)),
    ensures
        marks_queued(start, after, action_id, built.push(entry), outcomes.push(outcome)),
{
    assert forall|t: int| 0 <= t < after.slots().len() implies slot_marked(
        start.slots()[t],
        #[trigger] after.slots()[t],
        t,
        action_id,
        built.push(entry),
        outcomes.push(outcome),
    ) by {
        assert(slot_marked(start.slots()[t], mid.slots()[t], t, action_id, built, outcomes));
        assert(start.slots()[t].complete());
        if t != s {
            assert(after.slots()[t] == mid.slots()[t]);
            lemma_slot_idle(
                start.slots()[t],
                mid.slots()[t],
                t,
                action_id,
                built,
                outcomes,
                entry,
                outcome,
            );
        } else {
            lemma_slot_step(
                start.slots()[t],
                mid.slots()[t],
                after.slots()[t],
                t,
                i,
                action_id,
                built,
                outcomes,
                entry,
                outcome,
            );
        }
    }
}

/// An update that failed leaves the marks of a store as they are.
proof fn lemma_marks_failed(
    start: Store,
    mid: Store,
    after: Store,
    s: int,
    i: int,
    action_id: u64,
    built: Seq<(Seq<char>, int)>,
    outcomes: Seq<Outcome>,
    entry: (Seq<char>, int),
    outcome: Outcome,
)
    requires
        start.wf(),
        built.len() == outcomes.len(),
        marks_queued(start, mid, action_id, built, outcomes),
        outcome is Failed,
        after == mid || (page_updated(mid, after, s, i, None) && after.slots()[s].pages()[i].1@
            == mid.slots()[s].pages()[i].1@),
    ensures
        marks_queued(start, after, action_id, built.push(entry), outcomes.push(outcome)),
{
    assert forall|t: int| 0 <= t < after.slots().len() implies slot_marked(
        start.slots()[t],
        #[trigger] after.slots()[t],
        t,
        action_id,
        built.push(entry),
        outcomes.push(outcome),
    ) by {
        assert(slot_marked(start.slots()[t], mid.slots()[t], t, action_id, built, outcomes));
        assert(start.slots()[t].complete());
        if after == mid || t != s {
            assert(after.slots()[t] == mid.slots()[t]);
            lemma_slot_idle(
                start.slots()[t],
                mid.slots()[t],
                t,
                action_id,
                built,
                outcomes,
                entry,
                outcome,
            );
        } else {
            lemma_slot_step(
                start.slots()[t],
                mid.slots()[t],
                after.slots()[t],
                t,
                i,
                action_id,
                built,
                outcomes,
                entry,
                outcome,
            );
        }
    }
}

/// A store that nothing was done to has the marks that it had.
proof fn lemma_marks_begin(store: Store, action_id: u64)
    ensures
        marks_queued(store, store, action_id, Seq::empty(), Seq::empty()),
{
    assert forall|s: int| 0 <= s < store.slots().len() implies slot_marked(
        store.slots()[s],
        #[trigger] store.slots()[s],
        s,
        action_id,
        Seq::empty(),
        Seq::empty(),
    ) by {
        let slot = store.slots()[s];
        let n = slot.dirty_queue().len() as int;
        assert(slot.dirty_queue().take(n) =~= slot.dirty_queue());
        assert(slot.dirty_queue().skip(n) =~= Seq::<u64>::empty());
    }
}

/// The windows that the page which takes a key holds for it are the windows
/// that the store holds for it.
proof fn lemma_page_windows(store: Store, s: int, i: int, key: Seq<char>)
    requires
        store.wf(),
        s == spec_slot_id(spec_calc_hash(key)),
        0 <= i < store.slots()[s].pages().len(),
        in_range(store.slots()[s].pages()[i].1@, spec_calc_hash(key)),
    ensures
        Page::windows_of(store.slots()[s].pages()[i].1@.data, key) == windows_in(store@, key),
        store.slots()[s].pages()[i].1@.data.contains_key(key) == store@.contains_key(key),
        store.slots()[s].pages()[i].1.wf(),
{
    let held = store.slots()[s].pages()[i].1;
    crate::store::lemma_slot_id_bound(spec_calc_hash(key));
    assert(store.slots()[s].complete());
    assert(held.wf());
    if held@.data.contains_key(key) {
        assert(holds(store.pages_for(key), key, held@.data[key]));
        store.lemma_content(key, held@.data[key]);
    } else {
        store.lemma_content_none(key, i);
    }
}

/// A page that was changed for one key changes what the store holds for
/// that key.
proof fn lemma_store_put(
    before: Store,
    after: Store,
    s: int,
    i: int,
    key: Seq<char>,
    windows: Map<u64, ValueKind>,
)
    requires
        before.wf(),
        s == spec_slot_id(spec_calc_hash(key)),
        Store::page_replaced(before, after, s, i, after.slots()[s].pages()[i].1),
        after.slots()[s].pages()[i].1.wf(),
        after.slots()[s].pages()[i].1@ == (PageView {
            data: before.slots()[s].pages()[i].1@.data.insert(key, windows),
            ..before.slots()[s].pages()[i].1@
        }),
    ensures
        after.wf(),
        after@ == before@.insert(key, windows),
{
    let now = after.slots()[s].pages()[i].1;
    assert forall|k: Seq<char>| #[trigger] now@.data.contains_key(k) implies spec_slot_id(
        spec_calc_hash(k),
    ) == s by {
        if k != key {
            before.lemma_key_routed(s, i, k);
        }
    }
    Store::lemma_page_replaced(before, after, s, i, now);
    Store::lemma_page_put(before, after, s, i, now, key, windows);
    assert(after@ =~= before@.insert(key, windows));
}

/// A page that was changed in nothing that it holds leaves what the store
/// holds as it is.
proof fn lemma_store_same(before: Store, after: Store, s: int, i: int)
    requires
        before.wf(),
        Store::page_replaced(before, after, s, i, after.slots()[s].pages()[i].1),
        after.slots()[s].pages()[i].1.wf(),
        after.slots()[s].pages()[i].1@ == before.slots()[s].pages()[i].1@,
    ensures
        after.wf(),
        after@ == before@,
{
    let now = after.slots()[s].pages()[i].1;
    assert forall|k: Seq<char>| #[trigger] now@.data.contains_key(k) implies spec_slot_id(
        spec_calc_hash(k),
    ) == s by {
        before.lemma_key_routed(s, i, k);
    }
    Store::lemma_page_replaced(before, after, s, i, now);
    crate::store::slot::lemma_page_same_data(
        before.slots()[s].pages(),
        after.slots()[s].pages(),
        i,
    );
    assert forall|t: int| 0 <= t < after.slots().len() implies crate::store::slot::same_content(
        before.slots()[t].pages(),
        (#[trigger] after.slots()[t]).pages(),
    ) by {
        if t != s {
            assert(after.slots()[t] == before.slots()[t]);
        }
    }
    after.lemma_all_same_content(&before);
    assert(after@ =~= before@);
}

/// Updates `feature` for `event` under `key` in the page with index `i` of
/// slot `s`, which takes the key.
#[verifier::rlimit(30)]
fn update_page(
    store: &mut Store,
    s: usize,
    i: usize,
    feature: &Feature,
    event: &Event,
    key: &String,
) -> (r: CustomResult<WalFeatureUpdateValue>)
    requires
        old(store).wf(),
        encode_utf8(key@).len() <= u16::MAX,
        s == spec_slot_id(spec_calc_hash(key@)),
        s < old(store).slots().len(),
        i < old(store).slots()[s as int].pages().len(),
        in_range(old(store).slots()[s as int].pages()[i as int].1@, spec_calc_hash(key@)),
    ensures
        final(store).wf(),
        final(store).spec_data_dir() == old(store).spec_data_dir(),
        final(store).slots().len() == old(store).slots().len(),
        final(store).slots()[s as int].pages().len() == old(store).slots()[s as int].pages().len(),
        final(store)@ == feature_step(old(store)@, *feature, event, key@).0,
        match feature_step(old(store)@, *feature, event, key@).1 {
            Outcome::Done(record) => r is Ok && r->Ok_0@ == record,
            Outcome::Failed(code, message) => r is Err && r->Err_0.code == code
                && r->Err_0.message@ == message,
        },
        page_updated(*old(store), *final(store), s as int, i as int, None),
        r is Err ==> final(store).slots()[s as int].pages()[i as int].1@ == old(store).slots()[s as int].pages()[i as int].1@,
{
    let ghost before = *store;
    proof {
        lemma_page_windows(before, s as int, i as int, key@);
    }
    let page = store.page_mut(s, i);
    let r = feature.calc_and_update(event, key, page);
    proof {
        let after = *store;
        let now = after.slots()[s as int].pages()[i as int].1;
        if r is Ok {
            lemma_store_put(before, after, s as int, i as int, key@, now@.data[key@]);
        } else {
            lemma_store_same(before, after, s as int, i as int);
        }
        assert forall|j: int|
            0 <= j < after.slots()[s as int].pages().len() && j != i implies #[trigger] after.slots()[s as int].pages()[j]
            == before.slots()[s as int].pages()[j] by {}
    }
    r
}

/// Updates `feature` for `event` under `key` in the store, and marks the
/// page as changed by action `action_id`. Returns with the result the index
/// of the page in its slot.
#[verifier::rlimit(30)]
fn apply_feature(
    store: &mut Store,
    feature: &Feature,
    event: &Event,
    key: &String,
    action_id: u64,
) -> (r: (CustomResult<WalFeatureUpdateValue>, Ghost<int>))
    requires
        old(store).wf(),
        encode_utf8(key@).len() <= u16::MAX,
    ensures
        final(store).wf(),
        final(store).spec_data_dir() == old(store).spec_data_dir(),
        final(store)@ == feature_step(old(store)@, *feature, event, key@).0,
        match feature_step(old(store)@, *feature, event, key@).1 {
            Outcome::Done(record) => r.0 is Ok && r.0->Ok_0@ == record,
            Outcome::Failed(code, message) => r.0 is Err && r.0->Err_0.code == code
                && r.0->Err_0.message@ == message,
        },
        r.0 is Ok ==> {
            let s = spec_slot_id(spec_calc_hash(key@)) as int;
            &&& page_updated(*old(store), *final(store), s, r.1@, Some(action_id))
            &&& in_range(old(store).slots()[s].pages()[r.1@].1@, spec_calc_hash(key@))
        },
        r.0 is Err ==> {
            let s = spec_slot_id(spec_calc_hash(key@)) as int;
            *final(store) == *old(store) || (page_updated(
                *old(store),
                *final(store),
                s,
                r.1@,
                None,
            ) && final(store).slots()[s].pages()[r.1@].1@ == old(store).slots()[s].pages()[r.1@].1@)
        },
{
    let hash = calc_hash(key);
    let (s, i) = match store.locate(hash) {
        Ok(place) => place,
        Err(e) => {
            return (Err(e), Ghost(0));
        },
    };
    let r = update_page(store, s, i, feature, event, key);
    if r.is_ok() {
        let ghost content = store@;
        store.after_update(s, i, action_id);
        proof {
            assert(store@ =~= content);
        }
    }
    (r, Ghost(i as int))
}

/// The name under which an event holds the id of its dataset.
pub const KEY_DS: &'static str = "ds";

/// The keys of the features whose key can be built from `event`, each with
/// the index of its feature, in the order of the features.
pub open spec fn built_keys(
    features: Seq<Feature>,
    event: &Event,
    column_type_map: Seq<(String, ColumnType)>,
) -> Seq<(Seq<char>, int)>
    decreases features.len(),
{
    if features.len() == 0 {
        Seq::empty()
    } else {
        let before = built_keys(features.drop_last(), event, column_type_map);
        match features.last().spec_build_key(event, column_type_map) {
            Read::Value(key) => before.push((key, features.len() - 1)),
            Read::Failed(_, _) => before,
        }
    }
}

/// The features whose key cannot be built from `event`, by their id, each
/// marked as failed, with the error in one line.
pub open spec fn key_failures(
    features: Seq<Feature>,
    event: &Event,
    column_type_map: Seq<(String, ColumnType)>,
) -> Map<u64, (bool, Seq<char>)>
    decreases features.len(),
{
    if features.len() == 0 {
        Map::empty()
    } else {
        let before = key_failures(features.drop_last(), event, column_type_map);
        match features.last().spec_build_key(event, column_type_map) {
            Read::Value(_) => before,
            Read::Failed(code, message) => before.insert(
                features.last().id,
                (false, error_text(code, message)),
            ),
        }
    }
}

/// Whether each feature was updated, and what its result says, by the
/// feature's id.
pub open spec fn result_views(results: Map<u64, FeatureUpdateResult>) -> Map<
    u64,
    (bool, Seq<char>),
> {
    Map::new(
        |id: u64| results.contains_key(id),
        |id: u64| (results[id].success, results[id].msg@),
    )
}

/// What the result of an update says: nothing where it was done, else the
/// error in one line.
pub open spec fn outcome_view(outcome: Outcome) -> (bool, Seq<char>) {
    match outcome {
        Outcome::Done(_) => (true, Seq::empty()),
        Outcome::Failed(code, message) => (false, error_text(code, message)),
    }
}

/// The keys with the indices of their features, as sequences.
pub open spec fn key_views(keys: Seq<(String, usize)>) -> Seq<(Seq<char>, int)> {
    Seq::new(keys.len(), |j: int| (keys[j].0@, keys[j].1 as int))
}

/// Builds the key of each feature of `ds` for the event `data`. Returns the
/// keys that could be built, each with the index of its feature, and for
/// each other feature the failure, by the feature's id.
pub fn build_feature_keys(data: &Event, ds: &DataSet) -> (r: (
    Vec<(String, usize)>,
    HashMap<u64, FeatureUpdateResult>,
))
    ensures
        key_views(r.0@) == built_keys(ds.features@, data, ds.column_type_map@),
        forall|j: int| 0 <= j < r.0@.len() ==> (#[trigger] r.0@[j]).1 < ds.features@.len(),
        result_views(r.1@) == key_failures(ds.features@, data, ds.column_type_map@),
{
    let mut key_feature_map: Vec<(String, usize)> = Vec::new();
    let mut key_error_map: HashMap<u64, FeatureUpdateResult> = HashMap::new();
    let n = ds.features.len();
    let mut i: usize = 0;
    proof {
        assert(ds.features@.take(0) =~= Seq::empty());
        assert(key_views(key_feature_map@) =~= Seq::empty());
        assert(result_views(key_error_map@) =~= Map::empty());
    }
    while i < n
        invariant
            n == ds.features@.len(),
            i <= n,
            key_views(key_feature_map@) == built_keys(
                ds.features@.take(i as int),
                data,
                ds.column_type_map@,
            ),
            forall|j: int|
                0 <= j < key_feature_map@.len() ==> (#[trigger] key_feature_map@[j]).1
                    < ds.features@.len(),
            result_views(key_error_map@) == key_failures(
                ds.features@.take(i as int),
                data,
                ds.column_type_map@,
            ),
        decreases n - i,
    {
        let feature = &ds.features[i];
        let ghost held = key_feature_map@;
        let ghost failed = key_error_map@;
        proof {
            assert(ds.features@.take(i + 1).drop_last() =~= ds.features@.take(i as int));
            assert(ds.features@.take(i + 1).last() == *feature);
        }
        match feature.build_key(data, &ds.column_type_map) {
            Ok(key) => {
                let ghost k = key@;
                key_feature_map.push((key, i));
                proof {
                    assert(key_views(key_feature_map@) =~= key_views(held).push((k, i as int)));
                }
            },
            Err(e) => {
                key_error_map.insert(feature.id, FeatureUpdateResult::failed(e.to_string()));
                proof {
                    assert(result_views(key_error_map@) =~= result_views(failed).insert(
                        feature.id,
                        (false, error_text(e.code, e.message@)),
                    ));
                }
            },
        }
        i = i + 1;
    }
    proof {
        assert(ds.features@.take(n as int) =~= ds.features@);
    }
    (key_feature_map, key_error_map)
}

/// What the updates of the features with the keys `built`, in their order,
/// make of what a store holds, and what comes of each.
pub open spec fn apply_keys(
    content: Map<Seq<char>, Map<u64, ValueKind>>,
    built: Seq<(Seq<char>, int)>,
    features: Seq<Feature>,
    event: &Event,
) -> (Map<Seq<char>, Map<u64, ValueKind>>, Seq<Outcome>)
    decreases built.len(),
{
    if built.len() == 0 {
        (content, Seq::empty())
    } else {
        let (before, outcomes) = apply_keys(content, built.drop_last(), features, event);
        let (after, outcome) = feature_step(
            before,
            features[built.last().1],
            event,
            built.last().0,
        );
        (after, outcomes.push(outcome))
    }
}

/// The number of updates among `outcomes` that were done.
pub open spec fn done_count(outcomes: Seq<Outcome>) -> nat
    decreases outcomes.len(),
{
    if outcomes.len() == 0 {
        0
    } else {
        done_count(outcomes.drop_last()) + if outcomes.last() is Done {
            1nat
        } else {
            0nat
        }
    }
}

/// The records of the updates among `outcomes` that were done, in their
/// order, for the transaction `tid`, with the action ids from `first` on.
pub open spec fn update_records(outcomes: Seq<Outcome>, tid: u64, first: int) -> Seq<LogItemView>
    decreases outcomes.len(),
{
    if outcomes.len() == 0 {
        Seq::empty()
    } else {
        let before = update_records(outcomes.drop_last(), tid, first);
        match outcomes.last() {
            Outcome::Done(record) => before.push(
                LogItemView {
                    tid,
                    kind: WalLogKind::FeatureUpdate,
                    action_id: (first + done_count(outcomes.drop_last())) as u64,
                    value: Some(LogValueView::FeatureUpdate(record)),
                },
            ),
            Outcome::Failed(_, _) => before,
        }
    }
}

/// Doing again what the record of an update tells gives what the update
/// made.
pub proof fn lemma_redo_step(
    content: Map<Seq<char>, Map<u64, ValueKind>>,
    feature: Feature,
    event: &Event,
    key: Seq<char>,
)
    ensures
        feature_step(content, feature, event, key).1 matches Outcome::Done(record)
            ==> crate::store::recover::redo(content, record) == feature_step(
            content,
            feature,
            event,
            key,
        ).0,
        feature_step(content, feature, event, key).1 is Failed ==> feature_step(
            content,
            feature,
            event,
            key,
        ).0 == content,
{
    match feature_step(content, feature, event, key).1 {
        Outcome::Done(record) => {
            let after = feature_step(content, feature, event, key).0;
            let windows = windows_in(content, key);
            assert(after[key] =~= windows.insert(record.tk, record.redo_v));
            assert(crate::store::recover::redo(content, record) =~= after);
        },
        Outcome::Failed(_, _) => {},
    }
}

/// Doing again what the records of an update tell, in their order, gives
/// what the update made of what the store held.
pub proof fn lemma_update_redone(
    content: Map<Seq<char>, Map<u64, ValueKind>>,
    built: Seq<(Seq<char>, int)>,
    features: Seq<Feature>,
    event: &Event,
    tid: u64,
    first: int,
)
    ensures
        redo_all(
            content,
            update_records(apply_keys(content, built, features, event).1, tid, first),
        ) == apply_keys(content, built, features, event).0,
        apply_keys(content, built, features, event).1.len() == built.len(),
    decreases built.len(),
{
    if built.len() > 0 {
        lemma_update_redone(content, built.drop_last(), features, event, tid, first);
        let (before, outcomes) = apply_keys(content, built.drop_last(), features, event);
        let step = feature_step(before, features[built.last().1], event, built.last().0);
        lemma_redo_step(before, features[built.last().1], event, built.last().0);
        let all = outcomes.push(step.1);
        assert(all.drop_last() =~= outcomes);
        assert(all.last() == step.1);
        let records = update_records(outcomes, tid, first);
        match step.1 {
            Outcome::Done(record) => {
                let item = LogItemView {
                    tid,
                    kind: WalLogKind::FeatureUpdate,
                    action_id: (first + done_count(outcomes)) as u64,
                    value: Some(LogValueView::FeatureUpdate(record)),
                };
                assert(update_records(all, tid, first) == records.push(item));
                assert(records.push(item).drop_last() =~= records);
            },
            Outcome::Failed(_, _) => {
                assert(update_records(all, tid, first) == records);
            },
        }
    }
}

/// The records that an update sends to the log: the transaction begins, the
/// updates that were done follow, and the transaction commits.
pub open spec fn transaction_records(outcomes: Seq<Outcome>, tid: u64, first: int) -> Seq<
    LogItemView,
> {
    (seq![LogItemView { tid, kind: WalLogKind::Begin, action_id: first as u64, value: None }]
        + update_records(outcomes, tid, first + 1)).push(
        LogItemView {
            tid,
            kind: WalLogKind::Commit,
            action_id: (first + 1 + done_count(outcomes)) as u64,
            value: None,
        },
    )
}

/// The records of the updates of a transaction belong to the transaction and
/// tell of updates.
pub proof fn lemma_update_records(outcomes: Seq<Outcome>, tid: u64, first: int)
    ensures
        update_records(outcomes, tid, first).len() == done_count(outcomes),
        forall|i: int|
            0 <= i < update_records(outcomes, tid, first).len() ==> {
                let item = #[trigger] update_records(outcomes, tid, first)[i];
                item.tid == tid && item.kind == WalLogKind::FeatureUpdate
            },
    decreases outcomes.len(),
{
    if outcomes.len() > 0 {
        lemma_update_records(outcomes.drop_last(), tid, first);
        let before = update_records(outcomes.drop_last(), tid, first);
        let all = update_records(outcomes, tid, first);
        assert forall|i: int| 0 <= i < all.len() implies {
            let item = #[trigger] all[i];
            item.tid == tid && item.kind == WalLogKind::FeatureUpdate
        } by {
            if i < before.len() {
                assert(all[i] == before[i]);
            }
        }
    }
}

/// A log that gives what a store holds, extended by the records that an
/// update sends, gives what the store holds after the update; broken off
/// before the record that commits the update, it gives what the store held
/// before. The transaction of the update must be new to the log.
pub proof fn lemma_update_recoverable(
    log: Seq<LogItemView>,
    built: Seq<(Seq<char>, int)>,
    features: Seq<Feature>,
    event: &Event,
    tid: u64,
    first: int,
    cut: int,
)
    requires
        forall|i: int| 0 <= i < log.len() ==> (#[trigger] log[i]).tid != tid,
        0 <= cut < transaction_records(
            apply_keys(crate::store::recover::replay(log, log), built, features, event).1,
            tid,
            first,
        ).len(),
    ensures
        ({
            let content = crate::store::recover::replay(log, log);
            let (after, outcomes) = apply_keys(content, built, features, event);
            let tx = transaction_records(outcomes, tid, first);
            &&& crate::store::recover::replay(log + tx, log + tx) == after
            &&& crate::store::recover::replay(log + tx.take(cut), log + tx.take(cut)) == content
        }),
{
    let content = crate::store::recover::replay(log, log);
    let (after, outcomes) = apply_keys(content, built, features, event);
    let records = update_records(outcomes, tid, first + 1);
    let begin = seq![
        LogItemView { tid, kind: WalLogKind::Begin, action_id: first as u64, value: None },
    ];
    let commit = LogItemView {
        tid,
        kind: WalLogKind::Commit,
        action_id: (first + 1 + done_count(outcomes)) as u64,
        value: None,
    };
    let tx = transaction_records(outcomes, tid, first);
    lemma_update_records(outcomes, tid, first + 1);
    lemma_update_redone(content, built, features, event, tid, first + 1);
    assert forall|i: int| 0 <= i < tx.len() implies (#[trigger] tx[i]).tid == tid && (i < tx.len() - 1
        ==> tx[i].kind != WalLogKind::Commit) by {
        if 1 <= i < tx.len() - 1 {
            assert(tx[i] == records[i - 1]);
        }
    }
    assert(tx[tx.len() - 1] == commit);
    assert(crate::store::recover::committed(tx, tid));
    crate::store::recover::lemma_replay_transaction(log, tx, tid);
    assert(redo_all(content, tx) == after) by {
        assert(tx.drop_last() =~= begin + records);
        crate::store::recover::lemma_redo_all_append(content, begin, records);
        reveal_with_fuel(redo_all, 2);
        assert(begin.drop_last() =~= Seq::<LogItemView>::empty());
        assert(redo_all(content, begin) == content);
    }
    let torn = tx.take(cut);
    assert forall|i: int| 0 <= i < torn.len() implies (#[trigger] torn[i]).tid == tid
        && torn[i].kind != WalLogKind::Commit by {
        assert(torn[i] == tx[i]);
    }
    crate::store::recover::lemma_replay_torn(log, torn, tid);
}

/// The result of each feature, by the feature's id: `base`, then for each
/// key of `built` what came of the update of its feature.
pub open spec fn apply_results(
    base: Map<u64, (bool, Seq<char>)>,
    built: Seq<(Seq<char>, int)>,
    features: Seq<Feature>,
    outcomes: Seq<Outcome>,
) -> Map<u64, (bool, Seq<char>)>
    decreases built.len(),
{
    if built.len() == 0 {
        base
    } else {
        apply_results(base, built.drop_last(), features, outcomes.drop_last()).insert(
            features[built.last().1].id,
            outcome_view(outcomes.last()),
        )
    }
}

/// The datasets by their id; of two with one id the later counts.
pub open spec fn datasets_map(datasets: Seq<DataSet>) -> Map<i64, DataSet>
    decreases datasets.len(),
{
    if datasets.len() == 0 {
        Map::empty()
    } else {
        datasets_map(datasets.drop_last()).insert(datasets.last().id, datasets.last())
    }
}

/// A node: the datasets by their id, the store, and the write-ahead log.
pub struct Node {
    config: Config,
    datasets: HashMap<i64, DataSet>,
    wal: Wal,
    store: Store,
}

impl Node {
    pub closed spec fn spec_data_dir(&self) -> Seq<char> {
        self.config.data_dir@
    }

    /// The datasets by their id.
    pub closed spec fn datasets(&self) -> Map<i64, DataSet> {
        self.datasets@
    }

    pub closed spec fn spec_wal(&self) -> Wal {
        self.wal
    }

    pub closed spec fn spec_store(&self) -> Store {
        self.store
    }

    /// The store and the log are well formed.
    pub open spec fn wf(&self) -> bool {
        self.spec_store().wf() && self.spec_wal().wf()
    }

    pub fn config(&self) -> (config: &Config)
        ensures
            config.data_dir@ == self.spec_data_dir(),
    {
        &self.config
    }

    pub fn store(&self) -> (store: &Store)
        ensures
            *store == self.spec_store(),
    {
        &self.store
    }

    pub fn wal(&self) -> (wal: &Wal)
        ensures
            *wal == self.spec_wal(),
    {
        &self.wal
    }

    /// Whether `after` is `before` but for the store and the log.
    pub open spec fn same_setup(before: Node, after: Node) -> bool {
        &&& after.spec_data_dir() == before.spec_data_dir()
        &&& after.datasets() == before.datasets()
        &&& after.spec_store().spec_data_dir() == before.spec_store().spec_data_dir()
    }

    /// Whether nothing has changed from `before` to `after` in the store
    /// and in the log.
    pub open spec fn untouched(before: Node, after: Node) -> bool {
        &&& after.spec_store() == before.spec_store()
        &&& after.spec_wal().sent() == before.spec_wal().sent()
        &&& after.spec_wal().ids() == before.spec_wal().ids()
        &&& Wal::same_writer(before.spec_wal(), after.spec_wal())
    }

    /// Whether the node `after` and the result `result` are what the update
    /// of the features of `ds` by `event` makes of the node `before`.
    pub open spec fn updated(
        before: Node,
        after: Node,
        ds: DataSet,
        event: &Event,
        result: DsUpdateResult,
    ) -> bool {
        let built = built_keys(ds.features@, event, ds.column_type_map@);
        let (content, outcomes) = apply_keys(before.spec_store()@, built, ds.features@, event);
        let tid = before.spec_wal().ids().next_tid;
        let first = before.spec_wal().ids().next_action_id;
        let done = done_count(outcomes);
        &&& after.spec_store()@ == content
        &&& after.spec_wal().sent() == before.spec_wal().sent() + transaction_records(
            outcomes,
            tid,
            first as int,
        )
        &&& after.spec_wal().ids() == (IdSource {
            next_tid: crate::store::wal::next_id(tid),
            next_action_id: (first + 2 + done) as u64,
        })
        &&& Wal::same_writer(before.spec_wal(), after.spec_wal())
        &&& marks_queued(before.spec_store(), after.spec_store(), first, built, outcomes)
        &&& after.spec_store()@ == redo_all(
            before.spec_store()@,
            update_records(outcomes, tid, first + 1),
        )
        &&& result.id == ds.id
        &&& result.commit_action_id == first + 1 + done
        &&& result_views(result.feature_result_map@) == apply_results(
            key_failures(ds.features@, event, ds.column_type_map@),
            built,
            ds.features@,
            outcomes,
        )
    }

    /// Whether the node `after` and the result `r` are what `update` with
    /// `event` makes of the node `before`.
    pub open spec fn update_done(
        before: Node,
        after: Node,
        event: &Event,
        r: CustomResult<DsUpdateResult>,
    ) -> bool {
        match spec_value_as_int(event, KEY_DS@) {
            Read::Failed(code, message) => {
                &&& r is Err
                &&& r->Err_0.code == code
                &&& r->Err_0.message@ == message
                &&& Self::untouched(before, after)
            },
            Read::Value(ds_id) => if !before.datasets().contains_key(ds_id) {
                &&& r is Err
                &&& r->Err_0.code == GENERIC_CODE
                &&& r->Err_0.message@ == no_dataset_message()
                &&& Self::untouched(before, after)
            } else if before.spec_wal().ids().next_action_id + before.datasets()[ds_id].features@.len()
                + 2 > u64::MAX {
                &&& r is Err
                &&& r->Err_0.code == GENERIC_CODE
                &&& r->Err_0.message@ == no_action_id_message()
                &&& Self::untouched(before, after)
            } else {
                r is Ok && Self::updated(before, after, before.datasets()[ds_id], event, r->Ok_0)
            },
        }
    }

    /// Updates the features of the event's dataset.
    ///
    /// The event names its dataset under `ds`. A transaction begins. The key
    /// of each feature is built; a feature whose key cannot be built has
    /// failed. Each other feature is updated in the page whose range holds
    /// the hash of its key, in the order of the features; where that is
    /// done, the page is marked as changed by the action that began the
    /// transaction, and the record of the update is sent to the log. A
    /// feature that fails does not keep the others from being updated. The
    /// transaction commits; the result names the action of the record that
    /// commits it.
    ///
    /// Fails, and changes nothing, where the event names no dataset that
    /// the node has, or where the log has too few action ids left.
    #[verifier::rlimit(60)]
    pub fn update(&mut self, event: &Event) -> (r: CustomResult<DsUpdateResult>)
        requires
            old(self).wf(),
        ensures
            final(self).wf(),
            Self::same_setup(*old(self), *final(self)),
            Self::update_done(*old(self), *final(self), event, r),
    {
        let ds_value = match get_value_as_int(event, KEY_DS) {
            Ok(id) => id,
            Err(e) => {
                return Err(e);
            },
        };
        let ds = match self.datasets.get(&ds_value) {
            Some(ds) => ds,
            None => {
                return Err(common_err(String::from_str("the node has no such dataset")));
            },
        };
        let n = ds.features.len();
        if n as u64 > u64::MAX - 2 || !self.wal.room_for(n as u64 + 2) {
            return Err(common_err(String::from_str("no action id is left")));
        }
        let ghost start_store = self.store;
        let ghost start_sent = self.wal.sent();
        let ghost first = self.wal.ids().next_action_id;
        let tid = self.wal.generate_tid();
        let action_id = match self.wal.send_begin_log(tid) {
            Ok(action_id) => action_id,
            Err(e) => {
                return Err(e);
            },
        };
        let (keys, failures) = build_feature_keys(event, ds);
        let mut result_map = failures;
        let ghost built = built_keys(ds.features@, event, ds.column_type_map@);
        let ghost base = key_failures(ds.features@, event, ds.column_type_map@);
        let ghost begin = LogItemView {
            tid,
            kind: WalLogKind::Begin,
            action_id: first,
            value: None,
        };
        let ghost mut outcomes: Seq<Outcome> = Seq::empty();
        let m = keys.len();
        let mut j: usize = 0;
        proof {
            assert(built.take(0) =~= Seq::empty());
            assert(start_sent.push(begin) + update_records(outcomes, tid, first + 1)
                =~= start_sent.push(begin));
            assert(built.len() <= n) by {
                lemma_built_len(ds.features@, event, ds.column_type_map@);
            }
            lemma_marks_begin(start_store, first);
        }
        while j < m
            invariant
                m == keys@.len(),
                j <= m,
                m <= n,
                n == ds.features@.len(),
                first + n + 2 <= u64::MAX,
                built == key_views(keys@),
                forall|t: int| 0 <= t < keys@.len() ==> (#[trigger] keys@[t]).1 < ds.features@.len(),
                self.store.wf(),
                self.wal.wf(),
                self.store.spec_data_dir() == old(self).store.spec_data_dir(),
                self.config == old(self).config,
                self.datasets == old(self).datasets,
                outcomes.len() == j,
                done_count(outcomes) <= j,
                apply_keys(start_store@, built.take(j as int), ds.features@, event) == (
                    self.store@,
                    outcomes,
                ),
                self.wal.sent() == start_sent.push(begin) + update_records(outcomes, tid, first + 1),
                self.wal.ids() == (IdSource {
                    next_tid: crate::store::wal::next_id(tid),
                    next_action_id: (first + 1 + done_count(outcomes)) as u64,
                }),
                Wal::same_writer(old(self).wal, self.wal),
                result_views(result_map@) == apply_results(
                    base,
                    built.take(j as int),
                    ds.features@,
                    outcomes,
                ),
                action_id == first,
                start_store.wf(),
                marks_queued(start_store, self.store, first, built.take(j as int), outcomes),
            decreases m - j,
        {
            let key = &keys[j].0;
            let feature = &ds.features[keys[j].1];
            let ghost held = result_map@;
            let ghost sent = self.wal.sent();
            let ghost content = self.store@;
            let ghost before_step = self.store;
            let ghost step = feature_step(content, *feature, event, key@);
            proof {
                assert(built.take(j + 1).drop_last() =~= built.take(j as int));
                assert(built.take(j + 1).last() == built[j as int]);
                assert(built[j as int] == (key@, keys@[j as int].1 as int));
            }
            let (applied, place) = if key.as_str().as_bytes().len() > u16::MAX as usize {
                (Err(common_err(String::from_str("the feature key is too long"))), Ghost(0))
            } else {
                apply_feature(&mut self.store, feature, event, key, action_id)
            };
            let ghost slot_of_key = spec_slot_id(spec_calc_hash(key@)) as int;
            proof {
                assert(built.take(j + 1) =~= built.take(j as int).push(built[j as int]));
            }
            match applied {
                Ok(record) => {
                    let ghost view = record@;
                    let _ = self.wal.send_feature_update_log(tid, record);
                    result_map.insert(feature.id, FeatureUpdateResult::succeeded());
                    proof {
                        assert(step.1 == Outcome::Done(view));
                        let next = outcomes.push(step.1);
                        assert(next.drop_last() =~= outcomes);
                        assert(self.wal.sent() =~= start_sent.push(begin) + update_records(
                            next,
                            tid,
                            first + 1,
                        ));
                        assert(result_views(result_map@) =~= result_views(held).insert(
                            feature.id,
                            (true, Seq::empty()),
                        ));
                        lemma_marks_done(
                            start_store,
                            before_step,
                            self.store,
                            slot_of_key,
                            place@,
                            first,
                            built.take(j as int),
                            outcomes,
                            built[j as int],
                            step.1,
                        );
                        outcomes = next;
                    }
                },
                Err(e) => {
                    result_map.insert(feature.id, FeatureUpdateResult::failed(e.to_string()));
                    proof {
                        assert(step.1 is Failed);
                        let next = outcomes.push(step.1);
                        assert(next.drop_last() =~= outcomes);
                        assert(result_views(result_map@) =~= result_views(held).insert(
                            feature.id,
                            outcome_view(step.1),
                        ));
                        lemma_marks_failed(
                            start_store,
                            before_step,
                            self.store,
                            slot_of_key,
                            place@,
                            first,
                            built.take(j as int),
                            outcomes,
                            built[j as int],
                            step.1,
                        );
                        outcomes = next;
                    }
                },
            }
            j = j + 1;
        }
        let commit_action_id = match self.wal.commit_log(tid) {
            Ok(action_id) => action_id,
            Err(e) => {
                return Err(e);
            },
        };
        proof {
            assert(built.take(m as int) =~= built);
            lemma_update_redone(start_store@, built, ds.features@, event, tid, first + 1);
            assert(self.wal.sent() =~= start_sent + transaction_records(
                outcomes,
                tid,
                first as int,
            ));
        }
        Ok(DsUpdateResult { id: ds.id, feature_result_map: result_map, commit_action_id })
    }

    /// Writes out what has changed in the store, as `Store::check_point`
    /// does. What the store holds stays as it is.
    pub fn check_point(&mut self, writes: &mut Vec<FileWrite>) -> (r: CustomResult<()>)
        requires
            old(self).wf(),
        ensures
            final(self).wf(),
            Self::same_setup(*old(self), *final(self)),
            final(self).spec_store()@ == old(self).spec_store()@,
            old(self).spec_wal().sent().is_prefix_of(final(self).spec_wal().sent()),
            final(self).spec_wal().written_count() == old(self).spec_wal().written_count(),
            final(self).spec_wal().state() == old(self).spec_wal().state(),
            write_views(old(writes)@).is_prefix_of(write_views(final(writes)@)),
            r matches Err(e) ==> e.code == GENERIC_CODE,
            Store::checkpointed(
                old(self).spec_store(),
                final(self).spec_store(),
                old(self).spec_wal(),
                final(self).spec_wal(),
                old(writes)@,
                final(writes)@,
                r,
            ),
    {
        let r = self.store.check_point(&mut self.wal, writes);
        proof {
            assert(self.store@ =~= old(self).store@);
        }
        r
    }

    /// One step of the writer of the log, as `Wal::write_next` does it: the
    /// record that waits longest and belongs to no transaction that was
    /// given up is appended to `out` and returned.
    pub fn write_next(&mut self, out: &mut BytesMut) -> (r: Option<WalLogItem>)
        requires
            old(self).wf(),
        ensures
            final(self).wf(),
            Self::same_setup(*old(self), *final(self)),
            final(self).spec_store() == old(self).spec_store(),
            final(self).spec_wal().sent() == old(self).spec_wal().sent(),
            final(self).spec_wal().ids() == old(self).spec_wal().ids(),
            final(self).spec_wal().state() == old(self).spec_wal().state(),
            final(self).spec_wal().log() == old(self).spec_wal().log(),
            ({
                let wal = old(self).spec_wal();
                let lost = if wal.in_flight() is Some {
                    wal.lost().insert(wal.sent()[wal.handed_count() - 1].tid)
                } else {
                    wal.lost()
                };
                let spoken = if wal.in_flight() is Some {
                    wal.counted().push(false)
                } else {
                    wal.counted()
                };
                let dropped = given_up_run(wal.waiting(), wal.given_up());
                &&& final(self).spec_wal().lost() == lost
                &&& final(self).spec_wal().given_up() == wal.given_up()
                &&& final(self).spec_wal().counted() == spoken + Seq::new(dropped, |i: int| false)
                &&& match r {
                    Some(item) => {
                        &&& wal.handed_count() + dropped < wal.sent().len()
                        &&& item@ == wal.sent()[(wal.handed_count() + dropped) as int]
                        &&& final(self).spec_wal().handed_count() == wal.handed_count() + dropped + 1
                        &&& final(self).spec_wal().in_flight() == Some(item.action_id)
                        &&& written(*final(out)) == written(*old(out)) + item@.spec_encode()
                    },
                    None => {
                        &&& wal.handed_count() + dropped == wal.sent().len()
                        &&& final(self).spec_wal().handed_count() == wal.sent().len()
                        &&& final(self).spec_wal().in_flight() is None
                        &&& written(*final(out)) == written(*old(out))
                    },
                }
            }),
    {
        self.wal.write_next(out)
    }

    /// The writer says that the record of action `action_id` is written and
    /// safe, as with `Wal::record_written`.
    pub fn record_written(&mut self, action_id: u64) -> (counted: bool)
        requires
            old(self).wf(),
        ensures
            final(self).wf(),
            Self::same_setup(*old(self), *final(self)),
            final(self).spec_store() == old(self).spec_store(),
            final(self).spec_wal().sent() == old(self).spec_wal().sent(),
            final(self).spec_wal().ids() == old(self).spec_wal().ids(),
            final(self).spec_wal().handed_count() == old(self).spec_wal().handed_count(),
            final(self).spec_wal().lost() == old(self).spec_wal().lost(),
            final(self).spec_wal().given_up() == old(self).spec_wal().given_up(),
            if old(self).spec_wal().in_flight() == Some(action_id) {
                let wal = old(self).spec_wal();
                let record = wal.sent()[wal.handed_count() - 1];
                &&& final(self).spec_wal().in_flight() is None
                &&& counted == !wal.lost().contains(record.tid)
                &&& final(self).spec_wal().counted() == wal.counted().push(counted)
                &&& if counted {
                    &&& final(self).spec_wal().log() == wal.log().push(record)
                    &&& final(self).spec_wal().state().stored_num == action_id
                } else {
                    &&& final(self).spec_wal().log() == wal.log()
                    &&& final(self).spec_wal().state() == wal.state()
                }
            } else {
                !counted && Wal::same_writer(old(self).spec_wal(), final(self).spec_wal())
            },
    {
        self.wal.record_written(action_id)
    }

    /// Lays the pages of slot `slot_id` out as the bytes `index` of the
    /// index of its pages tell, as `Store::restore_layout` does. What the
    /// store holds stays as it is.
    pub fn restore_layout(&mut self, slot_id: u16, index: &[u8]) -> (done: bool)
        requires
            old(self).wf(),
        ensures
            final(self).wf(),
            Self::same_setup(*old(self), *final(self)),
            final(self).spec_wal() == old(self).spec_wal(),
            final(self).spec_store()@ == old(self).spec_store()@,
            Store::layout_restored(
                old(self).spec_store(),
                final(self).spec_store(),
                slot_id as int,
                index@,
                done,
            ),
    {
        self.store.restore_layout(slot_id, index)
    }

    /// Whether the node `after` is what the failure of the write `write`
    /// makes of the node `before`: the transaction that made the write is
    /// given up, so that the log does not commit it, and what it was to write
    /// out is marked as changed again by the action at the place of the
    /// write. What the store holds stays as it is.
    pub open spec fn write_undone(before: Node, after: Node, write: FileWriteView) -> bool {
        let wal = before.spec_wal();
        &&& after.spec_store()@ == before.spec_store()@
        &&& after.spec_wal().sent() == wal.sent()
        &&& after.spec_wal().ids() == wal.ids()
        &&& after.spec_wal().counted() == wal.counted()
        &&& after.spec_wal().log() == wal.log()
        &&& after.spec_wal().handed_count() == wal.handed_count()
        &&& after.spec_wal().in_flight() == wal.in_flight()
        &&& after.spec_wal().state() == wal.state()
        &&& after.spec_wal().lost() == wal.lost().insert(write.flush.tid)
        &&& after.spec_wal().given_up() == wal.given_up().insert(write.flush.tid)
        &&& match write.flush.told {
            Shadowed::Page(told) => Store::requeued(
                before.spec_store(),
                after.spec_store(),
                told.slot_id as int,
                told.min_pk,
                told.max_pk,
                write.log_position,
            ),
            Shadowed::Index(told) => Store::index_requeued(
                before.spec_store(),
                after.spec_store(),
                told.slot_id as int,
                write.log_position,
            ),
        }
    }

    /// Whether the write `write` of a checkpoint is still to be made: it is
    /// not where its transaction was given up, as behind a write of the
    /// transaction that has failed.
    pub fn may_write(&self, write: &FileWrite) -> (b: bool)
        ensures
            b == !self.spec_wal().given_up().contains(write@.flush.tid),
    {
        !self.wal.is_given_up(write.flush.tid)
    }

    /// Takes note that the write `write` of a checkpoint has failed, or was
    /// left out behind one of its transaction that has failed.
    ///
    /// The transaction is given up: its records that wait are not written,
    /// so that the log does not commit it. The pages that it was to write
    /// out, or the index of the pages, are marked as changed again, and the
    /// next checkpoint writes them out.
    pub fn write_failed(&mut self, write: &FileWrite)
        requires
            old(self).wf(),
        ensures
            final(self).wf(),
            Self::same_setup(*old(self), *final(self)),
            Self::write_undone(*old(self), *final(self), write@),
    {
        self.wal.abandon(write.flush.tid);
        match write.flush.told {
            Shadowed::Page(told) => {
                self.store.requeue(told.slot_id, told.min_pk, told.max_pk, write.log_position);
            },
            Shadowed::Index(told) => {
                self.store.requeue_index(told.slot_id, write.log_position);
            },
        }
    }

    /// The writer says that the record of action `action_id` is lost, as
    /// with `Wal::record_lost`.
    pub fn record_lost(&mut self, action_id: u64)
        requires
            old(self).wf(),
        ensures
            final(self).wf(),
            Self::same_setup(*old(self), *final(self)),
            final(self).spec_store() == old(self).spec_store(),
            final(self).spec_wal().sent() == old(self).spec_wal().sent(),
            final(self).spec_wal().ids() == old(self).spec_wal().ids(),
            final(self).spec_wal().handed_count() == old(self).spec_wal().handed_count(),
            final(self).spec_wal().log() == old(self).spec_wal().log(),
            final(self).spec_wal().state() == old(self).spec_wal().state(),
            final(self).spec_wal().given_up() == old(self).spec_wal().given_up(),
            if old(self).spec_wal().in_flight() == Some(action_id) {
                let wal = old(self).spec_wal();
                &&& final(self).spec_wal().in_flight() is None
                &&& final(self).spec_wal().counted() == wal.counted().push(false)
                &&& final(self).spec_wal().lost() == wal.lost().insert(
                    wal.sent()[wal.handed_count() - 1].tid,
                )
            } else {
                Wal::same_writer(old(self).spec_wal(), final(self).spec_wal())
            },
    {
        self.wal.record_lost(action_id)
    }
}

/// No more keys are built than there are features.
pub proof fn lemma_built_len(
    features: Seq<Feature>,
    event: &Event,
    column_type_map: Seq<(String, ColumnType)>,
)
    ensures
        built_keys(features, event, column_type_map).len() <= features.len(),
    decreases features.len(),
{
    if features.len() > 0 {
        lemma_built_len(features.drop_last(), event, column_type_map);
    }
}

/// Makes a node in the directory of `config` with the datasets `ds_vec`,
/// from the bytes `log` of its write-ahead log.
///
/// The store is brought back as `Store::new` does. The log hands out the
/// ids behind those of the records that were read. Fails where the bytes
/// begin with a bad record.
pub fn create_and_init(config: Config, ds_vec: Vec<DataSet>, log: &[u8]) -> (r: CustomResult<Node>)
    ensures
        match r {
            Ok(node) => {
                &&& node.wf()
                &&& node.spec_data_dir() == config.data_dir@
                &&& node.datasets() == datasets_map(ds_vec@)
                &&& recovered(node.spec_store(), config.data_dir@, log@)
                &&& node.spec_wal().sent() == Seq::<LogItemView>::empty()
                &&& node.spec_wal().written_count() == 0
                &&& node.spec_wal().handed_count() == 0
                &&& node.spec_wal().in_flight() is None
                &&& node.spec_wal().counted() == Seq::<bool>::empty()
                &&& node.spec_wal().lost() == Set::<u64>::empty()
                &&& node.spec_wal().given_up() == Set::<u64>::empty()
                &&& node.spec_wal().ids() == crate::store::recover::spec_recovered_ids(
                    crate::store::recover::parse_log(log@),
                )
            },
            Err(e) => e.code == GENERIC_CODE && crate::store::recover::log_bad_at_start(log@),
        },
{
    let store = match Store::new(config.data_dir.clone(), log) {
        Ok(store) => store,
        Err(e) => {
            return Err(e);
        },
    };
    let ids = match read_log(log) {
        Ok(items) => recovered_ids(&items),
        Err(e) => {
            return Err(e);
        },
    };
    let mut datasets: HashMap<i64, DataSet> = HashMap::new();
    let mut rest = ds_vec;
    let ghost all = rest@;
    let ghost mut taken: int = 0;
    proof {
        assert(all.take(0) =~= Seq::empty());
        assert(all.skip(0) =~= all);
    }
    while rest.len() > 0
        invariant
            0 <= taken <= all.len(),
            rest@ == all.skip(taken),
            datasets@ == datasets_map(all.take(taken)),
        decreases rest@.len(),
    {
        let ds = rest.remove(0);
        proof {
            assert(all.take(taken + 1).drop_last() =~= all.take(taken));
            assert(all.take(taken + 1).last() == ds);
            assert(all.skip(taken).remove(0) =~= all.skip(taken + 1));
            taken = taken + 1;
        }
        datasets.insert(ds.id, ds);
    }
    proof {
        assert(all.take(taken) =~= all);
    }
    Ok(Node { config, datasets, wal: Wal::new(ids), store })
}

} // verus!
