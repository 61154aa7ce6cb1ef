//! Making good what a crash has cut off in a checkpoint: what went to a
//! shadow file and was told to the log goes to its place again.
use crate::store::flush::{
    index_path, index_write, page_store_file, page_write, spec_index_path, FileWrite,
    FileWriteView, Flush,
};
use crate::store::page::Page;
use crate::store::recover::{committed, committed_tids};
use crate::store::slot::PAGE_SIZE;
use crate::store::wal::{
    item_views, LogItemView, LogValueView, Shadowed, WalLogItem, WalLogValue, WalPageBkStoreValue,
    WalPageIndexStoreValue,
};
use crate::store::wire::{cursor_rest, new_buffer, new_cursor, put_slice, Parsed};
use vstd::prelude::*;

verus! {

/// What the record `item` tells was put into a shadow file, if it tells of
/// any.
pub open spec fn shadowed(item: LogItemView) -> Option<Shadowed> {
    match item.value {
        Some(LogValueView::PageBkStore(told)) => Some(Shadowed::Page(told)),
        Some(LogValueView::PageIndexStore(told)) => Some(Shadowed::Index(told)),
        _ => None,
    }
}

/// The transactions with what the records among `items` tell was put into
/// shadow files, in the order of the records, that `all` does not commit.
pub open spec fn unfinished(items: Seq<LogItemView>, all: Seq<LogItemView>) -> Seq<Flush>
    decreases items.len(),
{
    if items.len() == 0 {
        Seq::empty()
    } else {
        let before = unfinished(items.drop_last(), all);
        match shadowed(items.last()) {
            Some(told) => if committed(all, items.last().tid) {
                before
            } else {
                before.push(Flush { tid: items.last().tid, told })
            },
            None => before,
        }
    }
}

/// What the records `items` of a log tell was put into shadow files by
/// transactions that the log does not commit, in the order of the records.
/// Such a transaction was cut off before or while it wrote to the place
/// itself.
pub fn unfinished_flushes(items: &Vec<WalLogItem>) -> (r: Vec<Flush>)
    ensures
        r@ == unfinished(item_views(items@), item_views(items@)),
{
    let tids = committed_tids(items);
    let mut found: Vec<Flush> = Vec::new();
    let n = items.len();
    let mut k: usize = 0;
    let ghost views = item_views(items@);
    proof {
        assert(views.take(0) =~= Seq::empty());
    }
    while k < n
        invariant
            n == items@.len(),
            k <= n,
            views == item_views(items@),
            tids.wf(),
            forall|tid: u64| #[trigger] tids@.contains_key(tid) == committed(views, tid),
            found@ == unfinished(views.take(k as int), views),
        decreases n - k,
    {
        let item = &items[k];
        proof {
            assert(views.take(k + 1).drop_last() =~= views.take(k as int));
            assert(views.take(k + 1).last() == item@);
        }
        match &item.value {
            Some(WalLogValue::PageBkStore(told)) => {
                if !tids.contains_key(item.tid) {
                    found.push(Flush { tid: item.tid, told: Shadowed::Page(*told) });
                }
            },
            Some(WalLogValue::PageIndexStore(told)) => {
                if !tids.contains_key(item.tid) {
                    found.push(Flush { tid: item.tid, told: Shadowed::Index(*told) });
                }
            },
            _ => {},
        }
        k = k + 1;
    }
    proof {
        assert(views.take(n as int) =~= views);
    }
    found
}

/// The slots whose index of pages the records among `items` tell was
/// written out, in the order of the records, by transactions that `all`
/// commits.
pub open spec fn stored_indexes(items: Seq<LogItemView>, all: Seq<LogItemView>) -> Seq<u16>
    decreases items.len(),
{
    if items.len() == 0 {
        Seq::empty()
    } else {
        let before = stored_indexes(items.drop_last(), all);
        match items.last().value {
            Some(LogValueView::PageIndexStore(told)) => if committed(all, items.last().tid) {
                before.push(told.slot_id)
            } else {
                before
            },
            _ => before,
        }
    }
}

/// The slots whose index of pages the records `items` of a log tell was
/// written out by transactions that the log commits, in the order of the
/// records. The index file of such a slot tells how its pages lay.
pub fn finished_indexes(items: &Vec<WalLogItem>) -> (r: Vec<u16>)
    ensures
        r@ == stored_indexes(item_views(items@), item_views(items@)),
{
    let tids = committed_tids(items);
    let mut found: Vec<u16> = Vec::new();
    let n = items.len();
    let mut k: usize = 0;
    let ghost views = item_views(items@);
    proof {
        assert(views.take(0) =~= Seq::empty());
    }
    while k < n
        invariant
            n == items@.len(),
            k <= n,
            views == item_views(items@),
            tids.wf(),
            forall|tid: u64| #[trigger] tids@.contains_key(tid) == committed(views, tid),
            found@ == stored_indexes(views.take(k as int), views),
        decreases n - k,
    {
        let item = &items[k];
        proof {
            assert(views.take(k + 1).drop_last() =~= views.take(k as int));
            assert(views.take(k + 1).last() == item@);
        }
        match &item.value {
            Some(WalLogValue::PageIndexStore(told)) => {
                if tids.contains_key(item.tid) {
                    found.push(told.slot_id);
                }
            },
            _ => {},
        }
        k = k + 1;
    }
    proof {
        assert(views.take(n as int) =~= views);
    }
    found
}

/// The write that puts the page of the shadow file in its place in the page
/// file: there is one where the bytes `shadow` of the shadow file are the
/// page that the record `told` tells of, and are fewer than a place in a
/// page file takes.
pub open spec fn spec_page_repair(
    dir: Seq<char>,
    tid: u64,
    told: WalPageBkStoreValue,
    shadow: Seq<u8>,
) -> Option<FileWriteView> {
    match Page::spec_decode(shadow) {
        Parsed::Done(page, _) => if shadow.len() < PAGE_SIZE && page.slot_id == told.slot_id
            && page.id == told.page_id && page.min_pk == told.min_pk && page.max_pk
            == told.max_pk {
            Some(
                page_write(
                    dir,
                    told.slot_id,
                    told.page_id,
                    shadow,
                    0,
                    Flush { tid, told: Shadowed::Page(told) },
                ),
            )
        } else {
            None
        },
        _ => None,
    }
}

/// The write that puts the page of the shadow file in its place in the page
/// file again, where the bytes `shadow` of the shadow file are the page that
/// the record `told` of transaction `tid` tells of. The write comes before
/// every record that the log takes from then on.
///
/// There is none where the bytes are another page or no page, or a page
/// that was to be split.
pub fn page_repair(data_dir: &String, tid: u64, told: &WalPageBkStoreValue, shadow: &[u8]) -> (r:
    Option<FileWrite>)
    ensures
        match spec_page_repair(data_dir@, tid, *told, shadow@) {
            Some(write) => r matches Some(made) && made@ == write,
            None => r is None,
        },
{
    if shadow.len() >= PAGE_SIZE as usize {
        return None;
    }
    let mut cursor = new_cursor(shadow);
    proof {
        assert(cursor_rest(cursor) =~= shadow@);
    }
    let page = match Page::decode(&mut cursor) {
        Ok(page) => page,
        Err(_) => {
            return None;
        },
    };
    if page.slot_id() != told.slot_id || page.id() != told.page_id || page.min_pk() != told.min_pk
        || page.max_pk() != told.max_pk {
        return None;
    }
    let mut bytes = new_buffer();
    put_slice(&mut bytes, shadow);
    let (path, seek_pos) = page_store_file(data_dir, told.slot_id, told.page_id);
    proof {
        assert(Seq::<u8>::empty() + shadow@ =~= shadow@);
    }
    Some(
        FileWrite {
            path,
            seek_pos,
            truncate: false,
            bytes,
            log_position: 0,
            flush: Flush { tid, told: Shadowed::Page(*told) },
        },
    )
}

/// The write that puts the index of the shadow file in the index file:
/// there is one where the bytes `shadow` are whole pairs of a lower bound
/// and a page id, and at least one.
pub open spec fn spec_index_repair(
    dir: Seq<char>,
    tid: u64,
    told: WalPageIndexStoreValue,
    shadow: Seq<u8>,
) -> Option<FileWriteView> {
    if shadow.len() > 0 && shadow.len() % 16 == 0 {
        Some(
            index_write(
                spec_index_path(dir, told.slot_id),
                shadow,
                0,
                Flush { tid, told: Shadowed::Index(told) },
            ),
        )
    } else {
        None
    }
}

/// The write that puts the index of the shadow file in the index file
/// again, where the bytes `shadow` of the shadow file are an index. The
/// write comes before every record that the log takes from then on.
pub fn index_repair(data_dir: &String, tid: u64, told: &WalPageIndexStoreValue, shadow: &[u8]) -> (r:
    Option<FileWrite>)
    ensures
        match spec_index_repair(data_dir@, tid, *told, shadow@) {
            Some(write) => r matches Some(made) && made@ == write,
            None => r is None,
        },
{
    if shadow.len() == 0 || shadow.len() % 16 != 0 {
        return None;
    }
    let mut bytes = new_buffer();
    put_slice(&mut bytes, shadow);
    let path = index_path(data_dir, told.slot_id);
    proof {
        assert(Seq::<u8>::empty() + shadow@ =~= shadow@);
    }
    Some(
        FileWrite {
            path,
            seek_pos: 0,
            truncate: true,
            bytes,
            log_position: 0,
            flush: Flush { tid, told: Shadowed::Index(*told) },
        },
    )
}

} // verus!
