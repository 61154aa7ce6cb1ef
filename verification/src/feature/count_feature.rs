//! Counting the events of each window of time.
use crate::custom_error::{
    column_not_found_in_ds_err, column_not_found_message, common_err, CustomResult,
    COLUMN_NOT_IN_DATA_SET_CODE, GENERIC_CODE,
};
use crate::ds::column::{
    get_value_as_u64, get_value_to_str, is_read_text, spec_value_as_u64, spec_value_to_str,
    ColumnType, Read,
};
use crate::ds::event::Event;
use crate::store::page::{Page, PageView};
use crate::store::wal::WalFeatureUpdateValue;
use crate::tools::builder::{append, builder_bytes, new_builder, string};
use crate::tools::decimal::{decimal, u64_to_string};
use crate::tools::named::{first_named, position};
use crate::tools::text::{lemma_encode_concat, lemma_string_bytes, utf8_err};
use crate::WindowUnit;
use vstd::prelude::*;
use vstd::string::StringExecFns;
use vstd::utf8::encode_utf8;

verus! {

/// The count of the events in each window of time, for each group of
/// events.
#[derive(Debug)]
pub struct CountFeatureTemplate {
    /// The columns by which the events are grouped.
    pub group_keys: Vec<String>,
    /// The column that holds the time of an event.
    pub time_key: String,
    pub window_unit: WindowUnit,
    /// The length of a window, in units.
    pub window_size: u64,
}

/// What `event` has in the columns `group_keys`, one after the other, each
/// written as its column's type says.
pub open spec fn spec_group_text(
    group_keys: Seq<String>,
    event: &Event,
    column_type_map: Seq<(String, ColumnType)>,
) -> Read<Seq<char>>
    decreases group_keys.len(),
{
    if group_keys.len() == 0 {
        Read::Value(Seq::empty())
    } else {
        match spec_group_text(group_keys.drop_last(), event, column_type_map) {
            Read::Failed(code, message) => Read::Failed(code, message),
            Read::Value(text) => match first_named(column_type_map, group_keys.last()@) {
                None => Read::Failed(
                    COLUMN_NOT_IN_DATA_SET_CODE,
                    column_not_found_message(group_keys.last()@),
                ),
                Some(i) => match spec_value_to_str(
                    event,
                    group_keys.last()@,
                    column_type_map[i].1,
                ) {
                    Read::Failed(code, message) => Read::Failed(code, message),
                    Read::Value(piece) => Read::Value(text + piece),
                },
            },
        }
    }
}

impl CountFeatureTemplate {
    /// The key under which the feature `feature_id` is kept for `event`.
    pub open spec fn spec_build_key(
        &self,
        event: &Event,
        feature_id: u64,
        column_type_map: Seq<(String, ColumnType)>,
    ) -> Read<Seq<char>> {
        match spec_group_text(self.group_keys@, event, column_type_map) {
            Read::Failed(code, message) => Read::Failed(code, message),
            Read::Value(text) => Read::Value(text + decimal(feature_id as nat)),
        }
    }

    /// What the error says where the window has no length in milliseconds
    /// that fits in 64 bits and is not zero.
    pub open spec fn spec_window_message(&self) -> Seq<char> {
        if self.window_size * self.window_unit.unit_millis() > u64::MAX {
            "the window is too long"@
        } else {
            "the window has no length"@
        }
    }

    /// The length of a window in milliseconds, where it fits in 64 bits and
    /// is not zero.
    pub open spec fn spec_window(&self) -> Option<u64> {
        let ms = self.window_size * self.window_unit.unit_millis();
        if 0 < ms <= u64::MAX {
            Some(ms as u64)
        } else {
            None
        }
    }

    /// The key under which the feature `feature_id` is kept for `event`:
    /// what the event has in the columns by which the feature groups, in
    /// their order, then the feature's id.
    ///
    /// Fails at the first of these columns that the dataset does not have,
    /// that the event does not have, or whose value is not of the column's
    /// type.
    pub fn build_key(
        &self,
        event: &Event,
        feature_id: u64,
        column_type_map: &Vec<(String, ColumnType)>,
    ) -> (r: CustomResult<String>)
        ensures
            is_read_text(r, self.spec_build_key(event, feature_id, column_type_map@)),
    {
        let mut builder = new_builder();
        let n = self.group_keys.len();
        let mut i: usize = 0;
        let ghost mut text: Seq<char> = Seq::empty();
        proof {
            assert(self.group_keys@.take(0) =~= Seq::empty());
            assert(encode_utf8(text) =~= Seq::empty());
        }
        while i < n
            invariant
                n == self.group_keys@.len(),
                i <= n,
                spec_group_text(self.group_keys@.take(i as int), event, column_type_map@)
                    == Read::Value(text),
                builder_bytes(builder) == encode_utf8(text),
            decreases n - i,
        {
            let k = &self.group_keys[i];
            proof {
                assert(self.group_keys@.take(i + 1).drop_last() =~= self.group_keys@.take(i as int));
                assert(self.group_keys@.take(i + 1).last() == *k);
                lemma_failed_prefix(self.group_keys@, i + 1, event, column_type_map@);
            }
            let column_type = match position(column_type_map, k.as_str()) {
                Some(j) => &column_type_map[j].1,
                None => {
                    return Err(column_not_found_in_ds_err(k.as_str()));
                },
            };
            let piece = match get_value_to_str(event, k.as_str(), column_type) {
                Ok(piece) => piece,
                Err(e) => {
                    return Err(e);
                },
            };
            proof {
                lemma_encode_concat(text, piece@);
                text = text + piece@;
            }
            append(&mut builder, piece);
            i = i + 1;
        }
        proof {
            assert(self.group_keys@.take(n as int) =~= self.group_keys@);
            lemma_encode_concat(text, decimal(feature_id as nat));
            lemma_string_bytes(text + decimal(feature_id as nat));
        }
        append(&mut builder, u64_to_string(feature_id));
        match string(builder) {
            Ok(key) => Ok(key),
            Err(e) => Err(utf8_err(e)),
        }
    }

    /// Whether the page `after` and the result `r` are what counting `event`
    /// under `key` makes of the page `before`.
    pub open spec fn updated(
        &self,
        event: &Event,
        key: Seq<char>,
        before: PageView,
        after: PageView,
        r: CustomResult<WalFeatureUpdateValue>,
    ) -> bool {
        match spec_value_as_u64(event, self.time_key@) {
            Read::Failed(code, message) => r is Err && r->Err_0.code == code && r->Err_0.message@
                == message && after == before,
            Read::Value(time) => match self.spec_window() {
                None => r is Err && r->Err_0.code == GENERIC_CODE && r->Err_0.message@
                    == self.spec_window_message() && after == before,
                Some(window) => Page::int_added(before, after, key, time, window, 1, r),
            },
        }
    }

    /// Counts `event` under `key` in `page`: adds one to the count of the
    /// window that holds the time of the event.
    ///
    /// Fails, and changes nothing, where the event has no time that is a
    /// whole number without sign, where the length of the window in
    /// milliseconds is zero or does not fit in 64 bits, or where the page
    /// cannot take the count.
    pub fn calc_and_update(&self, event: &Event, key: &String, page: &mut Page) -> (r: CustomResult<
        WalFeatureUpdateValue,
    >)
        requires
            old(page).wf(),
        ensures
            final(page).wf(),
            final(page).dirty_mark() == old(page).dirty_mark(),
            self.updated(event, key@, old(page)@, final(page)@, r),
    {
        let time = match get_value_as_u64(event, self.time_key.as_str()) {
            Ok(time) => time,
            Err(e) => {
                return Err(e);
            },
        };
        let window = match self.window_unit.checked_to_millis(self.window_size) {
            Some(window) => window,
            None => {
                return Err(common_err(String::from_str("the window is too long")));
            },
        };
        if window == 0 {
            return Err(common_err(String::from_str("the window has no length")));
        }
        page.add_int(key, time, window, 1)
    }
}

/// Where the columns before index `i` cannot be read, the columns cannot be
/// read, for the same reason.
pub proof fn lemma_failed_prefix(
    group_keys: Seq<String>,
    i: int,
    event: &Event,
    column_type_map: Seq<(String, ColumnType)>,
)
    requires
        0 <= i <= group_keys.len(),
    ensures
        spec_group_text(group_keys.take(i), event, column_type_map) matches Read::Failed(
            code,
            message,
        ) ==> spec_group_text(group_keys, event, column_type_map) == Read::<Seq<char>>::Failed(
            code,
            message,
        ),
    decreases group_keys.len() - i,
{
    if i < group_keys.len() {
        lemma_failed_prefix(group_keys, i + 1, event, column_type_map);
        assert(group_keys.take(i + 1).drop_last() =~= group_keys.take(i));
    } else {
        assert(group_keys.take(i) =~= group_keys);
    }
}

} // verus!
