//! Features: aggregates that are kept of the events of a dataset.
use crate::custom_error::CustomResult;
use crate::ds::column::{is_read_text, ColumnType, Read};
use crate::ds::event::Event;
use crate::feature::count_feature::CountFeatureTemplate;
use crate::store::page::Page;
use crate::store::wal::WalFeatureUpdateValue;
use vstd::prelude::*;

pub mod count_feature;
pub mod value;

verus! {

/// How a feature is kept.
#[derive(Debug)]
pub enum FeatureTemplate {
    /// The number of events in each window of time.
    COUNT(CountFeatureTemplate),
}

/// A feature of a dataset.
#[derive(Debug)]
pub struct Feature {
    pub id: u64,
    pub name: String,
    pub template: FeatureTemplate,
}

impl Feature {
    /// The key under which the feature is kept for `event`.
    pub open spec fn spec_build_key(
        &self,
        event: &Event,
        column_type_map: Seq<(String, ColumnType)>,
    ) -> Read<Seq<char>> {
        match self.template {
            FeatureTemplate::COUNT(cf) => cf.spec_build_key(event, self.id, column_type_map),
        }
    }

    /// The key under which the feature is kept for `event`: what the event
    /// has in the columns by which the feature groups, then the feature's
    /// id.
    pub fn build_key(&self, event: &Event, column_type_map: &Vec<(String, ColumnType)>) -> (r:
        CustomResult<String>)
        ensures
            is_read_text(r, self.spec_build_key(event, column_type_map@)),
    {
        match &self.template {
            FeatureTemplate::COUNT(cf) => cf.build_key(event, self.id, column_type_map),
        }
    }

    /// Whether the page `after` and the result `r` are what the update of
    /// the feature for `event` makes of the page `before`.
    pub open spec fn updated(
        &self,
        event: &Event,
        key: Seq<char>,
        before: crate::store::page::PageView,
        after: crate::store::page::PageView,
        r: CustomResult<WalFeatureUpdateValue>,
    ) -> bool {
        match self.template {
            FeatureTemplate::COUNT(cf) => cf.updated(event, key, before, after, r),
        }
    }

    /// Updates the feature's aggregate under `key` in `page` for `event`.
    pub fn calc_and_update(&self, event: &Event, key: &String, page: &mut Page) -> (r: CustomResult<
        WalFeatureUpdateValue,
    >)
        requires
            old(page).wf(),
        ensures
            final(page).wf(),
            final(page).dirty_mark() == old(page).dirty_mark(),
            self.updated(event, key@, old(page)@, final(page)@, r),
    {
        match &self.template {
            FeatureTemplate::COUNT(cf) => cf.calc_and_update(event, key, page),
        }
    }
}

} // verus!
