//! Datasets: their columns, their features, and the result of an update.
use crate::feature::Feature;
use std::collections::HashMap;
use vstd::prelude::*;

pub mod column;
pub mod event;

verus! {

/// A dataset: the types of its columns and the features that are kept of
/// its events.
#[derive(Debug)]
pub struct DataSet {
    pub id: i64,
    pub name: String,
    pub desc: String,
    /// The type of each column, by the column's name.
    pub column_type_map: Vec<(String, column::ColumnType)>,
    pub features: Vec<Feature>,
}

/// What became of the update of one feature.
#[derive(Debug)]
pub struct FeatureUpdateResult {
    pub success: bool,
    pub msg: String,
}

impl FeatureUpdateResult {
    /// The result of an update that failed for the reason `msg`.
    pub fn failed(msg: String) -> (r: FeatureUpdateResult)
        ensures
            !r.success,
            r.msg@ == msg@,
    {
        FeatureUpdateResult { success: false, msg }
    }

    /// The result of an update that was done.
    pub fn succeeded() -> (r: FeatureUpdateResult)
        ensures
            r.success,
            r.msg@ == Seq::<char>::empty(),
    {
        FeatureUpdateResult { success: true, msg: String::new() }
    }
}

/// What became of the update of the features of a dataset by one event.
#[derive(Debug)]
pub struct DsUpdateResult {
    /// The id of the dataset.
    pub id: i64,
    /// The result for each feature, by the feature's id.
    pub feature_result_map: HashMap<u64, FeatureUpdateResult>,
    /// The action of the record that commits the update; the update is
    /// durable once that record is written.
    pub commit_action_id: u64,
}

} // verus!
