use vstd::prelude::*;

verus! {

/// Where a node keeps its files.
#[derive(Debug)]
pub struct Config {
    pub data_dir: String,
}

} // verus!
