//! An in-memory feature store: windowed aggregates per feature key, kept in
//! hash-sharded slots of ordered pages and made durable by a write-ahead log
//! and paged snapshots.
use std::collections::hash_map::DefaultHasher;
use std::hash::{Hash, Hasher};
use vstd::prelude::*;
use vstd::std_specs::hash::DefaultHasherAdditionalSpecFns;

pub mod config;
pub mod custom_error;
pub mod ds;
pub mod feature;
pub mod node;
pub mod store;
pub mod tools;

verus! {

/// Unit of a window length.
#[derive(Debug, Clone, Copy, PartialEq, Eq, Structural)]
pub enum WindowUnit {
    SECOND,
    MINUTE,
    HOUR,
    DAY,
}

impl WindowUnit {
    /// Milliseconds in one unit.
    pub open spec fn unit_millis(self) -> nat {
        match self {
            WindowUnit::SECOND => 1000,
            WindowUnit::MINUTE => 60_000,
            WindowUnit::HOUR => 3_600_000,
            WindowUnit::DAY => 86_400_000,
        }
    }

    /// Length in milliseconds of `v` units.
    pub fn to_millis(&self, v: u64) -> (ms: u64)
        requires
            v * self.unit_millis() <= u64::MAX,
        ensures
            ms == v * self.unit_millis(),
    {
        match self {
            WindowUnit::SECOND => v * 1000,
            WindowUnit::MINUTE => v * 60_000,
            WindowUnit::HOUR => v * 3_600_000,
            WindowUnit::DAY => v * 86_400_000,
        }
    }

    /// Length in milliseconds of `v` units, or `None` where it does not fit
    /// in 64 bits.
    pub fn checked_to_millis(&self, v: u64) -> (ms: Option<u64>)
        ensures
            ms == if v * self.unit_millis() <= u64::MAX {
                Some((v * self.unit_millis()) as u64)
            } else {
                None::<u64>
            },
    {
        let unit: u64 = match self {
            WindowUnit::SECOND => 1000,
            WindowUnit::MINUTE => 60_000,
            WindowUnit::HOUR => 3_600_000,
            WindowUnit::DAY => 86_400_000,
        };
        v.checked_mul(unit)
    }
}

/// What hashing a string writes to a hasher, call by call.
pub uninterp spec fn str_hash_writes(key: Seq<char>) -> Seq<Seq<u8>>;

/// `Hash::hash` of a `String`: the string's writes follow those that the
/// hasher has taken before.
#[verifier::external_body]
fn hash_string(key: &String, state: &mut DefaultHasher)
    ensures
        final(state)@ == old(state)@ + str_hash_writes(key@),
{
    key.hash(state)
}

/// The hash of a key: what a fresh default hasher makes of the string.
pub open spec fn spec_calc_hash(key: Seq<char>) -> u64 {
    DefaultHasher::spec_finish(str_hash_writes(key))
}

/// The 64-bit hash by which a key is routed.
pub fn calc_hash(key: &String) -> (hash: u64)
    ensures
        hash == spec_calc_hash(key@),
{
    let mut hasher = DefaultHasher::new();
    hash_string(key, &mut hasher);
    assert(hasher@ =~= str_hash_writes(key@));
    hasher.finish()
}

} // verus!
