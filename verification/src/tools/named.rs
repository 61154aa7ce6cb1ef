//! Lists of named things, looked up by name.
use crate::tools::text::{compare_keys, KeyOrder};
use vstd::prelude::*;

verus! {

/// The index of the first of `items` that has the name `name`.
pub open spec fn first_named<T>(items: Seq<(String, T)>, name: Seq<char>) -> Option<int>
    decreases items.len(),
{
    if items.len() == 0 {
        None
    } else {
        match first_named(items.drop_last(), name) {
            Some(i) => Some(i),
            None => if items.last().0@ == name {
                Some(items.len() - 1)
            } else {
                None
            },
        }
    }
}

/// What was found is an index of an item with the name, and no item before
/// it has the name; where nothing was found, no item has the name.
pub proof fn lemma_first_named<T>(items: Seq<(String, T)>, name: Seq<char>)
    ensures
        match first_named(items, name) {
            Some(i) => 0 <= i < items.len() && items[i].0@ == name && forall|j: int|
                0 <= j < i ==> items[j].0@ != name,
            None => forall|j: int| 0 <= j < items.len() ==> items[j].0@ != name,
        },
    decreases items.len(),
{
    if items.len() > 0 {
        lemma_first_named(items.drop_last(), name);
        match first_named(items.drop_last(), name) {
            Some(i) => {
                assert(items.drop_last()[i] == items[i]);
                assert forall|j: int| 0 <= j < i implies items[j].0@ != name by {
                    assert(items.drop_last()[j] == items[j]);
                }
            },
            None => {
                assert forall|j: int| 0 <= j < items.len() - 1 implies items[j].0@ != name by {
                    assert(items.drop_last()[j] == items[j]);
                }
            },
        }
    }
}

/// The first item that has the name is the one found.
pub proof fn lemma_first_named_is<T>(items: Seq<(String, T)>, name: Seq<char>, i: int)
    requires
        0 <= i < items.len(),
        items[i].0@ == name,
        forall|j: int| 0 <= j < i ==> items[j].0@ != name,
    ensures
        first_named(items, name) == Some(i),
{
    lemma_first_named(items, name);
}

/// The index of the first of `items` that has the name `name`.
pub fn position<T>(items: &Vec<(String, T)>, name: &str) -> (found: Option<usize>)
    ensures
        match found {
            Some(i) => first_named(items@, name@) == Some(i as int) && i < items@.len(),
            None => first_named(items@, name@) is None,
        },
{
    let n = items.len();
    let mut i: usize = 0;
    while i < n
        invariant
            n == items@.len(),
            i <= n,
            forall|j: int| 0 <= j < i ==> items@[j].0@ != name@,
        decreases n - i,
    {
        match compare_keys(items[i].0.as_str(), name) {
            KeyOrder::Same => {
                proof {
                    lemma_first_named_is(items@, name@, i as int);
                }
                return Some(i);
            },
            _ => {
                proof {
                    crate::tools::text::lemma_compare_differ(items@[i as int].0@, name@);
                }
            },
        }
        i = i + 1;
    }
    proof {
        lemma_first_named(items@, name@);
    }
    None
}

} // verus!
