//! Events: objects of named values, as they come in.
use crate::tools::named::{first_named, position};
use vstd::prelude::*;

verus! {

/// One value of an event.
#[derive(Debug)]
pub enum EventValue {
    /// A string.
    Text(String),
    /// A whole number that is not negative, and how the number is written
    /// when it is taken for a float.
    PosInt(u64, String),
    /// A whole number below zero, and how the number is written when it is
    /// taken for a float.
    NegInt(i64, String),
    /// A number that is no whole number of 64 bits, as it is written.
    Float(String),
    /// Anything else: nothing, a truth value, a list or an object.
    Other,
}

impl EventValue {
    /// The value as a string, where it is one.
    pub open spec fn spec_as_str(&self) -> Option<Seq<char>> {
        match self {
            EventValue::Text(s) => Some(s@),
            _ => None,
        }
    }

    /// The value as a whole number with sign, where it is one that fits.
    pub open spec fn spec_as_i64(&self) -> Option<i64> {
        match self {
            EventValue::PosInt(value, _) => if *value <= i64::MAX {
                Some(*value as i64)
            } else {
                None
            },
            EventValue::NegInt(value, _) => Some(*value),
            _ => None,
        }
    }

    /// The value as a whole number without sign, where it is one.
    pub open spec fn spec_as_u64(&self) -> Option<u64> {
        match self {
            EventValue::PosInt(value, _) => Some(*value),
            _ => None,
        }
    }

    /// How the value reads as a float, where it is a number.
    pub open spec fn spec_as_f64_text(&self) -> Option<Seq<char>> {
        match self {
            EventValue::PosInt(_, as_float) => Some(as_float@),
            EventValue::NegInt(_, as_float) => Some(as_float@),
            EventValue::Float(as_float) => Some(as_float@),
            _ => None,
        }
    }

    pub fn as_str(&self) -> (r: Option<&str>)
        ensures
            match r {
                Some(s) => self.spec_as_str() == Some(s@),
                None => self.spec_as_str() is None,
            },
    {
        match self {
            EventValue::Text(s) => Some(s.as_str()),
            _ => None,
        }
    }

    pub fn as_i64(&self) -> (r: Option<i64>)
        ensures
            r == self.spec_as_i64(),
    {
        match self {
            EventValue::PosInt(value, _) => if *value <= i64::MAX as u64 {
                Some(*value as i64)
            } else {
                None
            },
            EventValue::NegInt(value, _) => Some(*value),
            _ => None,
        }
    }

    pub fn as_u64(&self) -> (r: Option<u64>)
        ensures
            r == self.spec_as_u64(),
    {
        match self {
            EventValue::PosInt(value, _) => Some(*value),
            _ => None,
        }
    }

    /// How the value reads as a float, where it is a number.
    pub fn as_f64_text(&self) -> (r: Option<&str>)
        ensures
            match r {
                Some(s) => self.spec_as_f64_text() == Some(s@),
                None => self.spec_as_f64_text() is None,
            },
    {
        match self {
            EventValue::PosInt(_, as_float) => Some(as_float.as_str()),
            EventValue::NegInt(_, as_float) => Some(as_float.as_str()),
            EventValue::Float(as_float) => Some(as_float.as_str()),
            _ => None,
        }
    }
}

/// An event: values by their names. Of two values with one name the first
/// counts.
#[derive(Debug)]
pub struct Event {
    pub fields: Vec<(String, EventValue)>,
}

impl Event {
    /// The value with the name `name`.
    pub open spec fn spec_get(&self, name: Seq<char>) -> Option<EventValue> {
        match first_named(self.fields@, name) {
            Some(i) => Some(self.fields@[i].1),
            None => None,
        }
    }

    /// An event without values.
    pub fn new() -> (event: Event)
        ensures
            event.fields@ == Seq::<(String, EventValue)>::empty(),
    {
        Event { fields: Vec::new() }
    }

    /// Adds the value `value` with the name `name` behind the others.
    pub fn push(&mut self, name: String, value: EventValue)
        ensures
            final(self).fields@ == old(self).fields@.push((name, value)),
    {
        self.fields.push((name, value));
    }

    /// The value with the name `name`.
    pub fn get(&self, name: &str) -> (r: Option<&EventValue>)
        ensures
            match r {
                Some(value) => self.spec_get(name@) == Some(*value),
                None => self.spec_get(name@) is None,
            },
    {
        match position(&self.fields, name) {
            Some(i) => Some(&self.fields[i].1),
            None => None,
        }
    }
}

} // verus!
