//! A widget's entry in the configuration file, and the lookup of its options.

use vstd::prelude::*;

use crate::text::{copy_string, str_eq};

verus! {

/// The value of a widget option as the configuration file gives it: the launcher and
/// wallpaper picker read strings and integers; any other value counts as neither.
#[derive(Debug)]
pub enum OptionValue {
    Str(String),
    Integer(i64),
    Other,
}

/// A widget's entry in the configuration: its name and its options in the order
/// written. A configuration table holds each key once; where a key repeats, the first
/// is used.
#[derive(Debug)]
pub struct WidgetEntry {
    pub name: String,
    pub options: Vec<(String, OptionValue)>,
}

/// The value of option `key`, if set.
pub open spec fn option_value(options: Seq<(String, OptionValue)>, key: Seq<char>) -> Option<OptionValue>
    decreases options.len(),
{
    if options.len() == 0 {
        None
    } else if options[0].0@ == key {
        Some(options[0].1)
    } else {
        option_value(options.drop_first(), key)
    }
}

/// The text of option `key`, if it is set to a string.
pub open spec fn option_str(options: Seq<(String, OptionValue)>, key: Seq<char>) -> Option<Seq<char>> {
    match option_value(options, key) {
        Some(OptionValue::Str(s)) => Some(s@),
        _ => None,
    }
}

/// The number of option `key`, if it is set to an integer.
pub open spec fn option_integer(options: Seq<(String, OptionValue)>, key: Seq<char>) -> Option<i64> {
    match option_value(options, key) {
        Some(OptionValue::Integer(v)) => Some(v),
        _ => None,
    }
}

/// The characters of an optional string.
pub open spec fn opt_view(s: Option<String>) -> Option<Seq<char>> {
    match s {
        Some(t) => Some(t@),
        None => None,
    }
}

impl WidgetEntry {
    /// The value of option `key`, if set.
    pub fn get(&self, key: &str) -> (r: Option<&OptionValue>)
        ensures
            match r {
                Some(v) => option_value(self.options@, key@) == Some(*v),
                None => option_value(self.options@, key@) is None,
            },
    {
        let ghost all = self.options@;
        let mut i: usize = 0;
        assert(all.skip(0) =~= all);
        while i < self.options.len()
            invariant
                i <= self.options.len(),
                all == self.options@,
                option_value(all, key@) == option_value(all.skip(i as int), key@),
            decreases self.options.len() - i,
        {
            assert(all.skip(i as int)[0] == all[i as int]);
            if str_eq(self.options[i].0.as_str(), key) {
                return Some(&self.options[i].1);
            }
            assert(all.skip(i as int).drop_first() =~= all.skip(i + 1));
            i = i + 1;
        }
        None
    }

    /// The text of option `key`, if it is set to a string.
    pub fn get_str(&self, key: &str) -> (r: Option<String>)
        ensures
            opt_view(r) == option_str(self.options@, key@),
    {
        match self.get(key) {
            Some(OptionValue::Str(s)) => Some(copy_string(s)),
            _ => None,
        }
    }

    /// The number of option `key`, if it is set to an integer.
    pub fn get_integer(&self, key: &str) -> (r: Option<i64>)
        ensures
            r == option_integer(self.options@, key@),
    {
        match self.get(key) {
            Some(OptionValue::Integer(v)) => Some(*v),
            _ => None,
        }
    }
}

} // verus!
