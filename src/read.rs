//! The decisions of the read command.

use vstd::prelude::*;

use crate::merge::{default_settings, merge_spec, MergeSettings};
use crate::value::{Json, Value};

verus! {

/// The read command: it merges every archive, oldest first, and then the
/// staging log, and writes the result.
#[derive(Debug, Clone, Copy, PartialEq, Eq, Structural)]
pub struct ReadCommand {}

/// What the read command writes, given the merged archives and the merged
/// staging log: the staging value is the newest.
pub open spec fn output_spec(archived: Option<Json>, staging: Option<Json>) -> Option<Json> {
    match (archived, staging) {
        (None, None) => None,
        (Some(a), None) => Some(a),
        (None, Some(s)) => Some(s),
        (Some(a), Some(s)) => Some(merge_spec(default_settings(), a, s)),
    }
}

impl ReadCommand {
    /// The value to write, given the merged archives and the merged staging
    /// log; `None` when neither holds anything, and then nothing is
    /// written.
    pub fn final_value(&self, archived: Option<Value>, staging: Option<Value>) -> (r: Option<Value>)
        ensures
            match r {
                None => output_spec(
                    match archived {
                        None => None,
                        Some(a) => Some(a@),
                    },
                    match staging {
                        None => None,
                        Some(s) => Some(s@),
                    },
                ) is None,
                Some(v) => output_spec(
                    match archived {
                        None => None,
                        Some(a) => Some(a@),
                    },
                    match staging {
                        None => None,
                        Some(s) => Some(s@),
                    },
                ) == Some(v@),
            },
    {
        match (archived, staging) {
            (None, None) => None,
            (Some(a), None) => Some(a),
            (None, Some(s)) => Some(s),
            (Some(a), Some(s)) => Some(MergeSettings::default().merge(a, s)),
        }
    }
}

} // verus!
