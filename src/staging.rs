//! The staging log: where its file lives, how its lines fold into one
//! value, and when it has grown enough to be archived.

use vstd::prelude::*;
use vstd::string::StringExecFns;

use crate::archive::{archive_bytes, crc32_of, header};
use crate::cbor::enc;
use crate::merge::{default_settings, merge_spec, MergeSettings};
use crate::value::{copy_value, lemma_views, views, Json, Value};

verus! {

broadcast use vstd::std_specs::vec::group_vec_axioms, vstd::seq::group_seq_axioms;

/// The values of the lines, in order, merged from the oldest to the newest:
/// `None` when there are none.
pub open spec fn fold_merge(s: MergeSettings, xs: Seq<Json>) -> Option<Json>
    decreases xs.len(),
{
    if xs.len() == 0 {
        None
    } else {
        let last = xs[xs.len() - 1];
        match fold_merge(s, xs.subrange(0, xs.len() - 1)) {
            None => Some(last),
            Some(acc) => Some(merge_spec(s, acc, last)),
        }
    }
}

/// A fold of one more line merges that line, as the newest, into the fold
/// of the lines before it; one line alone folds to itself.
pub proof fn lemma_fold_in_order(s: MergeSettings, xs: Seq<Json>, x: Json)
    ensures
        fold_merge(s, xs.push(x)) == match fold_merge(s, xs) {
            None => Some(x),
            Some(acc) => Some(merge_spec(s, acc, x)),
        },
        fold_merge(s, xs) is None <==> xs.len() == 0,
    decreases xs.len(),
{
    let ys = xs.push(x);
    assert(ys.subrange(0, ys.len() - 1) =~= xs);
    if xs.len() > 0 {
        lemma_fold_in_order(s, xs.subrange(0, xs.len() - 1), xs[xs.len() - 1]);
        assert(xs.subrange(0, xs.len() - 1).push(xs[xs.len() - 1]) =~= xs);
    }
}

/// Merges the values of the staging lines, in order, under the default
/// settings: `None` when there are no lines.
pub fn merge_staging_values(values: &Vec<Value>) -> (r: Option<Value>)
    ensures
        r is None <==> values@.len() == 0,
        match r {
            None => fold_merge(default_settings(), views(values@)) is None,
            Some(v) => fold_merge(default_settings(), views(values@)) == Some(v@),
        },
{
    let ghost xs = views(values@);
    proof {
        lemma_views(values@);
    }
    let settings = MergeSettings::default();
    let mut acc: Option<Value> = None;
    let mut i: usize = 0;
    assert(xs.subrange(0, 0) =~= Seq::<Json>::empty());
    while i < values.len()
        invariant
            xs == views(values@),
            xs.len() == values@.len(),
            forall|j: int| 0 <= j < values@.len() ==> #[trigger] xs[j] == values@[j]@,
            settings == default_settings(),
            i <= values@.len(),
            acc is None <==> i == 0,
            fold_merge(settings, xs.subrange(0, i as int)) == match acc {
                None => None,
                Some(a) => Some(a@),
            },
        decreases values.len() - i,
    {
        let ghost p = xs.subrange(0, i + 1);
        assert(p.subrange(0, p.len() - 1) =~= xs.subrange(0, i as int));
        let v = copy_value(&values[i]);
        acc = match acc {
            None => Some(v),
            Some(a) => Some(settings.merge(a, v)),
        };
        i = i + 1;
    }
    assert(xs.subrange(0, values@.len() as int) =~= xs);
    acc
}

/// The bytes of the archive that a rollover writes for the merged staging
/// value: none when the staging log held no lines.
pub fn archive_for_staging(merged: Option<Value>) -> (r: Option<Vec<u8>>)
    ensures
        r is None <==> merged is None,
        match (merged, r) {
            (Some(v), Some(b)) => b@ == header(crc32_of(enc(v@))) + enc(v@),
            _ => true,
        },
{
    match merged {
        Some(v) => Some(archive_bytes(&v)),
        None => None,
    }
}

/// The name of the staging file.
pub open spec fn staging_name() -> Seq<char> {
    "staging.jsonl"@
}

/// The path of the staging file in the data directory `data_dir`.
pub open spec fn staging_path(data_dir: Seq<char>) -> Seq<char> {
    if data_dir.len() == 0 {
        staging_name()
    } else {
        data_dir + seq!['/'] + staging_name()
    }
}

/// The path of the staging file in the data directory `data_dir`.
pub fn staging_file_path(data_dir: &str) -> (r: String)
    ensures
        r@ == staging_path(data_dir@),
{
    let mut r = String::from_str(data_dir);
    if !data_dir.is_empty() {
        r.append("/");
        proof {
            reveal_strlit("/");
        }
    }
    r.append("staging.jsonl");
    assert(r@ =~= staging_path(data_dir@));
    r
}

/// The size accounting of one staging writer: the staging file's length
/// when the writer opened it, the bytes it has written since, and the
/// limit past which the staging log is archived.
#[derive(Debug, Clone, Copy, PartialEq, Eq, Structural)]
pub struct StagingBudget {
    /// The staging file's length when the writer opened it.
    pub initial_len: u64,
    /// The bytes written since, saturating at `u64::MAX`.
    pub added_bytes: u64,
    /// The size past which the staging log is archived.
    pub limit: u64,
}

impl StagingBudget {
    /// Whether the staging log has grown past the limit.
    pub open spec fn over_limit(self) -> bool {
        self.initial_len + self.added_bytes > self.limit
    }

    /// The accounting of a writer that opened a staging file of
    /// `initial_len` bytes.
    pub fn new(initial_len: u64, limit: u64) -> (r: StagingBudget)
        ensures
            r.initial_len == initial_len,
            r.added_bytes == 0,
            r.limit == limit,
    {
        StagingBudget { initial_len, added_bytes: 0, limit }
    }

    /// Counts a written line of `line_bytes` bytes, its newline included,
    /// and tells whether the staging log must now be archived.
    pub fn record_line(&mut self, line_bytes: u64) -> (archive: bool)
        ensures
            final(self).initial_len == old(self).initial_len,
            final(self).limit == old(self).limit,
            final(self).added_bytes == if old(self).added_bytes + line_bytes > u64::MAX {
                u64::MAX as int
            } else {
                old(self).added_bytes + line_bytes
            },
            archive == final(self).over_limit(),
    {
        self.added_bytes = self.added_bytes.saturating_add(line_bytes);
        self.initial_len as u128 + self.added_bytes as u128 > self.limit as u128
    }
}

} // verus!
