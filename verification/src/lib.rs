//! Corpus-driven keyboard layout optimization and scoring.
//!
//! The library models a language corpus as fixed-point n-gram frequency
//! tables, a layout as a bijection between the corpus alphabet and a set of
//! physical key positions, and a score as a weighted sum of named metrics.
//! A stochastic local search generates and improves candidate layouts, and a
//! store keeps named layouts for ranking and comparison.
#![verifier::loop_isolation(false)]

use vstd::prelude::*;

pub mod corpus;
pub mod errors;
pub mod geometry;
pub mod layout;
pub mod metrics;
pub mod repl;
pub mod search;
pub mod store;

verus! {

/// Frequencies are fixed-point proportions: a table whose values sum to
/// `SCALE` represents a distribution summing to one.
pub const SCALE: u64 = 1_000_000;

/// Allowed deviation of a frequency table's sum from `SCALE`.
pub const TOLERANCE: u64 = 10_000;

/// Upper bound on the number of entries of one frequency table.
pub const MAX_TABLE: usize = 100_000;

/// Upper bound on the intrinsic effort cost of one key position.
pub const MAX_EFFORT: u64 = 1_000;

/// Upper bound on the number of key positions of a geometry.
pub const MAX_SLOTS: usize = 128;

/// Upper bound on the magnitude of a metric weight.
pub const MAX_WEIGHT: i64 = 1_000;

/// Upper bound on the number of metrics of a catalog.
pub const MAX_CATALOG: usize = 16;

/// Exact equality of two character sequences.
pub fn chars_eq(a: &Vec<char>, b: &Vec<char>) -> (r: bool)
    ensures
        r <==> a@ == b@,
{
    if a.len() != b.len() {
        proof {
            assert(a@.len() != b@.len());
        }
        return false;
    }
    let mut i: usize = 0;
    while i < a.len()
        invariant
            0 <= i <= a@.len(),
            a@.len() == b@.len(),
            forall|j: int| 0 <= j < i ==> a@[j] == b@[j],
        decreases a@.len() - i,
    {
        if a[i] != b[i] {
            return false;
        }
        i = i + 1;
    }
    proof {
        assert(a@ =~= b@);
    }
    true
}

/// Element-wise copy of a character sequence.
pub fn copy_chars(v: &Vec<char>) -> (r: Vec<char>)
    ensures
        r@ =~= v@,
{
    let mut out: Vec<char> = Vec::new();
    let mut i: usize = 0;
    while i < v.len()
        invariant
            0 <= i <= v@.len(),
            out@ =~= v@.take(i as int),
        decreases v@.len() - i,
    {
        out.push(v[i]);
        i = i + 1;
    }
    out
}

} // verus!
