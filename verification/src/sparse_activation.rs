//! Leaving out neurons whose contribution is too small to matter.

use vstd::prelude::*;

use crate::float_bits::{abs_of, check_lt, float_abs, float_lt};

verus! {

/// 0.02 in single precision.
pub const DEFAULT_THRESHOLD: u32 = 0x3CA3_D70A;

/// How many neurons were left out.
#[derive(Debug, Clone, Copy, PartialEq, Eq, Structural)]
pub struct SparseStats {
    pub total: u64,
    pub skipped: u64,
}

/// The neurons among the first `n` whose contribution is above the threshold,
/// with it.
pub open spec fn kept(values: Seq<u32>, threshold: u32, n: int) -> Seq<(usize, u32)>
    decreases n,
{
    if n <= 0 {
        Seq::empty()
    } else {
        let before = kept(values, threshold, n - 1);
        if float_lt(threshold, float_abs(values[n - 1])) {
            before.push(((n - 1) as usize, values[n - 1]))
        } else {
            before
        }
    }
}

/// The neurons whose contribution is above the threshold, given the contribution
/// of each as the bits of a single-precision number, and how many are not.
pub fn sparse_columns(values: &Vec<u32>, threshold: u32) -> (r: (Vec<(usize, u32)>, SparseStats))
    ensures
        r.0@ == kept(values@, threshold, values@.len() as int),
        r.1.total == values@.len(),
        r.1.skipped + r.0@.len() == values@.len(),
{
    let mut columns: Vec<(usize, u32)> = Vec::new();
    let mut skipped: u64 = 0;
    let mut j: usize = 0;
    while j < values.len()
        invariant
            j <= values@.len(),
            columns@ == kept(values@, threshold, j as int),
            skipped + columns@.len() == j,
        decreases values@.len() - j,
    {
        if check_lt(threshold, abs_of(values[j])) {
            columns.push((j, values[j]));
        } else {
            skipped = skipped + 1;
        }
        j = j + 1;
    }
    (columns, SparseStats { total: values.len() as u64, skipped })
}

/// A neuron whose contribution is above the threshold is kept.
pub proof fn large_contributions_are_kept(values: Seq<u32>, threshold: u32, n: int, j: int)
    requires
        0 <= j < n <= values.len(),
    ensures
        float_lt(threshold, float_abs(values[j])) ==> kept(values, threshold, n).contains(
            (j as usize, values[j]),
        ),
    decreases n,
{
    let all = kept(values, threshold, n);
    if float_lt(threshold, float_abs(values[j])) {
        if j == n - 1 {
            assert(all.last() == (j as usize, values[j]));
        } else {
            large_contributions_are_kept(values, threshold, n - 1, j);
            let before = kept(values, threshold, n - 1);
            let k = choose|k: int| 0 <= k < before.len() && before[k] == (j as usize, values[j]);
            assert(all[k] == (j as usize, values[j]));
        }
    }
}

/// Nothing is kept but values whose size is above the threshold, each with its column, and
/// the columns keep their order.
pub proof fn kept_contributions_are_large(values: Seq<u32>, threshold: u32, n: int)
    requires
        0 <= n <= values.len() <= usize::MAX,
    ensures
        ({
            let list = kept(values, threshold, n);
            &&& forall|k: int|
                0 <= k < list.len() ==> (#[trigger] list[k]).0 < n && list[k].1
                    == values[list[k].0 as int] && float_lt(threshold, float_abs(list[k].1))
            &&& forall|j: int, k: int|
                0 <= j < k < list.len() ==> (#[trigger] list[j]).0 < (#[trigger] list[k]).0
        }),
    decreases n,
{
    if n > 0 {
        kept_contributions_are_large(values, threshold, n - 1);
        let before = kept(values, threshold, n - 1);
        let list = kept(values, threshold, n);
        assert forall|k: int| 0 <= k < list.len() implies (#[trigger] list[k]).0 < n && list[k].1
            == values[list[k].0 as int] && float_lt(threshold, float_abs(list[k].1)) by {
            if k < before.len() {
                assert(list[k] == before[k]);
            } else {
                assert(list[k] == ((n - 1) as usize, values[n - 1]));
            }
        }
        assert forall|j: int, k: int| 0 <= j < k < list.len() implies (#[trigger] list[j]).0 < (
        #[trigger] list[k]).0 by {
            assert(list[j] == before[j]);
            if k < before.len() {
                assert(list[k] == before[k]);
            }
        }
    }
}

} // verus!
