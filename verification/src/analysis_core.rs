//! Regime bookkeeping of the per-ticker analysis.

use vstd::prelude::*;

verus! {

/// Number of regime changes (bars with wiping-out) among bars `1 ..= i`.
/// Wiping-out on the first bar does not open a new regime.
pub open spec fn regime_changes(wiped: Seq<bool>, i: int) -> int
    decreases i,
{
    if i <= 0 {
        0
    } else {
        regime_changes(wiped, i - 1) + if wiped[i] {
            1int
        } else {
            0int
        }
    }
}

/// Regime label of every bar: the label starts at 0 and grows by one on each
/// later bar where wiping-out took place.
pub fn regime_labels(wiped: &[bool]) -> (ids: Vec<usize>)
    ensures
        ids@.len() == wiped@.len(),
        forall|i: int| 0 <= i < ids@.len() ==> ids@[i] == regime_changes(wiped@, i),
        ids@.len() > 0 ==> ids@[0] == 0,
        forall|i: int|
            0 < i < ids@.len() ==> #[trigger] ids@[i] == ids@[i - 1] + if wiped@[i] {
                1int
            } else {
                0int
            },
{
    let n = wiped.len();
    let mut ids: Vec<usize> = Vec::with_capacity(n);
    let mut regime_id: usize = 0;
    let mut i: usize = 0;
    while i < n
        invariant
            n == wiped@.len(),
            i <= n,
            ids@.len() == i,
            regime_id <= i,
            i > 0 ==> regime_id == regime_changes(wiped@, i - 1),
            i == 0 ==> regime_id == 0,
            forall|j: int| 0 <= j < i ==> ids@[j] == regime_changes(wiped@, j),
        decreases n - i,
    {
        if wiped[i] && i > 0 {
            regime_id += 1;
        }
        ids.push(regime_id);
        i += 1;
    }
    ids
}

} // verus!
