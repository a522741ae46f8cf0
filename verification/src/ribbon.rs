//! Spin bookkeeping of the braided monoidal category of U_q(sl(2)) representations.
use crate::representation::spin_range;
use vstd::prelude::*;

verus! {

/// Clebsch-Gordan decomposition of the tensor product of the spin-`j1` and spin-`j2`
/// representations: the spins `|j1 - j2|, ..., j1 + j2`.
pub fn clebsch_gordan_decomposition(j1: u32, j2: u32) -> (spins: Vec<u32>)
    requires
        j1 + j2 < u32::MAX,
    ensures
        spins@ == spin_range(j1 as int, j2 as int),
{
    let mut spins: Vec<u32> = Vec::new();
    let mut j = if j1 > j2 {
        j1 - j2
    } else {
        j2 - j1
    };
    let ghost lo = j;
    while j <= j1 + j2
        invariant
            lo == (if j1 > j2 {
                j1 - j2
            } else {
                j2 - j1
            }),
            lo <= j <= j1 + j2 + 1,
            j1 + j2 < u32::MAX,
            spins@ == spin_range(j1 as int, j2 as int).take(j - lo),
        decreases j1 + j2 + 1 - j,
    {
        spins.push(j);
        j += 1;
        assert(spins@ =~= spin_range(j1 as int, j2 as int).take(j - lo));
    }
    assert(spins@ =~= spin_range(j1 as int, j2 as int));
    spins
}

} // verus!
