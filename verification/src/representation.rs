//! Spin bookkeeping of U_q(sl(2)) representation theory: dimensions of the spin-j irreps,
//! the tensor product (Clebsch-Gordan) decomposition, the triangle condition, and the block
//! layout of a direct sum.
use crate::structure::{lemma_sum_ext, sum_to};
use vstd::prelude::*;

verus! {

/// The spins `|j1 - j2|, |j1 - j2| + 1, ..., j1 + j2`, in increasing order.
pub open spec fn spin_range(j1: int, j2: int) -> Seq<u32> {
    let lo = if j1 > j2 {
        j1 - j2
    } else {
        j2 - j1
    };
    Seq::new((j1 + j2 - lo + 1) as nat, |k: int| (lo + k) as u32)
}

/// The triangle condition `|j1 - j2| <= j3 <= j1 + j2`.
pub open spec fn triangle(j1: int, j2: int, j3: int) -> bool {
    &&& j1 - j2 <= j3
    &&& j2 - j1 <= j3
    &&& j3 <= j1 + j2
}

/// Total dimension `Σ (2j + 1)` of the spins in `spins`.
pub open spec fn total_dimension(spins: Seq<u32>) -> int {
    sum_to(spins.len() as int, spin_dimension_terms(spins))
}

pub open spec fn spin_dimension_terms(spins: Seq<u32>) -> spec_fn(int) -> int {
    |k: int| 2 * spins[k] + 1
}

/// `Σ_{t < count} dims[t]`.
pub open spec fn dims_before(dims: Seq<usize>, count: int) -> int
    decreases count,
{
    if count <= 0 {
        0
    } else {
        dims_before(dims, count - 1) + dims[count - 1]
    }
}

/// Dimension `2j + 1` of the spin-`j` representation.
pub fn spin_dimension(j: u32) -> (d: usize)
    requires
        2 * j + 1 <= u32::MAX,
    ensures
        d == 2 * j + 1,
{
    (2 * j + 1) as usize
}

/// Representation theory utilities for quantum groups.
pub struct RepTheory;

impl RepTheory {
    /// Tensor product decomposition for U_q(sl(2)):
    /// `V_j1 ⊗ V_j2 = ⊕_{j=|j1-j2|}^{j1+j2} V_j`.
    pub fn tensor_product_decomposition(j1: u32, j2: u32) -> (spins: Vec<u32>)
        requires
            j1 + j2 <= u32::MAX,
        ensures
            spins@ == spin_range(j1 as int, j2 as int),
    {
        let min_j = if j1 > j2 {
            j1 - j2
        } else {
            j2 - j1
        };
        let max_j = j1 + j2;
        let mut spins: Vec<u32> = Vec::new();
        let mut j: u32 = min_j;
        loop
            invariant
                min_j <= j <= max_j,
                min_j == (if j1 > j2 {
                    j1 - j2
                } else {
                    j2 - j1
                }),
                max_j == j1 + j2,
                spins@ == spin_range(j1 as int, j2 as int).take((j - min_j) as int),
            decreases max_j - j,
        {
            spins.push(j);
            if j == max_j {
                assert(spins@ =~= spin_range(j1 as int, j2 as int));
                return spins;
            }
            j = j + 1;
            assert(spins@ =~= spin_range(j1 as int, j2 as int).take((j - min_j) as int));
        }
    }

    /// Whether the Wigner 3j-symbol `(j1 j2 j3)` can be nonzero: the triangle condition
    /// `|j1 - j2| <= j3 <= j1 + j2`.
    pub fn wigner_3j(j1: u32, j2: u32, j3: u32) -> (allowed: bool)
        requires
            j1 + j2 <= u32::MAX,
        ensures
            allowed == triangle(j1 as int, j2 as int, j3 as int),
    {
        let max_j = j1 + j2;
        let min_j = if j1 > j2 {
            j1 - j2
        } else {
            j2 - j1
        };
        j3 >= min_j && j3 <= max_j
    }

    /// Block layout of the direct sum of representations of dimensions `dims`: the offset at
    /// which each block starts, and the total dimension.
    pub fn direct_sum_layout(dims: &Vec<usize>) -> (layout: (Vec<usize>, usize))
        requires
            dims_before(dims@, dims@.len() as int) <= usize::MAX,
        ensures
            layout.0@.len() == dims@.len(),
            forall|k: int| 0 <= k < dims@.len() ==> #[trigger] layout.0@[k] == dims_before(dims@, k),
            layout.1 == dims_before(dims@, dims@.len() as int),
            dims@.len() == 0 ==> layout.1 == 0,
            dims@.len() > 0 ==> layout.0@[0] == 0,
            forall|k: int|
                #![trigger dims@[k]]
                0 <= k && k + 1 < dims@.len() ==> layout.0@[k + 1] == layout.0@[k] + dims@[k],
            dims@.len() > 0 ==> layout.1 == layout.0@[dims@.len() - 1] + dims@[dims@.len() - 1],
    {
        let mut offsets: Vec<usize> = Vec::new();
        let mut offset: usize = 0;
        let mut k: usize = 0;
        while k < dims.len()
            invariant
                k <= dims@.len(),
                dims_before(dims@, dims@.len() as int) <= usize::MAX,
                offset == dims_before(dims@, k as int),
                offsets@.len() == k,
                forall|t: int| 0 <= t < k ==> #[trigger] offsets@[t] == dims_before(dims@, t),
            decreases dims@.len() - k,
        {
            proof {
                lemma_dims_before_mono(dims@, k as int + 1, dims@.len() as int);
            }
            offsets.push(offset);
            offset = offset + dims[k];
            k = k + 1;
        }
        proof {
            assert forall|k: int| 0 <= k && k + 1 < dims@.len() implies offsets@[k + 1] == offsets@[k]
                + dims@[k] by {
                assert(offsets@[k + 1] == dims_before(dims@, k + 1));
                assert(offsets@[k] == dims_before(dims@, k));
            }
        }
        (offsets, offset)
    }
}

proof fn lemma_dims_before_mono(dims: Seq<usize>, a: int, b: int)
    requires
        0 <= a <= b <= dims.len(),
    ensures
        dims_before(dims, a) <= dims_before(dims, b),
    decreases b - a,
{
    if a < b {
        lemma_dims_before_mono(dims, a, b - 1);
    }
}

// ---------------------------------------------------------------------------
// Laws
// ---------------------------------------------------------------------------

/// A spin `j3` occurs in `V_j1 ⊗ V_j2` exactly when `(j1, j2, j3)` satisfies the triangle
/// condition that `wigner_3j` tests.
pub proof fn lemma_triangle_iff_in_decomposition(j1: u32, j2: u32, j3: u32)
    requires
        j1 + j2 <= u32::MAX,
    ensures
        spin_range(j1 as int, j2 as int).contains(j3) <==> triangle(j1 as int, j2 as int, j3 as int),
{
    let r = spin_range(j1 as int, j2 as int);
    let lo: int = if j1 > j2 {
        j1 - j2
    } else {
        j2 - j1
    };
    if triangle(j1 as int, j2 as int, j3 as int) {
        assert(r[j3 - lo] == j3);
    }
    if r.contains(j3) {
        let k = choose|k: int| 0 <= k < r.len() && r[k] == j3;
        assert(r[k] == lo + k);
    }
}

/// The decomposition does not depend on the order of the factors: `V_j1 ⊗ V_j2 ≅ V_j2 ⊗ V_j1`.
pub proof fn lemma_decomposition_symmetric(j1: u32, j2: u32)
    ensures
        spin_range(j1 as int, j2 as int) == spin_range(j2 as int, j1 as int),
{
    assert(spin_range(j1 as int, j2 as int) =~= spin_range(j2 as int, j1 as int));
}

/// The triangle condition is symmetric in all three spins.
pub proof fn lemma_triangle_symmetric(j1: int, j2: int, j3: int)
    ensures
        triangle(j1, j2, j3) == triangle(j2, j1, j3),
        triangle(j1, j2, j3) == triangle(j1, j3, j2),
        triangle(j1, j2, j3) == triangle(j3, j2, j1),
{
}

proof fn lemma_odd_sum(lo: int, count: int)
    requires
        lo >= 0,
        count >= 0,
    ensures
        sum_to(count, |k: int| 2 * (lo + k) + 1) == (lo + count) * (lo + count) - lo * lo,
    decreases count,
{
    if count > 0 {
        lemma_odd_sum(lo, count - 1);
        assert((lo + count - 1) * (lo + count - 1) - lo * lo + 2 * (lo + count - 1) + 1 == (lo
            + count) * (lo + count) - lo * lo) by (nonlinear_arith);
    }
}

/// Dimensions add up in the Clebsch-Gordan decomposition:
/// `Σ_{j=|j1-j2|}^{j1+j2} (2j + 1) = (2 j1 + 1)(2 j2 + 1)`.
pub proof fn lemma_decomposition_dimension(j1: u32, j2: u32)
    requires
        j1 + j2 <= u32::MAX,
    ensures
        total_dimension(spin_range(j1 as int, j2 as int)) == (2 * j1 + 1) * (2 * j2 + 1),
{
    let r = spin_range(j1 as int, j2 as int);
    let lo: int = if j1 > j2 {
        j1 - j2
    } else {
        j2 - j1
    };
    let count = j1 + j2 - lo + 1;
    let g = |k: int| 2 * (lo + k) + 1;
    assert forall|k: int| 0 <= k < count implies #[trigger] spin_dimension_terms(r)(k) == g(k) by {}
    lemma_sum_ext(count, spin_dimension_terms(r), g);
    lemma_odd_sum(lo, count);
    let a = j1 as int;
    let b = j2 as int;
    assert((a + b + 1) * (a + b + 1) - (a - b) * (a - b) == (2 * a + 1) * (2 * b + 1)) by (nonlinear_arith);
    assert((a + b + 1) * (a + b + 1) - (b - a) * (b - a) == (2 * a + 1) * (2 * b + 1)) by (nonlinear_arith);
}

} // verus!
