//! Permutations of tensor factors used with the R-matrix: the flip `σ: V ⊗ W → W ⊗ V` and
//! the exchange of the first two factors of `V ⊗ V ⊗ V` for a two-dimensional `V`.
//! A permutation is given by the image index of every basis index `|i⟩ ⊗ |j⟩ = i * dim2 + j`.
use crate::structure::tensor_index;
use vstd::prelude::*;

verus! {

/// Image of the basis index `s = i * dim2 + j` of `V ⊗ W` under the flip: `j * dim1 + i`.
pub open spec fn flip_target(dim1: int, dim2: int, s: int) -> int {
    (s % dim2) * dim1 + s / dim2
}

/// Image of `|a, b, c⟩ = 4a + 2b + c` under the exchange of the first two factors: `|b, a, c⟩`.
pub open spec fn swap_12_target(s: int) -> int {
    ((s / 2) % 2) * 4 + (s / 4) * 2 + s % 2
}

proof fn lemma_pair_index(n: int, q: int, r: int)
    requires
        n > 0,
        0 <= q,
        0 <= r < n,
    ensures
        (q * n + r) / n == q,
        (q * n + r) % n == r,
{
    vstd::arithmetic::div_mod::lemma_fundamental_div_mod_converse(q * n + r, n, q, r);
}

proof fn lemma_pair_bound(d1: int, d2: int, i: int, j: int)
    requires
        0 <= i < d1,
        0 <= j < d2,
    ensures
        0 <= i * d2 + j < d1 * d2,
        0 <= j * d1 + i < d1 * d2,
{
    assert(0 <= i * d2 + j < d1 * d2) by (nonlinear_arith)
        requires
            0 <= i < d1,
            0 <= j < d2,
    ;
    assert(0 <= j * d1 + i < d1 * d2) by (nonlinear_arith)
        requires
            0 <= i < d1,
            0 <= j < d2,
    ;
}

/// The flip operator `σ: V ⊗ W → W ⊗ V`, `|i⟩ ⊗ |j⟩ ↦ |j⟩ ⊗ |i⟩`, for `dim V = dim1` and
/// `dim W = dim2`, as the image of each basis index.
pub fn flip_permutation(dim1: usize, dim2: usize) -> (perm: Vec<usize>)
    requires
        dim1 * dim2 <= usize::MAX,
    ensures
        perm@.len() == dim1 * dim2,
        forall|s: int| 0 <= s < dim1 * dim2 ==> #[trigger] perm@[s] == flip_target(dim1 as int, dim2 as int, s),
        forall|i: int, j: int|
            0 <= i < dim1 && 0 <= j < dim2 ==> #[trigger] perm@[tensor_index(dim2 as int, i, j)]
                == tensor_index(dim1 as int, j, i),
{
    let mut perm: Vec<usize> = Vec::new();
    let mut i: usize = 0;
    while i < dim1
        invariant
            i <= dim1,
            dim1 * dim2 <= usize::MAX,
            perm@.len() == i * dim2,
            forall|s: int| 0 <= s < i * dim2 ==> #[trigger] perm@[s] == flip_target(dim1 as int, dim2 as int, s),
        decreases dim1 - i,
    {
        let mut j: usize = 0;
        while j < dim2
            invariant
                i < dim1,
                j <= dim2,
                dim1 * dim2 <= usize::MAX,
                perm@.len() == i * dim2 + j,
                forall|s: int|
                    0 <= s < i * dim2 + j ==> #[trigger] perm@[s] == flip_target(dim1 as int, dim2 as int, s),
            decreases dim2 - j,
        {
            proof {
                lemma_pair_bound(dim1 as int, dim2 as int, i as int, j as int);
                lemma_pair_index(dim2 as int, i as int, j as int);
            }
            perm.push(j * dim1 + i);
            j = j + 1;
        }
        assert(i * dim2 + dim2 == (i + 1) * dim2) by (nonlinear_arith);
        i = i + 1;
    }
    proof {
        assert forall|i: int, j: int| 0 <= i < dim1 && 0 <= j < dim2 implies #[trigger] perm@[tensor_index(
            dim2 as int,
            i,
            j,
        )] == tensor_index(dim1 as int, j, i) by {
            lemma_flip_sends_pair(dim1 as int, dim2 as int, i, j);
            lemma_pair_bound(dim1 as int, dim2 as int, i, j);
        }
    }
    perm
}

/// The flip sends `|i⟩ ⊗ |j⟩` of `V ⊗ W` to `|j⟩ ⊗ |i⟩` of `W ⊗ V`.
pub proof fn lemma_flip_sends_pair(dim1: int, dim2: int, i: int, j: int)
    requires
        0 <= i < dim1,
        0 <= j < dim2,
    ensures
        flip_target(dim1, dim2, tensor_index(dim2, i, j)) == tensor_index(dim1, j, i),
{
    lemma_pair_index(dim2, i, j);
}

/// The exchange `P_12 |a, b, c⟩ = |b, a, c⟩` on `V ⊗ V ⊗ V` with `dim V = 2`, as the image of
/// each basis index.
pub fn swap_12_permutation() -> (perm: Vec<usize>)
    ensures
        perm@.len() == 8,
        forall|s: int| 0 <= s < 8 ==> #[trigger] perm@[s] == swap_12_target(s),
{
    let mut perm: Vec<usize> = Vec::new();
    let mut a: usize = 0;
    while a < 2
        invariant
            a <= 2,
            perm@.len() == 4 * a,
            forall|s: int| 0 <= s < 4 * a ==> #[trigger] perm@[s] == swap_12_target(s),
        decreases 2 - a,
    {
        let mut b: usize = 0;
        while b < 2
            invariant
                a < 2,
                b <= 2,
                perm@.len() == 4 * a + 2 * b,
                forall|s: int| 0 <= s < 4 * a + 2 * b ==> #[trigger] perm@[s] == swap_12_target(s),
            decreases 2 - b,
        {
            let mut c: usize = 0;
            while c < 2
                invariant
                    a < 2,
                    b < 2,
                    c <= 2,
                    perm@.len() == 4 * a + 2 * b + c,
                    forall|s: int|
                        0 <= s < 4 * a + 2 * b + c ==> #[trigger] perm@[s] == swap_12_target(s),
                decreases 2 - c,
            {
                assert(swap_12_target(4 * a + 2 * b + c) == 4 * b + 2 * a + c);
                perm.push(b * 4 + a * 2 + c);
                c = c + 1;
            }
            b = b + 1;
        }
        a = a + 1;
    }
    perm
}

/// The flip is a permutation of the basis of `V ⊗ W` onto that of `W ⊗ V`, and flipping back
/// undoes it: `σ_{W,V} ∘ σ_{V,W} = id`.
pub proof fn lemma_flip_involution(dim1: int, dim2: int, s: int)
    requires
        dim1 > 0,
        dim2 > 0,
        0 <= s < dim1 * dim2,
    ensures
        0 <= flip_target(dim1, dim2, s) < dim1 * dim2,
        flip_target(dim2, dim1, flip_target(dim1, dim2, s)) == s,
{
    let i = s / dim2;
    let j = s % dim2;
    vstd::arithmetic::div_mod::lemma_fundamental_div_mod(s, dim2);
    vstd::arithmetic::mul::lemma_mul_is_commutative(dim2, i);
    vstd::arithmetic::div_mod::lemma_mod_bound(s, dim2);
    vstd::arithmetic::div_mod::lemma_div_pos_is_pos(s, dim2);
    if i >= dim1 {
        assert(i * dim2 >= dim1 * dim2) by (nonlinear_arith)
            requires
                i >= dim1,
                dim2 > 0,
        ;
    }
    lemma_pair_bound(dim1, dim2, i, j);
    lemma_pair_index(dim1, j, i);
}

/// The flip is injective: distinct basis vectors have distinct images.
pub proof fn lemma_flip_injective(dim1: int, dim2: int, s: int, t: int)
    requires
        dim1 > 0,
        dim2 > 0,
        0 <= s < dim1 * dim2,
        0 <= t < dim1 * dim2,
        flip_target(dim1, dim2, s) == flip_target(dim1, dim2, t),
    ensures
        s == t,
{
    lemma_flip_involution(dim1, dim2, s);
    lemma_flip_involution(dim1, dim2, t);
}

/// Exchanging the first two factors twice is the identity: `P_12 ∘ P_12 = id`.
pub proof fn lemma_swap_12_involution(s: int)
    requires
        0 <= s < 8,
    ensures
        0 <= swap_12_target(s) < 8,
        swap_12_target(swap_12_target(s)) == s,
{
}

} // verus!
