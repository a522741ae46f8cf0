//! Coalgebras: the group-like coalgebra of a finite group.
use crate::structure::{build_cube, coassoc_left, coassoc_left_terms, coassoc_right, coassoc_right_terms, counit_left, counit_left_terms, counit_right, counit_right_terms, cube_is, delta, is_coassociative, lemma_sum_single, line_is, satisfies_counit_axiom};
use vstd::prelude::*;

verus! {

/// Comultiplication of a group-like basis: `Δ(e_i) = e_i ⊗ e_i`.
pub open spec fn grouplike_comult() -> spec_fn(int, int, int) -> int {
    |i: int, j: int, k: int| grouplike_coeff(i, j, k)
}

/// Coefficient of `e_j ⊗ e_k` in `Δ(e_i) = e_i ⊗ e_i`.
pub open spec fn grouplike_coeff(i: int, j: int, k: int) -> int {
    if i == j && j == k {
        1
    } else {
        0
    }
}

/// The counit that takes the value 1 on every basis element.
pub open spec fn constant_one() -> spec_fn(int) -> int {
    |i: int| 1int
}

fn grouplike_entry(unused: usize, i: usize, j: usize, k: usize) -> (r: i64)
    ensures
        r == grouplike_coeff(i as int, j as int, k as int),
{
    if i == j && j == k {
        1
    } else {
        0
    }
}

/// Group-like coalgebra on `n` basis elements (the group elements): `Δ(e_i) = e_i ⊗ e_i` and
/// `ε(e_i) = 1`. Returns the comultiplication table `comult[i][j][k]` (coefficient of
/// `e_j ⊗ e_k` in `Δ(e_i)`) and the counit values.
pub fn group_coalgebra(n: usize) -> (coalgebra: (Vec<Vec<Vec<i64>>>, Vec<i64>))
    ensures
        cube_is(coalgebra.0@, n as int, grouplike_comult()),
        line_is(coalgebra.1@, n as int, constant_one()),
{
    let comult = build_cube(n, 0, grouplike_entry, Ghost(grouplike_comult()));
    let mut counit: Vec<i64> = Vec::new();
    let mut i: usize = 0;
    while i < n
        invariant
            i <= n,
            line_is(counit@, i as int, constant_one()),
        decreases n - i,
    {
        counit.push(1);
        i = i + 1;
    }
    (comult, counit)
}

/// The group-like comultiplication is coassociative: `(Δ ⊗ id) ∘ Δ = (id ⊗ Δ) ∘ Δ`.
pub proof fn lemma_grouplike_coassociative(n: int)
    ensures
        is_coassociative(grouplike_comult(), n),
{
    let c = grouplike_comult();
    assert forall|i: int, x: int, y: int, z: int|
        0 <= i < n && 0 <= x < n && 0 <= y < n && 0 <= z < n implies #[trigger] coassoc_left(
        c,
        n,
        i,
        x,
        y,
        z,
    ) == coassoc_right(c, n, i, x, y, z) by {
        lemma_sum_single(n, coassoc_left_terms(c, i, x, y, z), i);
        lemma_sum_single(n, coassoc_right_terms(c, i, x, y, z), i);
    }
}

/// The constant counit is a counit for the group-like comultiplication:
/// `(ε ⊗ id) ∘ Δ = id = (id ⊗ ε) ∘ Δ`.
pub proof fn lemma_grouplike_counit(n: int)
    ensures
        satisfies_counit_axiom(grouplike_comult(), constant_one(), n),
{
    let c = grouplike_comult();
    let e = constant_one();
    assert forall|i: int, k: int| 0 <= i < n && 0 <= k < n implies #[trigger] counit_left(
        c,
        e,
        n,
        i,
        k,
    ) == delta(k, i) by {
        lemma_sum_single(n, counit_left_terms(c, e, i, k), i);
    }
    assert forall|i: int, j: int| 0 <= i < n && 0 <= j < n implies #[trigger] counit_right(
        c,
        e,
        n,
        i,
        j,
    ) == delta(j, i) by {
        lemma_sum_single(n, counit_right_terms(c, e, i, j), i);
    }
}

} // verus!
