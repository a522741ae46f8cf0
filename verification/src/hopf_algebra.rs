//! Structure constants of the matrix algebra `M_n`, with basis the matrix units
//! `E_{i1 j1}` numbered `i1 * n + j1`: `E_{i1 j1} E_{i2 j2} = δ_{j1 i2} E_{i1 j2}`.
use crate::structure::{
    assoc_left, assoc_left_terms, assoc_right, assoc_right_terms, build_cube, cube_is, delta,
    is_associative, lemma_sum_single, sum_to, tensor_index,
};
use vstd::prelude::*;

verus! {

/// Coefficient of basis element `c` in the product of basis elements `a` and `b` of `M_n`.
pub open spec fn matrix_unit_coeff(n: int, a: int, b: int, c: int) -> int {
    if a % n == b / n && c == (a / n) * n + b % n {
        1
    } else {
        0
    }
}

/// Structure constants of `M_n` as a function of the three basis indices.
pub open spec fn matrix_mult(n: int) -> spec_fn(int, int, int) -> int {
    |a: int, b: int, c: int| matrix_unit_coeff(n, a, b, c)
}

fn matrix_mult_entry(n: usize, a: usize, b: usize, c: usize) -> (r: i64)
    requires
        n > 0,
    ensures
        r == matrix_unit_coeff(n as int, a as int, b as int, c as int),
{
    let row = a / n;
    let col = b % n;
    if a % n == b / n && c / n == row && c % n == col {
        proof {
            vstd::arithmetic::div_mod::lemma_fundamental_div_mod(c as int, n as int);
            assert(c as int == n * row + col);
            vstd::arithmetic::mul::lemma_mul_is_commutative(n as int, row as int);
        }
        1
    } else {
        proof {
            if c == (a / n) * n + b % n {
                split_index(n as int, a as int);
                split_index(n as int, b as int);
                recombine_index(n as int, row as int, col as int);
            }
        }
        0
    }
}

/// A basis index of `M_n` splits into its row and column.
proof fn split_index(n: int, a: int)
    requires
        n > 0,
        a >= 0,
    ensures
        a == (a / n) * n + a % n,
        0 <= a % n < n,
        a / n >= 0,
        a < n * n ==> a / n < n,
{
    vstd::arithmetic::div_mod::lemma_fundamental_div_mod(a, n);
    vstd::arithmetic::mul::lemma_mul_is_commutative(n, a / n);
    vstd::arithmetic::div_mod::lemma_div_pos_is_pos(a, n);
    if a < n * n && a / n >= n {
        assert((a / n) * n >= n * n) by (nonlinear_arith)
            requires
                a / n >= n,
                n > 0,
        ;
    }
}

/// Row and column recombine into a basis index.
proof fn recombine_index(n: int, q: int, r: int)
    requires
        n > 0,
        0 <= q,
        0 <= r < n,
    ensures
        (q * n + r) / n == q,
        (q * n + r) % n == r,
        q < n ==> q * n + r < n * n,
{
    vstd::arithmetic::div_mod::lemma_fundamental_div_mod_converse(q * n + r, n, q, r);
    if q < n {
        assert(q * n + r < n * n) by (nonlinear_arith)
            requires
                q < n,
                r < n,
                0 <= q,
        ;
    }
}

/// Structure constants of the matrix algebra `M_n(k)`, of dimension `n * n`.
pub fn matrix_algebra(n: usize) -> (mult: Vec<Vec<Vec<i64>>>)
    requires
        n * n <= usize::MAX,
    ensures
        cube_is(mult@, n * n, matrix_mult(n as int)),
        forall|i1: int, j1: int, i2: int, j2: int, c: int|
            0 <= i1 < n && 0 <= j1 < n && 0 <= i2 < n && 0 <= j2 < n && 0 <= c < n * n
                ==> #[trigger] mult@[tensor_index(n as int, i1, j1)]@[tensor_index(n as int, i2, j2)]@[c]
                == (if j1 == i2 && c == tensor_index(n as int, i1, j2) {
                1int
            } else {
                0int
            }),
{
    let dim = n * n;
    if n == 0 {
        let empty: Vec<Vec<Vec<i64>>> = Vec::new();
        return empty;
    }
    let mult = build_cube(dim, n, matrix_mult_entry, Ghost(matrix_mult(n as int)));
    proof {
        assert forall|i1: int, j1: int, i2: int, j2: int, c: int|
            0 <= i1 < n && 0 <= j1 < n && 0 <= i2 < n && 0 <= j2 < n && 0 <= c < n * n
                implies #[trigger] mult@[tensor_index(n as int, i1, j1)]@[tensor_index(n as int, i2, j2)]@[c]
                == (if j1 == i2 && c == tensor_index(n as int, i1, j2) {
                1int
            } else {
                0int
            }) by {
            lemma_matrix_unit_product(n as int, i1, j1, i2, j2, c);
            recombine_index(n as int, i1, j1);
            recombine_index(n as int, i2, j2);
        }
    }
    mult
}

/// Matrix units multiply as `E_{i1 j1} E_{i2 j2} = δ_{j1 i2} E_{i1 j2}`.
pub proof fn lemma_matrix_unit_product(n: int, i1: int, j1: int, i2: int, j2: int, c: int)
    requires
        0 <= i1 < n,
        0 <= j1 < n,
        0 <= i2 < n,
        0 <= j2 < n,
    ensures
        matrix_mult(n)(tensor_index(n, i1, j1), tensor_index(n, i2, j2), c) == (if j1 == i2 && c
            == tensor_index(n, i1, j2) {
            1int
        } else {
            0int
        }),
{
    recombine_index(n, i1, j1);
    recombine_index(n, i2, j2);
}

/// The identity matrix `Σ_i E_ii` is a two-sided unit of `M_n`: `(Σ_i E_ii) E_b = E_b (Σ_i E_ii) = E_b`.
pub proof fn lemma_matrix_identity_unit(n: int, b: int, c: int)
    requires
        n >= 1,
        0 <= b < n * n,
        0 <= c < n * n,
    ensures
        sum_to(n, |i: int| matrix_mult(n)(tensor_index(n, i, i), b, c)) == delta(b, c),
        sum_to(n, |i: int| matrix_mult(n)(b, tensor_index(n, i, i), c)) == delta(b, c),
{
    split_index(n, b);
    let r = b / n;
    let s = b % n;
    assert(b == tensor_index(n, r, s));
    let fl = |i: int| matrix_mult(n)(tensor_index(n, i, i), b, c);
    let fr = |i: int| matrix_mult(n)(b, tensor_index(n, i, i), c);
    assert forall|i: int| 0 <= i < n && i != r implies #[trigger] fl(i) == 0 by {
        lemma_matrix_unit_product(n, i, i, r, s, c);
    }
    assert forall|i: int| 0 <= i < n && i != s implies #[trigger] fr(i) == 0 by {
        lemma_matrix_unit_product(n, r, s, i, i, c);
    }
    lemma_sum_single(n, fl, r);
    lemma_sum_single(n, fr, s);
    lemma_matrix_unit_product(n, r, r, r, s, c);
    lemma_matrix_unit_product(n, r, s, s, s, c);
}

/// The matrix algebra `M_n` is associative: `(E_a E_b) E_k = E_a (E_b E_k)` for all matrix units.
pub proof fn lemma_matrix_algebra_associative(n: int)
    requires
        n >= 1,
    ensures
        is_associative(matrix_mult(n), n * n),
{
    let m = matrix_mult(n);
    let d = n * n;
    assert forall|a: int, b: int, k: int, p: int|
        0 <= a < d && 0 <= b < d && 0 <= k < d && 0 <= p < d implies #[trigger] assoc_left(
        m,
        d,
        a,
        b,
        k,
        p,
    ) == assoc_right(m, d, a, b, k, p) by {
        split_index(n, a);
        split_index(n, b);
        split_index(n, k);
        let l0 = (a / n) * n + b % n;
        recombine_index(n, a / n, b % n);
        lemma_sum_single(d, assoc_left_terms(m, a, b, k, p), l0);
        let l1 = (b / n) * n + k % n;
        recombine_index(n, b / n, k % n);
        lemma_sum_single(d, assoc_right_terms(m, a, b, k, p), l1);
    }
}

} // verus!
