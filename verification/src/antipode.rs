//! The group Hopf algebra `k[Z_n]` of the cyclic group of order `n`: multiplication
//! `e_i e_j = e_{(i+j) mod n}`, group-like coproduct, counit 1, antipode `S(e_i) = e_{-i mod n}`.
use crate::coalgebra::{
    constant_one, group_coalgebra, grouplike_coeff, grouplike_comult, lemma_grouplike_coassociative,
    lemma_grouplike_counit,
};
use crate::structure::{
    antipode_left, antipode_left_sum_j, antipode_left_terms, antipode_right, antipode_right_sum_j,
    antipode_right_terms, assoc_left, assoc_left_terms, assoc_right, assoc_right_terms,
    basis_coeffs, bialg_left, bialg_left_terms, bialg_right, bialg_right_terms, bialg_sum_a,
    bialg_sum_b, bialg_sum_x, build_cube, build_square, cube_is, delta, is_associative,
    is_bialgebra, is_valid_hopf, lemma_mod_once, lemma_sum_ext, lemma_sum_single, line_is,
    product_coeff, product_sum_a, product_terms, row_coeffs, satisfies_antipode_axiom, square_is,
    sum_to,
};
use vstd::prelude::*;

verus! {

/// Structure constants of `k[Z_n]`: `e_i e_j = e_{(i+j) mod n}`.
pub open spec fn cyclic_mult(n: int) -> spec_fn(int, int, int) -> int {
    |i: int, j: int, k: int| delta(k, (i + j) % n)
}

/// The antipode of `k[Z_n]`: `S(e_i) = e_{(n-i) mod n}`.
pub open spec fn cyclic_inverse(n: int) -> spec_fn(int, int) -> int {
    |i: int, j: int| delta(j, (n - i) % n)
}

/// `(i + j) mod n` for `i, j < n`, without overflow.
fn add_mod(n: usize, i: usize, j: usize) -> (r: usize)
    requires
        i < n,
        j < n,
    ensures
        r as int == (i + j) % (n as int),
{
    proof {
        lemma_mod_once(i + j, n as int);
    }
    if i >= n - j {
        i - (n - j)
    } else {
        i + j
    }
}

fn cyclic_mult_entry(n: usize, i: usize, j: usize, k: usize) -> (r: i64)
    requires
        i < n,
        j < n,
    ensures
        r == delta(k as int, (i + j) % (n as int)),
{
    if k == add_mod(n, i, j) {
        1
    } else {
        0
    }
}

fn cyclic_inverse_entry(n: usize, i: usize, j: usize) -> (r: i64)
    requires
        i < n,
    ensures
        r == delta(j as int, (n - i) % (n as int)),
{
    if j == (n - i) % n {
        1
    } else {
        0
    }
}

/// Multiplication table of `k[Z_n]`: `mult[i][j][k] = 1` exactly when `k = (i + j) mod n`.
pub fn cyclic_algebra(n: usize) -> (mult: Vec<Vec<Vec<i64>>>)
    ensures
        cube_is(mult@, n as int, cyclic_mult(n as int)),
{
    build_cube(n, n, cyclic_mult_entry, Ghost(cyclic_mult(n as int)))
}

/// Coalgebra of `k[Z_n]`: every group element is group-like and has counit 1.
pub fn cyclic_coalgebra(n: usize) -> (coalgebra: (Vec<Vec<Vec<i64>>>, Vec<i64>))
    ensures
        cube_is(coalgebra.0@, n as int, grouplike_comult()),
        line_is(coalgebra.1@, n as int, constant_one()),
{
    group_coalgebra(n)
}

/// Antipode table of `k[Z_n]`: `antipode[i][j] = 1` exactly when `j = (n - i) mod n`.
pub fn cyclic_antipode(n: usize) -> (antipode: Vec<Vec<i64>>)
    ensures
        square_is(antipode@, n as int, cyclic_inverse(n as int)),
{
    build_square(n, n, cyclic_inverse_entry, Ghost(cyclic_inverse(n as int)))
}

// ---------------------------------------------------------------------------
// k[Z_n] is a Hopf algebra
// ---------------------------------------------------------------------------

proof fn lemma_cyclic_associative(n: int)
    requires
        n >= 1,
    ensures
        is_associative(cyclic_mult(n), n),
{
    let m = cyclic_mult(n);
    assert forall|i: int, j: int, k: int, p: int|
        0 <= i < n && 0 <= j < n && 0 <= k < n && 0 <= p < n implies #[trigger] assoc_left(
        m,
        n,
        i,
        j,
        k,
        p,
    ) == assoc_right(m, n, i, j, k, p) by {
        lemma_sum_single(n, assoc_left_terms(m, i, j, k, p), (i + j) % n);
        lemma_sum_single(n, assoc_right_terms(m, i, j, k, p), (j + k) % n);
        lemma_mod_once(i + j, n);
        lemma_mod_once(j + k, n);
        vstd::arithmetic::div_mod::lemma_add_mod_noop(i + j, k, n);
        vstd::arithmetic::div_mod::lemma_add_mod_noop(i, j + k, n);
        vstd::arithmetic::div_mod::lemma_small_mod(k as nat, n as nat);
        vstd::arithmetic::div_mod::lemma_small_mod(i as nat, n as nat);
    }
}

proof fn lemma_cyclic_bialgebra(n: int)
    requires
        n >= 1,
    ensures
        is_bialgebra(cyclic_mult(n), grouplike_comult(), n),
{
    let m = cyclic_mult(n);
    let c = grouplike_comult();
    assert forall|i: int, j: int, p: int, q: int|
        0 <= i < n && 0 <= j < n && 0 <= p < n && 0 <= q < n implies #[trigger] bialg_left(
        m,
        c,
        n,
        i,
        j,
        p,
        q,
    ) == bialg_right(m, c, n, i, j, p, q) by {
        lemma_mod_once(i + j, n);
        lemma_sum_single(n, bialg_left_terms(m, c, i, j, p, q), (i + j) % n);
        // innermost sum over y: only y == j contributes
        assert forall|a: int, b: int, x: int| 0 <= x < n implies #[trigger] bialg_sum_x(
            m,
            c,
            n,
            i,
            j,
            p,
            q,
            a,
            b,
        )(x) == grouplike_coeff(i, a, b) * grouplike_coeff(j, x, j) * m(a, x, p) * m(b, j, q) by {
            lemma_sum_single(n, bialg_right_terms(m, c, i, j, p, q, a, b, x), j);
        }
        // sum over x: only x == j contributes
        assert forall|a: int, b: int| 0 <= b < n implies #[trigger] bialg_sum_b(
            m,
            c,
            n,
            i,
            j,
            p,
            q,
            a,
        )(b) == grouplike_coeff(i, a, b) * m(a, j, p) * m(b, j, q) by {
            let g = |x: int| grouplike_coeff(i, a, b) * grouplike_coeff(j, x, j) * m(a, x, p) * m(b, j, q);
            lemma_sum_ext(n, bialg_sum_x(m, c, n, i, j, p, q, a, b), g);
            lemma_sum_single(n, g, j);
        }
        // sum over b: only b == i contributes
        assert forall|a: int| 0 <= a < n implies #[trigger] bialg_sum_a(m, c, n, i, j, p, q)(a)
            == grouplike_coeff(i, a, i) * m(a, j, p) * m(i, j, q) by {
            let g = |b: int| grouplike_coeff(i, a, b) * m(a, j, p) * m(b, j, q);
            lemma_sum_ext(n, bialg_sum_b(m, c, n, i, j, p, q, a), g);
            lemma_sum_single(n, g, i);
        }
        // sum over a: only a == i contributes
        let g = |a: int| grouplike_coeff(i, a, i) * m(a, j, p) * m(i, j, q);
        lemma_sum_ext(n, bialg_sum_a(m, c, n, i, j, p, q), g);
        lemma_sum_single(n, g, i);
    }
}

/// `((n - i) mod n + i) mod n == 0`.
proof fn lemma_inverse_cancels(n: int, i: int)
    requires
        0 <= i < n,
    ensures
        0 <= (n - i) % n < n,
        ((n - i) % n + i) % n == 0,
        (i + (n - i) % n) % n == 0,
{
    lemma_mod_once(n - i, n);
    lemma_mod_once((n - i) % n + i, n);
}

proof fn lemma_cyclic_antipode_axiom(n: int)
    requires
        n >= 1,
    ensures
        satisfies_antipode_axiom(cyclic_mult(n), grouplike_comult(), constant_one(), cyclic_inverse(n), n),
{
    let m = cyclic_mult(n);
    let c = grouplike_comult();
    let s = cyclic_inverse(n);
    assert forall|i: int, r: int| 0 <= i < n && 0 <= r < n implies {
        &&& #[trigger] antipode_left(m, c, s, n, i, r) == constant_one()(i) * delta(r, 0)
        &&& antipode_right(m, c, s, n, i, r) == constant_one()(i) * delta(r, 0)
    } by {
        lemma_inverse_cancels(n, i);
        let inv = (n - i) % n;
        // S(e_i) e_i
        let x = row_coeffs(s, i);
        let y = basis_coeffs(i);
        assert forall|a: int| 0 <= a < n implies #[trigger] product_sum_a(m, n, x, y, r)(a) == x(a)
            * m(a, i, r) by {
            lemma_sum_single(n, product_terms(m, x, y, r, a), i);
        }
        let g = |a: int| x(a) * m(a, i, r);
        lemma_sum_ext(n, product_sum_a(m, n, x, y, r), g);
        lemma_sum_single(n, g, inv);
        assert(product_coeff(m, n, x, y, r) == delta(r, 0));
        assert forall|j: int| 0 <= j < n implies #[trigger] antipode_left_sum_j(m, c, s, n, i, r)(j)
            == grouplike_coeff(i, j, i) * product_coeff(m, n, row_coeffs(s, j), basis_coeffs(i), r) by {
            lemma_sum_single(n, antipode_left_terms(m, c, s, n, i, r, j), i);
        }
        let gl = |j: int| grouplike_coeff(i, j, i) * product_coeff(m, n, row_coeffs(s, j), basis_coeffs(i), r);
        lemma_sum_ext(n, antipode_left_sum_j(m, c, s, n, i, r), gl);
        lemma_sum_single(n, gl, i);
        // e_i S(e_i)
        let x2 = basis_coeffs(i);
        let y2 = row_coeffs(s, i);
        assert forall|a: int| 0 <= a < n implies #[trigger] product_sum_a(m, n, x2, y2, r)(a) == x2(
            a,
        ) * m(a, inv, r) by {
            lemma_sum_single(n, product_terms(m, x2, y2, r, a), inv);
        }
        let g2 = |a: int| x2(a) * m(a, inv, r);
        lemma_sum_ext(n, product_sum_a(m, n, x2, y2, r), g2);
        lemma_sum_single(n, g2, i);
        assert(product_coeff(m, n, x2, y2, r) == delta(r, 0));
        assert forall|j: int| 0 <= j < n implies #[trigger] antipode_right_sum_j(m, c, s, n, i, r)(j)
            == grouplike_coeff(i, j, i) * product_coeff(m, n, basis_coeffs(j), row_coeffs(s, i), r) by {
            lemma_sum_single(n, antipode_right_terms(m, c, s, n, i, r, j), i);
        }
        let gr = |j: int| grouplike_coeff(i, j, i) * product_coeff(m, n, basis_coeffs(j), row_coeffs(s, i), r);
        lemma_sum_ext(n, antipode_right_sum_j(m, c, s, n, i, r), gr);
        lemma_sum_single(n, gr, i);
    }
}

/// The group algebra `k[Z_n]` with its group-like coproduct, counit 1 and inverse antipode is a
/// Hopf algebra for every order `n >= 1`: its multiplication is associative, its coproduct is
/// coassociative and counital, the coproduct is multiplicative, and `S * id = η ∘ ε = id * S`.
pub proof fn lemma_cyclic_group_is_hopf(n: int)
    requires
        n >= 1,
    ensures
        is_valid_hopf(cyclic_mult(n), grouplike_comult(), constant_one(), cyclic_inverse(n), n),
{
    lemma_cyclic_associative(n);
    lemma_grouplike_coassociative(n);
    lemma_grouplike_counit(n);
    lemma_cyclic_bialgebra(n);
    lemma_cyclic_antipode_axiom(n);
}

/// The identity element `e_0` of the group is the unit of `k[Z_n]`: `e_0 e_j = e_j = e_j e_0`.
pub proof fn lemma_cyclic_unit(n: int)
    requires
        n >= 1,
    ensures
        forall|j: int, k: int|
            0 <= j < n && 0 <= k < n ==> #[trigger] cyclic_mult(n)(0, j, k) == delta(k, j)
                && cyclic_mult(n)(j, 0, k) == delta(k, j),
{
    assert forall|j: int, k: int| 0 <= j < n && 0 <= k < n implies #[trigger] cyclic_mult(n)(0, j, k)
        == delta(k, j) && cyclic_mult(n)(j, 0, k) == delta(k, j) by {
        vstd::arithmetic::div_mod::lemma_small_mod(j as nat, n as nat);
    }
}

/// Coefficient of `e_k` in `S(S(e_i))`.
pub open spec fn antipode_twice(s: spec_fn(int, int) -> int, d: int, i: int, k: int) -> int {
    sum_to(d, antipode_twice_terms(s, i, k))
}

pub open spec fn antipode_twice_terms(s: spec_fn(int, int) -> int, i: int, k: int) -> spec_fn(int) -> int {
    |j: int| s(i, j) * s(j, k)
}

/// The antipode of `k[Z_n]` is an involution: `S(S(e_i)) = e_i`.
pub proof fn lemma_cyclic_antipode_involution(n: int)
    requires
        n >= 1,
    ensures
        forall|i: int, k: int|
            0 <= i < n && 0 <= k < n ==> #[trigger] antipode_twice(cyclic_inverse(n), n, i, k)
                == delta(i, k),
{
    let s = cyclic_inverse(n);
    assert forall|i: int, k: int| 0 <= i < n && 0 <= k < n implies #[trigger] antipode_twice(
        s,
        n,
        i,
        k,
    ) == delta(i, k) by {
        lemma_inverse_cancels(n, i);
        let inv = (n - i) % n;
        lemma_inverse_cancels(n, inv);
        lemma_sum_single(n, antipode_twice_terms(s, i, k), inv);
        // (n - inv) mod n == i
        lemma_mod_once(n - inv, n);
        lemma_mod_once(inv + i, n);
    }
}

} // verus!
