//! Integral structure constants of finite-dimensional algebras and coalgebras, finite sums
//! over basis indices, and the algebra, coalgebra and Hopf axioms stated exactly over them.
//!
//! A table `t` of structure constants holds in `t[i][j][k]` the coefficient of `e_k` in
//! `e_i * e_j` (or of `e_j ⊗ e_k` in `Δ(e_i)`); `cube_is` says which function it tabulates.
use vstd::prelude::*;

verus! {

/// `f(0) + f(1) + ... + f(n - 1)`.
pub open spec fn sum_to(n: int, f: spec_fn(int) -> int) -> int
    decreases n,
{
    if n <= 0 {
        0
    } else {
        sum_to(n - 1, f) + f(n - 1)
    }
}

/// Index of the basis vector `|i⟩ ⊗ |j⟩` of `V ⊗ W` with `dim W = d2` (row `i`, column `j`).
pub open spec fn tensor_index(d2: int, i: int, j: int) -> int {
    i * d2 + j
}

/// Kronecker delta.
pub open spec fn delta(a: int, b: int) -> int {
    if a == b {
        1
    } else {
        0
    }
}

/// `t` is an `n × n × n` table whose entries are `f`.
pub open spec fn cube_is(t: Seq<Vec<Vec<i64>>>, n: int, f: spec_fn(int, int, int) -> int) -> bool {
    &&& t.len() == n
    &&& forall|i: int| 0 <= i < n ==> (#[trigger] t[i])@.len() == n
    &&& forall|i: int, j: int| 0 <= i < n && 0 <= j < n ==> (#[trigger] t[i]@[j])@.len() == n
    &&& forall|i: int, j: int, k: int|
        0 <= i < n && 0 <= j < n && 0 <= k < n ==> #[trigger] t[i]@[j]@[k] as int == f(i, j, k)
}

/// `t` is an `n × n × n` table.
pub open spec fn is_cube(t: Seq<Vec<Vec<i64>>>, n: int) -> bool {
    &&& t.len() == n
    &&& forall|i: int| 0 <= i < n ==> (#[trigger] t[i])@.len() == n
    &&& forall|i: int, j: int| 0 <= i < n && 0 <= j < n ==> (#[trigger] t[i]@[j])@.len() == n
}

/// The entries of a three-index table as a function of the indices.
pub open spec fn table_fn(t: Seq<Vec<Vec<i64>>>) -> spec_fn(int, int, int) -> int {
    |i: int, j: int, k: int| t[i]@[j]@[k] as int
}

/// `t` is an `n × n` table whose entries are `f`.
pub open spec fn square_is(t: Seq<Vec<i64>>, n: int, f: spec_fn(int, int) -> int) -> bool {
    &&& t.len() == n
    &&& forall|i: int| 0 <= i < n ==> (#[trigger] t[i])@.len() == n
    &&& forall|i: int, j: int| 0 <= i < n && 0 <= j < n ==> #[trigger] t[i]@[j] as int == f(i, j)
}

/// `t` is a list of `n` constants whose entries are `f`.
pub open spec fn line_is(t: Seq<i64>, n: int, f: spec_fn(int) -> int) -> bool {
    &&& t.len() == n
    &&& forall|i: int| 0 <= i < n ==> #[trigger] t[i] as int == f(i)
}

// ---------------------------------------------------------------------------
// Building tables
// ---------------------------------------------------------------------------

/// The `n × n × n` table with entries `entry(param, i, j, k)`.
pub(crate) fn build_cube<F: Fn(usize, usize, usize, usize) -> i64>(
    n: usize,
    param: usize,
    entry: F,
    Ghost(f): Ghost<spec_fn(int, int, int) -> int>,
) -> (t: Vec<Vec<Vec<i64>>>)
    requires
        forall|i: usize, j: usize, k: usize|
            i < n && j < n && k < n ==> #[trigger] entry.requires((param, i, j, k)),
        forall|i: usize, j: usize, k: usize, r: i64|
            i < n && j < n && k < n && #[trigger] entry.ensures((param, i, j, k), r) ==> r as int
                == f(i as int, j as int, k as int),
    ensures
        cube_is(t@, n as int, f),
{
    let mut t: Vec<Vec<Vec<i64>>> = Vec::new();
    let mut i: usize = 0;
    while i < n
        invariant
            i <= n,
            forall|i: usize, j: usize, k: usize|
                i < n && j < n && k < n ==> #[trigger] entry.requires((param, i, j, k)),
            forall|i: usize, j: usize, k: usize, r: i64|
                i < n && j < n && k < n && #[trigger] entry.ensures((param, i, j, k), r) ==> r as int
                    == f(i as int, j as int, k as int),
            t@.len() == i,
            forall|a: int| 0 <= a < i ==> (#[trigger] t@[a])@.len() == n,
            forall|a: int, b: int| 0 <= a < i && 0 <= b < n ==> (#[trigger] t@[a]@[b])@.len() == n,
            forall|a: int, b: int, c: int|
                0 <= a < i && 0 <= b < n && 0 <= c < n ==> #[trigger] t@[a]@[b]@[c] as int == f(a, b, c),
        decreases n - i,
    {
        let mut plane: Vec<Vec<i64>> = Vec::new();
        let mut j: usize = 0;
        while j < n
            invariant
                i < n,
                j <= n,
                forall|i: usize, j: usize, k: usize|
                    i < n && j < n && k < n ==> #[trigger] entry.requires((param, i, j, k)),
                forall|i: usize, j: usize, k: usize, r: i64|
                    i < n && j < n && k < n && #[trigger] entry.ensures((param, i, j, k), r) ==> r as int
                        == f(i as int, j as int, k as int),
                plane@.len() == j,
                forall|b: int| 0 <= b < j ==> (#[trigger] plane@[b])@.len() == n,
                forall|b: int, c: int|
                    0 <= b < j && 0 <= c < n ==> #[trigger] plane@[b]@[c] as int == f(i as int, b, c),
            decreases n - j,
        {
            let mut line: Vec<i64> = Vec::new();
            let mut k: usize = 0;
            while k < n
                invariant
                    i < n,
                    j < n,
                    k <= n,
                    forall|i: usize, j: usize, k: usize|
                        i < n && j < n && k < n ==> #[trigger] entry.requires((param, i, j, k)),
                    forall|i: usize, j: usize, k: usize, r: i64|
                        i < n && j < n && k < n && #[trigger] entry.ensures((param, i, j, k), r)
                            ==> r as int == f(i as int, j as int, k as int),
                    line@.len() == k,
                    forall|c: int| 0 <= c < k ==> #[trigger] line@[c] as int == f(i as int, j as int, c),
                decreases n - k,
            {
                let v = entry(param, i, j, k);
                line.push(v);
                k = k + 1;
            }
            plane.push(line);
            j = j + 1;
        }
        t.push(plane);
        i = i + 1;
    }
    t
}

/// The `n × n` table with entries `entry(param, i, j)`.
pub(crate) fn build_square<F: Fn(usize, usize, usize) -> i64>(
    n: usize,
    param: usize,
    entry: F,
    Ghost(f): Ghost<spec_fn(int, int) -> int>,
) -> (t: Vec<Vec<i64>>)
    requires
        forall|i: usize, j: usize| i < n && j < n ==> #[trigger] entry.requires((param, i, j)),
        forall|i: usize, j: usize, r: i64|
            i < n && j < n && #[trigger] entry.ensures((param, i, j), r) ==> r as int == f(
                i as int,
                j as int,
            ),
    ensures
        square_is(t@, n as int, f),
{
    let mut t: Vec<Vec<i64>> = Vec::new();
    let mut i: usize = 0;
    while i < n
        invariant
            i <= n,
            forall|i: usize, j: usize| i < n && j < n ==> #[trigger] entry.requires((param, i, j)),
            forall|i: usize, j: usize, r: i64|
                i < n && j < n && #[trigger] entry.ensures((param, i, j), r) ==> r as int == f(
                    i as int,
                    j as int,
                ),
            t@.len() == i,
            forall|a: int| 0 <= a < i ==> (#[trigger] t@[a])@.len() == n,
            forall|a: int, b: int| 0 <= a < i && 0 <= b < n ==> #[trigger] t@[a]@[b] as int == f(a, b),
        decreases n - i,
    {
        let mut line: Vec<i64> = Vec::new();
        let mut j: usize = 0;
        while j < n
            invariant
                i < n,
                j <= n,
                forall|i: usize, j: usize| i < n && j < n ==> #[trigger] entry.requires((param, i, j)),
                forall|i: usize, j: usize, r: i64|
                    i < n && j < n && #[trigger] entry.ensures((param, i, j), r) ==> r as int == f(
                        i as int,
                        j as int,
                    ),
                line@.len() == j,
                forall|b: int| 0 <= b < j ==> #[trigger] line@[b] as int == f(i as int, b),
            decreases n - j,
        {
            let v = entry(param, i, j);
            line.push(v);
            j = j + 1;
        }
        t.push(line);
        i = i + 1;
    }
    t
}

// ---------------------------------------------------------------------------
// Finite sums
// ---------------------------------------------------------------------------

/// Sums of functions that agree on `0 .. n` agree.
pub proof fn lemma_sum_ext(n: int, f: spec_fn(int) -> int, g: spec_fn(int) -> int)
    requires
        forall|l: int| 0 <= l < n ==> #[trigger] f(l) == g(l),
    ensures
        sum_to(n, f) == sum_to(n, g),
    decreases n,
{
    if n > 0 {
        lemma_sum_ext(n - 1, f, g);
    }
}

/// A sum whose terms vanish away from `l0` is its term at `l0` (or zero when `l0` is out of range).
pub proof fn lemma_sum_single(n: int, f: spec_fn(int) -> int, l0: int)
    requires
        forall|l: int| 0 <= l < n && l != l0 ==> #[trigger] f(l) == 0,
    ensures
        sum_to(n, f) == (if 0 <= l0 < n {
            f(l0)
        } else {
            0
        }),
    decreases n,
{
    if n > 0 {
        lemma_sum_single(n - 1, f, l0);
    }
}

/// Reduction modulo `n` of a value in `0 .. 2n`.
pub proof fn lemma_mod_once(x: int, n: int)
    requires
        0 < n,
        0 <= x < 2 * n,
    ensures
        x % n == (if x < n {
            x
        } else {
            x - n
        }),
{
    if x < n {
        vstd::arithmetic::div_mod::lemma_fundamental_div_mod_converse_mod(x, n, 0, x);
    } else {
        vstd::arithmetic::div_mod::lemma_fundamental_div_mod_converse_mod(x, n, 1, x - n);
    }
}

// ---------------------------------------------------------------------------
// Associative algebras
// ---------------------------------------------------------------------------

/// Coefficient of `e_p` in `(e_i e_j) e_k`.
pub open spec fn assoc_left(m: spec_fn(int, int, int) -> int, d: int, i: int, j: int, k: int, p: int) -> int {
    sum_to(d, assoc_left_terms(m, i, j, k, p))
}

pub open spec fn assoc_left_terms(m: spec_fn(int, int, int) -> int, i: int, j: int, k: int, p: int) -> spec_fn(int) -> int {
    |l: int| m(i, j, l) * m(l, k, p)
}

/// Coefficient of `e_p` in `e_i (e_j e_k)`.
pub open spec fn assoc_right(m: spec_fn(int, int, int) -> int, d: int, i: int, j: int, k: int, p: int) -> int {
    sum_to(d, assoc_right_terms(m, i, j, k, p))
}

pub open spec fn assoc_right_terms(m: spec_fn(int, int, int) -> int, i: int, j: int, k: int, p: int) -> spec_fn(int) -> int {
    |l: int| m(i, l, p) * m(j, k, l)
}

/// The multiplication with structure constants `m` on a `d`-dimensional space is associative.
pub open spec fn is_associative(m: spec_fn(int, int, int) -> int, d: int) -> bool {
    forall|i: int, j: int, k: int, p: int|
        0 <= i < d && 0 <= j < d && 0 <= k < d && 0 <= p < d ==> #[trigger] assoc_left(m, d, i, j, k, p)
            == assoc_right(m, d, i, j, k, p)
}

// ---------------------------------------------------------------------------
// Coalgebras
// ---------------------------------------------------------------------------

/// Coefficient of `e_x ⊗ e_y ⊗ e_z` in `(Δ ⊗ id) Δ(e_i)`.
pub open spec fn coassoc_left(c: spec_fn(int, int, int) -> int, d: int, i: int, x: int, y: int, z: int) -> int {
    sum_to(d, coassoc_left_terms(c, i, x, y, z))
}

pub open spec fn coassoc_left_terms(c: spec_fn(int, int, int) -> int, i: int, x: int, y: int, z: int) -> spec_fn(int) -> int {
    |j: int| c(i, j, z) * c(j, x, y)
}

/// Coefficient of `e_x ⊗ e_y ⊗ e_z` in `(id ⊗ Δ) Δ(e_i)`.
pub open spec fn coassoc_right(c: spec_fn(int, int, int) -> int, d: int, i: int, x: int, y: int, z: int) -> int {
    sum_to(d, coassoc_right_terms(c, i, x, y, z))
}

pub open spec fn coassoc_right_terms(c: spec_fn(int, int, int) -> int, i: int, x: int, y: int, z: int) -> spec_fn(int) -> int {
    |k: int| c(i, x, k) * c(k, y, z)
}

/// The comultiplication with constants `c` is coassociative.
pub open spec fn is_coassociative(c: spec_fn(int, int, int) -> int, d: int) -> bool {
    forall|i: int, x: int, y: int, z: int|
        0 <= i < d && 0 <= x < d && 0 <= y < d && 0 <= z < d ==> #[trigger] coassoc_left(c, d, i, x, y, z)
            == coassoc_right(c, d, i, x, y, z)
}

/// Coefficient of `e_k` in `(ε ⊗ id) Δ(e_i)`.
pub open spec fn counit_left(c: spec_fn(int, int, int) -> int, e: spec_fn(int) -> int, d: int, i: int, k: int) -> int {
    sum_to(d, counit_left_terms(c, e, i, k))
}

pub open spec fn counit_left_terms(c: spec_fn(int, int, int) -> int, e: spec_fn(int) -> int, i: int, k: int) -> spec_fn(int) -> int {
    |j: int| c(i, j, k) * e(j)
}

/// Coefficient of `e_j` in `(id ⊗ ε) Δ(e_i)`.
pub open spec fn counit_right(c: spec_fn(int, int, int) -> int, e: spec_fn(int) -> int, d: int, i: int, j: int) -> int {
    sum_to(d, counit_right_terms(c, e, i, j))
}

pub open spec fn counit_right_terms(c: spec_fn(int, int, int) -> int, e: spec_fn(int) -> int, i: int, j: int) -> spec_fn(int) -> int {
    |k: int| c(i, j, k) * e(k)
}

/// `(ε ⊗ id) ∘ Δ = id = (id ⊗ ε) ∘ Δ`.
pub open spec fn satisfies_counit_axiom(c: spec_fn(int, int, int) -> int, e: spec_fn(int) -> int, d: int) -> bool {
    &&& forall|i: int, k: int|
        0 <= i < d && 0 <= k < d ==> #[trigger] counit_left(c, e, d, i, k) == delta(k, i)
    &&& forall|i: int, j: int|
        0 <= i < d && 0 <= j < d ==> #[trigger] counit_right(c, e, d, i, j) == delta(j, i)
}

// ---------------------------------------------------------------------------
// Bialgebras and Hopf algebras
// ---------------------------------------------------------------------------

/// Coefficient of `e_a ⊗ e_b` in `Δ(e_i e_j)`.
pub open spec fn bialg_left(m: spec_fn(int, int, int) -> int, c: spec_fn(int, int, int) -> int, d: int, i: int, j: int, a: int, b: int) -> int {
    sum_to(d, bialg_left_terms(m, c, i, j, a, b))
}

pub open spec fn bialg_left_terms(m: spec_fn(int, int, int) -> int, c: spec_fn(int, int, int) -> int, i: int, j: int, a: int, b: int) -> spec_fn(int) -> int {
    |t: int| m(i, j, t) * c(t, a, b)
}

/// Coefficient of `e_p ⊗ e_q` in `Δ(e_i) Δ(e_j)`, the product taken factorwise:
/// `Σ_{a,b,x,y} c(i,a,b) c(j,x,y) m(a,x,p) m(b,y,q)`.
pub open spec fn bialg_right(m: spec_fn(int, int, int) -> int, c: spec_fn(int, int, int) -> int, d: int, i: int, j: int, p: int, q: int) -> int {
    sum_to(d, bialg_sum_a(m, c, d, i, j, p, q))
}

pub open spec fn bialg_sum_a(m: spec_fn(int, int, int) -> int, c: spec_fn(int, int, int) -> int, d: int, i: int, j: int, p: int, q: int) -> spec_fn(int) -> int {
    |a: int| sum_to(d, bialg_sum_b(m, c, d, i, j, p, q, a))
}

pub open spec fn bialg_sum_b(m: spec_fn(int, int, int) -> int, c: spec_fn(int, int, int) -> int, d: int, i: int, j: int, p: int, q: int, a: int) -> spec_fn(int) -> int {
    |b: int| sum_to(d, bialg_sum_x(m, c, d, i, j, p, q, a, b))
}

pub open spec fn bialg_sum_x(m: spec_fn(int, int, int) -> int, c: spec_fn(int, int, int) -> int, d: int, i: int, j: int, p: int, q: int, a: int, b: int) -> spec_fn(int) -> int {
    |x: int| sum_to(d, bialg_right_terms(m, c, i, j, p, q, a, b, x))
}

pub open spec fn bialg_right_terms(m: spec_fn(int, int, int) -> int, c: spec_fn(int, int, int) -> int, i: int, j: int, p: int, q: int, a: int, b: int, x: int) -> spec_fn(int) -> int {
    |y: int| c(i, a, b) * c(j, x, y) * m(a, x, p) * m(b, y, q)
}

/// The comultiplication is multiplicative: `Δ(xy) = Δ(x) Δ(y)` on basis elements.
pub open spec fn is_bialgebra(m: spec_fn(int, int, int) -> int, c: spec_fn(int, int, int) -> int, d: int) -> bool {
    forall|i: int, j: int, a: int, b: int|
        0 <= i < d && 0 <= j < d && 0 <= a < d && 0 <= b < d ==> #[trigger] bialg_left(m, c, d, i, j, a, b)
            == bialg_right(m, c, d, i, j, a, b)
}

/// The basis element `e_k` as a coefficient function.
pub open spec fn basis_coeffs(k: int) -> spec_fn(int) -> int {
    |b: int| delta(k, b)
}

/// Row `j` of a two-index table as a coefficient function.
pub open spec fn row_coeffs(s: spec_fn(int, int) -> int, j: int) -> spec_fn(int) -> int {
    |a: int| s(j, a)
}

/// Coefficient of `e_r` in the product `x y` of two elements given by their coefficients:
/// `Σ_{a,b} x(a) y(b) m(a,b,r)`.
pub open spec fn product_coeff(m: spec_fn(int, int, int) -> int, d: int, x: spec_fn(int) -> int, y: spec_fn(int) -> int, r: int) -> int {
    sum_to(d, product_sum_a(m, d, x, y, r))
}

pub open spec fn product_sum_a(m: spec_fn(int, int, int) -> int, d: int, x: spec_fn(int) -> int, y: spec_fn(int) -> int, r: int) -> spec_fn(int) -> int {
    |a: int| sum_to(d, product_terms(m, x, y, r, a))
}

pub open spec fn product_terms(m: spec_fn(int, int, int) -> int, x: spec_fn(int) -> int, y: spec_fn(int) -> int, r: int, a: int) -> spec_fn(int) -> int {
    |b: int| x(a) * y(b) * m(a, b, r)
}

/// Coefficient of `e_r` in `(S * id)(e_i) = Σ_{j,k} c(i,j,k) S(e_j) e_k`.
pub open spec fn antipode_left(m: spec_fn(int, int, int) -> int, c: spec_fn(int, int, int) -> int, s: spec_fn(int, int) -> int, d: int, i: int, r: int) -> int {
    sum_to(d, antipode_left_sum_j(m, c, s, d, i, r))
}

pub open spec fn antipode_left_sum_j(m: spec_fn(int, int, int) -> int, c: spec_fn(int, int, int) -> int, s: spec_fn(int, int) -> int, d: int, i: int, r: int) -> spec_fn(int) -> int {
    |j: int| sum_to(d, antipode_left_terms(m, c, s, d, i, r, j))
}

pub open spec fn antipode_left_terms(m: spec_fn(int, int, int) -> int, c: spec_fn(int, int, int) -> int, s: spec_fn(int, int) -> int, d: int, i: int, r: int, j: int) -> spec_fn(int) -> int {
    |k: int| c(i, j, k) * product_coeff(m, d, row_coeffs(s, j), basis_coeffs(k), r)
}

/// Coefficient of `e_r` in `(id * S)(e_i) = Σ_{j,k} c(i,j,k) e_j S(e_k)`.
pub open spec fn antipode_right(m: spec_fn(int, int, int) -> int, c: spec_fn(int, int, int) -> int, s: spec_fn(int, int) -> int, d: int, i: int, r: int) -> int {
    sum_to(d, antipode_right_sum_j(m, c, s, d, i, r))
}

pub open spec fn antipode_right_sum_j(m: spec_fn(int, int, int) -> int, c: spec_fn(int, int, int) -> int, s: spec_fn(int, int) -> int, d: int, i: int, r: int) -> spec_fn(int) -> int {
    |j: int| sum_to(d, antipode_right_terms(m, c, s, d, i, r, j))
}

pub open spec fn antipode_right_terms(m: spec_fn(int, int, int) -> int, c: spec_fn(int, int, int) -> int, s: spec_fn(int, int) -> int, d: int, i: int, r: int, j: int) -> spec_fn(int) -> int {
    |k: int| c(i, j, k) * product_coeff(m, d, basis_coeffs(j), row_coeffs(s, k), r)
}

/// `S * id = η ∘ ε = id * S`, with the unit `e_0`.
pub open spec fn satisfies_antipode_axiom(m: spec_fn(int, int, int) -> int, c: spec_fn(int, int, int) -> int, e: spec_fn(int) -> int, s: spec_fn(int, int) -> int, d: int) -> bool {
    forall|i: int, r: int|
        0 <= i < d && 0 <= r < d ==> {
            &&& #[trigger] antipode_left(m, c, s, d, i, r) == e(i) * delta(r, 0)
            &&& antipode_right(m, c, s, d, i, r) == e(i) * delta(r, 0)
        }
}

// ---------------------------------------------------------------------------
// Lie algebras
// ---------------------------------------------------------------------------

/// `[e_i, e_j] = -[e_j, e_i]` for the bracket with structure constants `b`.
pub open spec fn is_antisymmetric(b: spec_fn(int, int, int) -> int, d: int) -> bool {
    forall|i: int, j: int, k: int|
        0 <= i < d && 0 <= j < d && 0 <= k < d ==> #[trigger] b(i, j, k) + b(j, i, k) == 0
}

/// Coefficient of `e_m` in `[e_i,[e_j,e_k]] + [e_j,[e_k,e_i]] + [e_k,[e_i,e_j]]`.
pub open spec fn jacobi_sum(b: spec_fn(int, int, int) -> int, d: int, i: int, j: int, k: int, m: int) -> int {
    sum_to(d, jacobi_terms(b, i, j, k, m))
}

pub open spec fn jacobi_terms(b: spec_fn(int, int, int) -> int, i: int, j: int, k: int, m: int) -> spec_fn(int) -> int {
    |l: int| b(j, k, l) * b(i, l, m) + b(k, i, l) * b(j, l, m) + b(i, j, l) * b(k, l, m)
}

/// The Jacobi identity holds on all basis triples.
pub open spec fn satisfies_jacobi(b: spec_fn(int, int, int) -> int, d: int) -> bool {
    forall|i: int, j: int, k: int, m: int|
        0 <= i < d && 0 <= j < d && 0 <= k < d && 0 <= m < d ==> #[trigger] jacobi_sum(b, d, i, j, k, m)
            == 0
}

/// Associative algebra, coassociative counital coalgebra, bialgebra, and antipode.
pub open spec fn is_valid_hopf(m: spec_fn(int, int, int) -> int, c: spec_fn(int, int, int) -> int, e: spec_fn(int) -> int, s: spec_fn(int, int) -> int, d: int) -> bool {
    &&& is_associative(m, d)
    &&& is_coassociative(c, d)
    &&& satisfies_counit_axiom(c, e, d)
    &&& is_bialgebra(m, c, d)
    &&& satisfies_antipode_axiom(m, c, e, s, d)
}

} // verus!
