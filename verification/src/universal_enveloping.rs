//! The Lie algebra sl(2) and the PBW-truncated enveloping algebra of a Lie algebra.
use crate::monomial::{
    degree, generate_monomials, is_monomial, lemma_lex_irreflexive, lex_lt, power, zero_monomial,
};
use crate::pbw::{
    bracket_terms, descent_from, lemma_count_concat, lemma_count_member, lemma_descent,
    lemma_coeff_bound_mono, lemma_sorted_same_letters, lemma_vanishing_bracket_coeff,
    lemma_word_fits_bounded, bracket_bounded, coeff_bound, letter_count, letters_below,
    replace_pair, same_letters, straighten_coeff, swap_at, word_coeff, word_fits,
};
use crate::structure::{
    assoc_left, assoc_left_terms, assoc_right, assoc_right_terms, build_cube, cube_is, delta,
    is_antisymmetric, is_associative, is_cube, jacobi_sum, jacobi_terms,
    lemma_sum_single, satisfies_jacobi, sum_to, table_fn,
};
use vstd::prelude::*;

verus! {

// ---------------------------------------------------------------------------
// sl(2)
// ---------------------------------------------------------------------------

/// Structure constants of sl(2) in the basis `e_0 = e, e_1 = f, e_2 = h`:
/// `[e, f] = h`, `[h, e] = 2e`, `[h, f] = -2f`, and the antisymmetric counterparts.
pub open spec fn sl2_coeff(i: int, j: int, k: int) -> int {
    if i == 0 && j == 1 && k == 2 {
        1
    } else if i == 1 && j == 0 && k == 2 {
        -1
    } else if i == 2 && j == 0 && k == 0 {
        2
    } else if i == 0 && j == 2 && k == 0 {
        -2
    } else if i == 2 && j == 1 && k == 1 {
        -2
    } else if i == 1 && j == 2 && k == 1 {
        2
    } else {
        0
    }
}

pub open spec fn sl2_bracket_spec() -> spec_fn(int, int, int) -> int {
    |i: int, j: int, k: int| sl2_coeff(i, j, k)
}

fn sl2_entry(unused: usize, i: usize, j: usize, k: usize) -> (r: i64)
    ensures
        r == sl2_coeff(i as int, j as int, k as int),
{
    if i == 0 && j == 1 && k == 2 {
        1
    } else if i == 1 && j == 0 && k == 2 {
        -1
    } else if i == 2 && j == 0 && k == 0 {
        2
    } else if i == 0 && j == 2 && k == 0 {
        -2
    } else if i == 2 && j == 1 && k == 1 {
        -2
    } else if i == 1 && j == 2 && k == 1 {
        2
    } else {
        0
    }
}

/// The bracket table of sl(2): `bracket[i][j][k]` is the coefficient of `e_k` in `[e_i, e_j]`.
pub fn sl2_bracket() -> (bracket: Vec<Vec<Vec<i64>>>)
    ensures
        cube_is(bracket@, 3, sl2_bracket_spec()),
{
    build_cube(3, 0, sl2_entry, Ghost(sl2_bracket_spec()))
}

/// The sl(2) bracket is antisymmetric.
pub proof fn lemma_sl2_antisymmetric()
    ensures
        is_antisymmetric(sl2_bracket_spec(), 3),
{
}

/// The sl(2) bracket satisfies the Jacobi identity.
#[verifier::spinoff_prover]
pub proof fn lemma_sl2_jacobi()
    ensures
        satisfies_jacobi(sl2_bracket_spec(), 3),
{
    let b = sl2_bracket_spec();
    assert forall|i: int, j: int, k: int, m: int|
        0 <= i < 3 && 0 <= j < 3 && 0 <= k < 3 && 0 <= m < 3 implies #[trigger] jacobi_sum(
        b,
        3,
        i,
        j,
        k,
        m,
    ) == 0 by {
        let f = jacobi_terms(b, i, j, k, m);
        assert(sum_to(3, f) == f(0) + f(1) + f(2)) by {
            reveal_with_fuel(sum_to, 4);
        }
        assert(f(0) + f(1) + f(2) == 0) by (nonlinear_arith)
            requires
                0 <= i < 3,
                0 <= j < 3,
                0 <= k < 3,
                0 <= m < 3,
                f == jacobi_terms(sl2_bracket_spec(), i, j, k, m),
        ;
    }
}

// ---------------------------------------------------------------------------
// Words of PBW monomials
// ---------------------------------------------------------------------------

/// The ordered word `0^{d_0} 1^{d_1} ... (n-1)^{d_{n-1}}` of the monomial with exponents `d`.
pub open spec fn monomial_word(d: Seq<usize>) -> Seq<usize>
    decreases d.len(),
{
    if d.len() == 0 {
        Seq::<usize>::empty()
    } else {
        monomial_word(d.drop_last()) + Seq::new(d.last() as nat, |t: int| (d.len() - 1) as usize)
    }
}

/// The exponent vector of the generator `x_i` among `n` generators.
pub open spec fn unit_monomial(n: int, i: int) -> Seq<usize> {
    Seq::new(n as nat, |t: int| if t == i { 1usize } else { 0usize })
}

/// The letters of a monomial word are generator indices, in nondecreasing order.
pub proof fn lemma_monomial_word_ordered(d: Seq<usize>)
    requires
        d.len() <= usize::MAX,
    ensures
        letters_below(monomial_word(d), d.len() as int),
        forall|p: int, q: int|
            0 <= p < q < monomial_word(d).len() ==> #[trigger] monomial_word(d)[p] <= #[trigger] monomial_word(d)[q],
        descent_from(monomial_word(d), 0) == -1,
    decreases d.len(),
{
    let w = monomial_word(d);
    if d.len() > 0 {
        lemma_monomial_word_ordered(d.drop_last());
        let w0 = monomial_word(d.drop_last());
        let last = (d.len() - 1) as usize;
        assert(last == d.len() - 1);
        assert forall|t: int| w0.len() <= t < w.len() implies #[trigger] w[t] == last by {}
        assert forall|t: int| 0 <= t < w0.len() implies #[trigger] w[t] == w0[t] && w0[t] < last by {}
        assert forall|t: int| 0 <= t < w.len() implies #[trigger] w[t] < d.len() by {
            if t < w0.len() {
                assert(w[t] == w0[t] && w0[t] < last);
            } else {
                assert(w[t] == last);
            }
        }
        assert forall|p: int, q: int| 0 <= p < q < w.len() implies #[trigger] w[p] <= #[trigger] w[q] by {
            if q < w0.len() {
                assert(w[p] == w0[p] && w[q] == w0[q]);
            } else if p < w0.len() {
                assert(w[p] == w0[p] && w0[p] < last);
                assert(w[q] == last);
            } else {
                assert(w[p] == last);
                assert(w[q] == last);
            }
        }
    }
    lemma_descent(w, 0);
    if descent_from(w, 0) >= 0 {
        let p = descent_from(w, 0);
        assert(w[p] <= w[p + 1]);
    }
}

/// Distinct exponent vectors of the same length have distinct words.
pub proof fn lemma_monomial_word_injective(d1: Seq<usize>, d2: Seq<usize>)
    requires
        d1.len() == d2.len(),
        d1.len() <= usize::MAX,
        monomial_word(d1) == monomial_word(d2),
    ensures
        d1 == d2,
    decreases d1.len(),
{
    if d1.len() > 0 {
        let last = (d1.len() - 1) as usize;
        assert(last == d1.len() - 1);
        let w = monomial_word(d1);
        let a1 = monomial_word(d1.drop_last());
        let a2 = monomial_word(d2.drop_last());
        lemma_monomial_word_ordered(d1.drop_last());
        lemma_monomial_word_ordered(d2.drop_last());
        let s1 = Seq::new(d1.last() as nat, |t: int| last);
        let s2 = Seq::new(d2.last() as nat, |t: int| last);
        assert(w =~= a1 + s1);
        assert(w =~= a2 + s2);
        if d1.last() < d2.last() {
            let t = a1.len() - 1;
            assert((a1 + s1)[t] == a1[t]);
            assert(a1[t] < last);
            assert((a2 + s2)[t] == s2[t - a2.len()]);
            assert(false);
        } else if d2.last() < d1.last() {
            let t = a2.len() - 1;
            assert((a2 + s2)[t] == a2[t]);
            assert(a2[t] < last);
            assert((a1 + s1)[t] == s1[t - a1.len()]);
            assert(false);
        }
        assert(a1.len() == a2.len());
        assert(a1 =~= w.take(a1.len() as int));
        assert(a2 =~= w.take(a2.len() as int));
        assert(a1 == a2);
        lemma_monomial_word_injective(d1.drop_last(), d2.drop_last());
        assert(d1 =~= d2.drop_last().push(d2.last()));
    }
}

/// The word of the generator `x_i` is the single letter `i`.
pub proof fn lemma_monomial_word_unit(n: int, i: int)
    requires
        0 <= i < n,
        n <= usize::MAX,
    ensures
        monomial_word(unit_monomial(n, i)) == seq![i as usize],
{
    lemma_word_of_unit_prefix(n, i, n);
    assert(unit_monomial(n, i).take(n) =~= unit_monomial(n, i));
}

/// The word of the monomial 1 is empty.
pub proof fn lemma_monomial_word_zero(n: int)
    requires
        0 <= n,
    ensures
        monomial_word(zero_monomial(n)) == Seq::<usize>::empty(),
{
    lemma_word_of_zero_prefix(n, n);
    assert(zero_monomial(n).take(n) =~= zero_monomial(n));
}

proof fn lemma_word_of_unit_prefix(n: int, i: int, m: int)
    requires
        0 <= i < n,
        0 <= m <= n,
    ensures
        monomial_word(unit_monomial(n, i).take(m)) == (if m > i {
            seq![i as usize]
        } else {
            Seq::<usize>::empty()
        }),
    decreases m,
{
    let u = unit_monomial(n, i);
    if m > 0 {
        lemma_word_of_unit_prefix(n, i, m - 1);
        assert(u.take(m).drop_last() =~= u.take(m - 1));
        if m - 1 == i {
            assert(monomial_word(u.take(m)) =~= seq![i as usize]);
        } else {
            assert(monomial_word(u.take(m)) =~= monomial_word(u.take(m - 1)));
        }
    } else {
        assert(u.take(0) =~= Seq::<usize>::empty());
    }
}

proof fn lemma_word_of_zero_prefix(n: int, m: int)
    requires
        0 <= m <= n,
    ensures
        monomial_word(zero_monomial(n).take(m)) == Seq::<usize>::empty(),
    decreases m,
{
    let z = zero_monomial(n);
    if m > 0 {
        lemma_word_of_zero_prefix(n, m - 1);
        assert(z.take(m).drop_last() =~= z.take(m - 1));
        assert(monomial_word(z.take(m)) =~= monomial_word(z.take(m - 1)));
    } else {
        assert(z.take(0) =~= Seq::<usize>::empty());
    }
}

fn monomial_word_exec(d: &Vec<usize>) -> (w: Vec<usize>)
    ensures
        w@ == monomial_word(d@),
{
    let mut w: Vec<usize> = Vec::new();
    let mut t: usize = 0;
    while t < d.len()
        invariant
            t <= d@.len(),
            w@ == monomial_word(d@.take(t as int)),
        decreases d@.len() - t,
    {
        let ghost before = w@;
        let mut c: usize = 0;
        while c < d[t]
            invariant
                t < d@.len(),
                c <= d@[t as int],
                w@ == before + Seq::new(c as nat, |s: int| t),
            decreases d@[t as int] - c,
        {
            w.push(t);
            c = c + 1;
            assert(w@ =~= before + Seq::new(c as nat, |s: int| t));
        }
        assert(d@.take(t + 1).drop_last() =~= d@.take(t as int));
        t = t + 1;
    }
    assert(d@.take(d@.len() as int) =~= d@);
    w
}

fn concat_words(a: &Vec<usize>, b: &Vec<usize>) -> (w: Vec<usize>)
    ensures
        w@ == a@ + b@,
{
    let mut w = a.clone();
    assert(w@ =~= a@);
    let mut t: usize = 0;
    while t < b.len()
        invariant
            t <= b@.len(),
            w@ == a@ + b@.take(t as int),
        decreases b@.len() - t,
    {
        w.push(b[t]);
        t = t + 1;
        assert(w@ =~= a@ + b@.take(t as int));
    }
    assert(b@.take(b@.len() as int) =~= b@);
    w
}

// ---------------------------------------------------------------------------
// The enveloping algebra truncated at a degree
// ---------------------------------------------------------------------------

/// Coefficient of the `k`-th monomial in the product of the `i`-th and `j`-th, in U(g) with
/// bracket constants `b`: the PBW normal form of the concatenated words.
pub open spec fn pbw_coeff(b: spec_fn(int, int, int) -> int, n: int, mons: Seq<Seq<usize>>, i: int, j: int, k: int) -> int {
    word_coeff(b, n as nat, monomial_word(mons[i]) + monomial_word(mons[j]), monomial_word(mons[k]))
}

/// Structure constants of the truncated enveloping algebra with monomial basis `mons`.
pub open spec fn pbw_mult(b: spec_fn(int, int, int) -> int, n: int, mons: Seq<Seq<usize>>) -> spec_fn(int, int, int) -> int {
    |i: int, j: int, k: int| pbw_coeff(b, n, mons, i, j, k)
}

/// The straightening of the product of monomials `i` and `j`, read at monomial `k`, stays in `i64`.
pub open spec fn pbw_entry_fits(b: spec_fn(int, int, int) -> int, n: int, mons: Seq<Seq<usize>>, i: int, j: int, k: int) -> bool {
    word_fits(b, n as nat, monomial_word(mons[i]) + monomial_word(mons[j]), monomial_word(mons[k]))
}

/// Every structure constant of the truncated enveloping algebra is computed within `i64`.
pub open spec fn pbw_table_fits(b: spec_fn(int, int, int) -> int, n: int, mons: Seq<Seq<usize>>) -> bool {
    forall|i: int, j: int, k: int|
        0 <= i < mons.len() && 0 <= j < mons.len() && 0 <= k < mons.len() ==> #[trigger] pbw_entry_fits(
            b,
            n,
            mons,
            i,
            j,
            k,
        )
}

/// The exponent vectors held by a list of vectors.
pub open spec fn monomial_views(v: Seq<Vec<usize>>) -> Seq<Seq<usize>> {
    Seq::new(v.len(), |a: int| v[a]@)
}

/// `mons` lists every monomial in `dim` generators of degree at most `max_degree`, once each,
/// in increasing lexicographic order, starting with the monomial 1.
pub open spec fn is_monomial_basis(mons: Seq<Seq<usize>>, dim: int, max_degree: int) -> bool {
    &&& mons.len() >= 1
    &&& mons[0] == zero_monomial(dim)
    &&& forall|a: int| 0 <= a < mons.len() ==> is_monomial(#[trigger] mons[a], dim, max_degree)
    &&& forall|a: int, b: int|
        0 <= a < b < mons.len() ==> lex_lt(#[trigger] mons[a], #[trigger] mons[b])
    &&& forall|v: Seq<usize>|
        #[trigger] is_monomial(v, dim, max_degree) ==> exists|a: int|
            0 <= a < mons.len() && #[trigger] mons[a] == v
}

/// Universal enveloping algebra U(g) of a Lie algebra g, represented by the PBW monomials of
/// degree at most `max_degree` and the multiplication table of U(g) taken modulo the Lie
/// bracket relations: products are brought into PBW order with `x_j x_i = x_i x_j + [x_j, x_i]`,
/// and monomials of degree above `max_degree` are dropped.
#[derive(Debug)]
pub struct UniversalEnvelopingAlgebra {
    pub lie_dim: usize,
    pub max_degree: usize,
    /// Monomials: exponent vectors `[d_0, d_1, ..., d_{n-1}]`.
    pub monomials: Vec<Vec<usize>>,
    /// `mult_table[i][j][k]` is the coefficient of monomial `k` in the product of monomials `i` and `j`.
    pub mult_table: Vec<Vec<Vec<i64>>>,
}

/// Distinct positions of a monomial basis hold distinct monomials.
pub proof fn lemma_basis_distinct(mons: Seq<Seq<usize>>, dim: int, max_degree: int, a: int, b: int)
    requires
        is_monomial_basis(mons, dim, max_degree),
        0 <= a < mons.len(),
        0 <= b < mons.len(),
        a != b,
    ensures
        mons[a] != mons[b],
{
    if a < b {
        assert(lex_lt(mons[a], mons[b]));
    } else {
        assert(lex_lt(mons[b], mons[a]));
    }
    lemma_lex_irreflexive(mons[a]);
}

/// The word of a monomial has as many letters as the monomial's degree.
pub proof fn lemma_monomial_word_len(d: Seq<usize>)
    ensures
        monomial_word(d).len() == degree(d),
    decreases d.len(),
{
    if d.len() > 0 {
        lemma_monomial_word_len(d.drop_last());
    }
}

/// When the structure constants lie in `[-bound, bound]` and `C_{2 · max_degree}` fits in
/// `i64`, every structure constant of the enveloping algebra truncated at `max_degree` is
/// computed within `i64`.
pub proof fn lemma_pbw_table_fits_bounded(
    b: spec_fn(int, int, int) -> int,
    n: int,
    mons: Seq<Seq<usize>>,
    max_degree: int,
    bound: nat,
)
    requires
        0 <= n <= usize::MAX,
        0 <= max_degree,
        is_monomial_basis(mons, n, max_degree),
        bracket_bounded(b, n as nat, bound),
        coeff_bound(n as nat, bound, (2 * max_degree) as nat) <= i64::MAX,
    ensures
        pbw_table_fits(b, n, mons),
{
    assert forall|i: int, j: int, k: int|
        0 <= i < mons.len() && 0 <= j < mons.len() && 0 <= k < mons.len() implies #[trigger] pbw_entry_fits(
        b,
        n,
        mons,
        i,
        j,
        k,
    ) by {
        assert(is_monomial(mons[i], n, max_degree));
        assert(is_monomial(mons[j], n, max_degree));
        let wa = monomial_word(mons[i]);
        let wb = monomial_word(mons[j]);
        let w = wa + wb;
        lemma_monomial_word_ordered(mons[i]);
        lemma_monomial_word_ordered(mons[j]);
        assert forall|t: int| 0 <= t < w.len() implies #[trigger] w[t] < n by {
            if t < wa.len() {
                assert(w[t] == wa[t]);
            } else {
                assert(w[t] == wb[t - wa.len()]);
            }
        }
        lemma_monomial_word_len(mons[i]);
        lemma_monomial_word_len(mons[j]);
        lemma_coeff_bound_mono(n as nat, bound, w.len(), (2 * max_degree) as nat);
        lemma_word_fits_bounded(b, n as nat, bound, w, monomial_word(mons[k]));
    }
}

/// The sl(2) structure constants lie in `[-2, 2]`, and up to degree 3 the bound
/// `C_{2 · max_degree}` on the straightening coefficients fits in `i64`: U(sl(2)) truncated at
/// any degree up to 3 is always built.
pub proof fn lemma_sl2_table_fits(t: Seq<Vec<Vec<i64>>>, max_degree: int)
    requires
        cube_is(t, 3, sl2_bracket_spec()),
        0 <= max_degree <= 3,
    ensures
        bracket_bounded(table_fn(t), 3, 2),
        coeff_bound(3, 2, (2 * max_degree) as nat) <= i64::MAX,
{
    assert forall|i: int, j: int, l: int| 0 <= i < 3 && 0 <= j < 3 && 0 <= l < 3 implies -2 <= #[trigger] table_fn(
        t,
    )(i, j, l) <= 2 by {
        assert(t[i]@[j]@[l] as int == sl2_coeff(i, j, l));
    }
    lemma_coeff_bound_mono(3, 2, (2 * max_degree) as nat, 6);
    assert(coeff_bound(3, 2, 6) <= i64::MAX) by {
        assert(power(3, 0) == 1);
        assert(power(3, 1) == 3);
        assert(power(3, 2) == 9);
        assert(power(3, 3) == 27);
        assert(power(3, 4) == 81);
        assert(power(3, 5) == 243);
        assert(power(3, 6) == 729);
        assert(coeff_bound(3, 2, 0) == 1);
        assert(coeff_bound(3, 2, 1) == 19) by (nonlinear_arith)
            requires
                coeff_bound(3, 2, 1) == coeff_bound(3, 2, 0) * (1 + power(3, 1) * 3 * 2),
                coeff_bound(3, 2, 0) == 1,
                power(3, 1) == 3,
        ;
        assert(coeff_bound(3, 2, 2) == 1045) by (nonlinear_arith)
            requires
                coeff_bound(3, 2, 2) == coeff_bound(3, 2, 1) * (1 + power(3, 2) * 3 * 2),
                coeff_bound(3, 2, 1) == 19,
                power(3, 2) == 9,
        ;
        assert(coeff_bound(3, 2, 3) == 170335) by (nonlinear_arith)
            requires
                coeff_bound(3, 2, 3) == coeff_bound(3, 2, 2) * (1 + power(3, 3) * 3 * 2),
                coeff_bound(3, 2, 2) == 1045,
                power(3, 3) == 27,
        ;
        assert(coeff_bound(3, 2, 4) == 82953145) by (nonlinear_arith)
            requires
                coeff_bound(3, 2, 4) == coeff_bound(3, 2, 3) * (1 + power(3, 4) * 3 * 2),
                coeff_bound(3, 2, 3) == 170335,
                power(3, 4) == 81,
        ;
        assert(coeff_bound(3, 2, 5) == 121028638555) by (nonlinear_arith)
            requires
                coeff_bound(3, 2, 5) == coeff_bound(3, 2, 4) * (1 + power(3, 5) * 3 * 2),
                coeff_bound(3, 2, 4) == 82953145,
                power(3, 5) == 243,
        ;
        assert(coeff_bound(3, 2, 6) == 529500293678125) by (nonlinear_arith)
            requires
                coeff_bound(3, 2, 6) == coeff_bound(3, 2, 5) * (1 + power(3, 6) * 3 * 2),
                coeff_bound(3, 2, 5) == 121028638555,
                power(3, 6) == 729,
        ;
    }
}

/// Row `(i, j)` of the multiplication table, or the position of a coefficient that leaves `i64`.
fn pbw_product_row(
    bracket: &Vec<Vec<Vec<i64>>>,
    words: &Vec<Vec<usize>>,
    i: usize,
    j: usize,
    Ghost(mons): Ghost<Seq<Seq<usize>>>,
) -> (row: Option<Vec<i64>>)
    requires
        is_cube(bracket@, bracket@.len() as int),
        words@.len() == mons.len(),
        forall|a: int| 0 <= a < mons.len() ==> #[trigger] words@[a]@ == monomial_word(mons[a]),
        forall|a: int| 0 <= a < mons.len() ==> (#[trigger] mons[a]).len() == bracket@.len(),
        i < mons.len(),
        j < mons.len(),
    ensures
        match row {
            Some(r) => r@.len() == mons.len() && forall|k: int|
                0 <= k < mons.len() ==> #[trigger] r@[k] as int == pbw_coeff(
                    table_fn(bracket@),
                    bracket@.len() as int,
                    mons,
                    i as int,
                    j as int,
                    k,
                ) && pbw_entry_fits(table_fn(bracket@), bracket@.len() as int, mons, i as int, j as int, k),
            None => exists|k: int|
                0 <= k < mons.len() && !#[trigger] pbw_entry_fits(
                    table_fn(bracket@),
                    bracket@.len() as int,
                    mons,
                    i as int,
                    j as int,
                    k,
                ),
        },
{
    let n = bracket.len();
    let ghost b = table_fn(bracket@);
    assert(words@[i as int]@ == monomial_word(mons[i as int]));
    assert(words@[j as int]@ == monomial_word(mons[j as int]));
    let w = concat_words(&words[i], &words[j]);
    proof {
        lemma_monomial_word_ordered(mons[i as int]);
        lemma_monomial_word_ordered(mons[j as int]);
        assert forall|t: int| 0 <= t < w@.len() implies #[trigger] w@[t] < n by {
            let wi = monomial_word(mons[i as int]);
            if t < wi.len() {
                assert(w@[t] == wi[t]);
            } else {
                assert(w@[t] == monomial_word(mons[j as int])[t - wi.len()]);
            }
        }
    }
    let mut row: Vec<i64> = Vec::new();
    let mut k: usize = 0;
    while k < words.len()
        invariant
            k <= words@.len(),
            words@.len() == mons.len(),
            is_cube(bracket@, n as int),
            n == bracket@.len(),
            b == table_fn(bracket@),
            forall|a: int| 0 <= a < mons.len() ==> #[trigger] words@[a]@ == monomial_word(mons[a]),
            w@ == monomial_word(mons[i as int]) + monomial_word(mons[j as int]),
            letters_below(w@, n as int),
            row@.len() == k,
            forall|c: int|
                0 <= c < k ==> #[trigger] row@[c] as int == pbw_coeff(b, n as int, mons, i as int, j as int, c)
                    && pbw_entry_fits(b, n as int, mons, i as int, j as int, c),
        decreases words@.len() - k,
    {
        assert(words@[k as int]@ == monomial_word(mons[k as int]));
        let wc = w.clone();
        assert(wc@ == w@);
        let v = straighten_coeff(bracket, n, wc, &words[k]);
        match v {
            Some(x) => {
                let ghost before = row@;
                row.push(x);
                assert forall|c: int|
                    0 <= c < k + 1 implies #[trigger] row@[c] as int == pbw_coeff(b, n as int, mons, i as int, j as int, c)
                        && pbw_entry_fits(b, n as int, mons, i as int, j as int, c) by {
                    if c < k {
                        assert(row@[c] == before[c]);
                    }
                }
            },
            None => {
                assert(!pbw_entry_fits(b, n as int, mons, i as int, j as int, k as int));
                return None;
            },
        }
        k = k + 1;
    }
    Some(row)
}

impl UniversalEnvelopingAlgebra {
    /// The monomials list the PBW basis of U(g) for the Lie bracket `bracket`, and the table
    /// holds its structure constants.
    pub open spec fn wf(&self, bracket: Seq<Vec<Vec<i64>>>) -> bool {
        &&& self.lie_dim == bracket.len()
        &&& is_monomial_basis(
            monomial_views(self.monomials@),
            self.lie_dim as int,
            self.max_degree as int,
        )
        &&& cube_is(
            self.mult_table@,
            self.monomials@.len() as int,
            pbw_mult(table_fn(bracket), self.lie_dim as int, monomial_views(self.monomials@)),
        )
    }

    /// Construct U(g) for the Lie algebra g with structure constants `bracket`
    /// (`bracket[i][j][k]` is the coefficient of `e_k` in `[e_i, e_j]`), truncated at
    /// `max_degree`: every monomial `e_0^{d_0} ... e_{n-1}^{d_{n-1}}` with `Σ d_i <= max_degree`,
    /// and the product of two monomials brought into PBW order modulo the bracket relations,
    /// keeping the monomials of degree at most `max_degree`. Returns `None` when a coefficient
    /// met on the way does not fit in `i64`.
    pub fn from_lie_algebra(bracket: &Vec<Vec<Vec<i64>>>, max_degree: usize) -> (uea: Option<Self>)
        requires
            is_cube(bracket@, bracket@.len() as int),
        ensures
            match uea {
                Some(u) => {
                    &&& u.max_degree == max_degree
                    &&& u.wf(bracket@)
                    &&& pbw_table_fits(table_fn(bracket@), bracket@.len() as int, monomial_views(u.monomials@))
                },
                None => exists|mons: Seq<Seq<usize>>|
                    is_monomial_basis(mons, bracket@.len() as int, max_degree as int)
                        && !#[trigger] pbw_table_fits(table_fn(bracket@), bracket@.len() as int, mons),
            },
            uea is None ==> forall|bound: nat|
                #[trigger] bracket_bounded(table_fn(bracket@), bracket@.len() as nat, bound) ==> coeff_bound(
                    bracket@.len() as nat,
                    bound,
                    (2 * max_degree) as nat,
                ) > i64::MAX,
    {
        let lie_dim = bracket.len();
        let monomials = generate_monomials(lie_dim, max_degree);
        let ghost mons = monomial_views(monomials@);
        let ghost b = table_fn(bracket@);
        assert forall|a: int| 0 <= a < mons.len() implies #[trigger] mons[a] == monomials@[a]@ by {}
        assert(is_monomial_basis(mons, lie_dim as int, max_degree as int)) by {
            assert forall|v: Seq<usize>| #[trigger]
                is_monomial(v, lie_dim as int, max_degree as int) implies exists|a: int|
                0 <= a < mons.len() && #[trigger] mons[a] == v by {
                let a = choose|a: int| 0 <= a < monomials@.len() && #[trigger] monomials@[a]@ == v;
                assert(mons[a] == v);
            }
        }
        let n = monomials.len();
        let mut words: Vec<Vec<usize>> = Vec::new();
        let mut t: usize = 0;
        while t < n
            invariant
                t <= n,
                n == monomials@.len(),
                mons == monomial_views(monomials@),
                words@.len() == t,
                forall|a: int| 0 <= a < t ==> #[trigger] words@[a]@ == monomial_word(mons[a]),
            decreases n - t,
        {
            let w = monomial_word_exec(&monomials[t]);
            words.push(w);
            t = t + 1;
        }
        let mut mult_table: Vec<Vec<Vec<i64>>> = Vec::new();
        let mut i: usize = 0;
        while i < n
            invariant
                i <= n,
                n == monomials@.len(),
                lie_dim == bracket@.len(),
                b == table_fn(bracket@),
                is_cube(bracket@, lie_dim as int),
                mons == monomial_views(monomials@),
                is_monomial_basis(mons, lie_dim as int, max_degree as int),
                words@.len() == n,
                forall|a: int| 0 <= a < n ==> #[trigger] words@[a]@ == monomial_word(mons[a]),
                mult_table@.len() == i,
                forall|a: int| 0 <= a < i ==> (#[trigger] mult_table@[a])@.len() == n,
                forall|a: int, c: int|
                    0 <= a < i && 0 <= c < n ==> (#[trigger] mult_table@[a]@[c])@.len() == n,
                forall|a: int, c: int, e: int|
                    0 <= a < i && 0 <= c < n && 0 <= e < n ==> #[trigger] mult_table@[a]@[c]@[e] as int
                        == pbw_coeff(b, lie_dim as int, mons, a, c, e) && pbw_entry_fits(
                        b,
                        lie_dim as int,
                        mons,
                        a,
                        c,
                        e,
                    ),
            decreases n - i,
        {
            let mut plane: Vec<Vec<i64>> = Vec::new();
            let mut j: usize = 0;
            while j < n
                invariant
                    i < n,
                    j <= n,
                    n == monomials@.len(),
                    lie_dim == bracket@.len(),
                    b == table_fn(bracket@),
                    is_cube(bracket@, lie_dim as int),
                    mons == monomial_views(monomials@),
                    is_monomial_basis(mons, lie_dim as int, max_degree as int),
                    words@.len() == n,
                    forall|a: int| 0 <= a < n ==> #[trigger] words@[a]@ == monomial_word(mons[a]),
                    plane@.len() == j,
                    forall|c: int| 0 <= c < j ==> (#[trigger] plane@[c])@.len() == n,
                    forall|c: int, e: int|
                        0 <= c < j && 0 <= e < n ==> #[trigger] plane@[c]@[e] as int == pbw_coeff(
                            b,
                            lie_dim as int,
                            mons,
                            i as int,
                            c,
                            e,
                        ) && pbw_entry_fits(b, lie_dim as int, mons, i as int, c, e),
                decreases n - j,
            {
                assert forall|a: int| 0 <= a < mons.len() implies (#[trigger] mons[a]).len() == bracket@.len() by {
                    assert(is_monomial(mons[a], lie_dim as int, max_degree as int));
                }
                match pbw_product_row(bracket, &words, i, j, Ghost(mons)) {
                    Some(row) => {
                        plane.push(row);
                    },
                    None => {
                        assert(!pbw_table_fits(b, lie_dim as int, mons));
                        proof {
                            assert forall|bound: nat| #[trigger]
                                bracket_bounded(b, lie_dim as nat, bound) implies coeff_bound(
                                lie_dim as nat,
                                bound,
                                (2 * max_degree) as nat,
                            ) > i64::MAX by {
                                if coeff_bound(lie_dim as nat, bound, (2 * max_degree) as nat) <= i64::MAX {
                                    lemma_pbw_table_fits_bounded(b, lie_dim as int, mons, max_degree as int, bound);
                                }
                            }
                        }
                        return None;
                    },
                }
                j = j + 1;
            }
            let ghost before = mult_table@;
            mult_table.push(plane);
            proof {
                assert forall|a: int, c: int, e: int|
                    0 <= a <= i && 0 <= c < n && 0 <= e < n implies #[trigger] mult_table@[a]@[c]@[e] as int
                        == pbw_coeff(b, lie_dim as int, mons, a, c, e) && pbw_entry_fits(
                        b,
                        lie_dim as int,
                        mons,
                        a,
                        c,
                        e,
                    ) by {
                    if a < i {
                        assert(mult_table@[a] == before[a]);
                    } else {
                        assert(mult_table@[a] == plane);
                    }
                }
                assert forall|a: int| 0 <= a <= i implies (#[trigger] mult_table@[a])@.len() == n by {
                    if a < i {
                        assert(mult_table@[a] == before[a]);
                    }
                }
                assert forall|a: int, c: int|
                    0 <= a <= i && 0 <= c < n implies (#[trigger] mult_table@[a]@[c])@.len() == n by {
                    if a < i {
                        assert(mult_table@[a] == before[a]);
                    }
                }
            }
            i = i + 1;
        }
        let uea = UniversalEnvelopingAlgebra { lie_dim, max_degree, monomials, mult_table };
        proof {
            assert(monomial_views(uea.monomials@) == mons);
            assert forall|a: int, c: int, e: int|
                0 <= a < n && 0 <= c < n && 0 <= e < n implies #[trigger] uea.mult_table@[a]@[c]@[e] as int
                    == pbw_mult(b, lie_dim as int, mons)(a, c, e) by {
                assert(uea.mult_table@[a]@[c]@[e] as int == pbw_coeff(b, lie_dim as int, mons, a, c, e));
            }
            assert forall|a: int, c: int, e: int|
                0 <= a < n && 0 <= c < n && 0 <= e < n implies #[trigger] pbw_entry_fits(
                b,
                lie_dim as int,
                mons,
                a,
                c,
                e,
            ) by {
                assert(uea.mult_table@[a]@[c]@[e] as int == pbw_coeff(b, lie_dim as int, mons, a, c, e));
            }
        }
        Some(uea)
    }

    /// Number of basis elements.
    pub fn dim(&self) -> (n: usize)
        ensures
            n == self.monomials@.len(),
    {
        self.monomials.len()
    }
}

// ---------------------------------------------------------------------------
// Laws of the enveloping algebra
// ---------------------------------------------------------------------------

/// Straightening an ordered word gives the word itself: the coefficient of one monomial's word
/// in the normal form of another's is 1 when the monomials agree and 0 otherwise.
proof fn lemma_ordered_word_coeff(b: spec_fn(int, int, int) -> int, n: int, d1: Seq<usize>, d2: Seq<usize>)
    requires
        d1.len() == n,
        d2.len() == n,
        n <= usize::MAX,
    ensures
        word_coeff(b, n as nat, monomial_word(d1), monomial_word(d2)) == (if d1 == d2 {
            1int
        } else {
            0int
        }),
{
    lemma_monomial_word_ordered(d1);
    if monomial_word(d1) == monomial_word(d2) {
        lemma_monomial_word_injective(d1, d2);
    }
}

/// The components of `[x_j, x_i] = Σ_k b(j, i, k) x_k` read at the monomial `m`.
pub open spec fn bracket_image(b: spec_fn(int, int, int) -> int, n: int, i: int, j: int, m: Seq<usize>) -> spec_fn(int) -> int {
    |k: int| b(j, i, k) * (if m == unit_monomial(n, k) {
        1int
    } else {
        0int
    })
}

proof fn lemma_commutator_terms(b: spec_fn(int, int, int) -> int, n: int, i: int, j: int, m: Seq<usize>, k: int)
    requires
        0 <= i < n,
        0 <= j < n,
        n <= usize::MAX,
        m.len() == n,
        0 <= k <= n,
    ensures
        bracket_terms(b, n as nat, seq![j as usize, i as usize], 0, monomial_word(m), k) == sum_to(
            k,
            bracket_image(b, n, i, j, m),
        ),
    decreases k,
{
    if k > 0 {
        lemma_commutator_terms(b, n, i, j, m, k - 1);
        let w = seq![j as usize, i as usize];
        assert(replace_pair(w, 0, k - 1) =~= seq![(k - 1) as usize]);
        lemma_monomial_word_unit(n, k - 1);
        lemma_ordered_word_coeff(b, n, unit_monomial(n, k - 1), m);
    }
}

impl UniversalEnvelopingAlgebra {
    /// The monomial 1, first in the basis, is a two-sided unit: `1 · x = x · 1 = x` for every
    /// basis monomial `x`.
    pub proof fn lemma_uea_unit(&self, bracket: Seq<Vec<Vec<i64>>>, j: int, k: int)
        requires
            self.wf(bracket),
            0 <= j < self.monomials@.len(),
            0 <= k < self.monomials@.len(),
        ensures
            self.mult_table@[0]@[j]@[k] == delta(j, k),
            self.mult_table@[j]@[0]@[k] == delta(j, k),
    {
        let n = self.lie_dim as int;
        let mons = monomial_views(self.monomials@);
        let b = table_fn(bracket);
        assert(mons[0] == zero_monomial(n));
        assert(is_monomial(mons[j], n, self.max_degree as int));
        assert(is_monomial(mons[k], n, self.max_degree as int));
        lemma_monomial_word_zero(n);
        let wj = monomial_word(mons[j]);
        assert(monomial_word(mons[0]) + wj =~= wj);
        assert(wj + monomial_word(mons[0]) =~= wj);
        lemma_ordered_word_coeff(b, n, mons[j], mons[k]);
        if j != k {
            lemma_basis_distinct(mons, n, self.max_degree as int, j, k);
        }
        assert(self.mult_table@[0]@[j]@[k] as int == pbw_mult(b, n, mons)(0, j, k));
        assert(self.mult_table@[j]@[0]@[k] as int == pbw_mult(b, n, mons)(j, 0, k));
    }

    /// The commutator of two generators is their Lie bracket: for basis generators `x_i` at
    /// position `a` and `x_j` at position `c_j` with `i < j`,
    /// `x_j · x_i − x_i · x_j = [x_j, x_i] = Σ_k b(j, i, k) x_k`, read at every basis monomial.
    pub proof fn lemma_uea_commutator(
        &self,
        bracket: Seq<Vec<Vec<i64>>>,
        i: int,
        j: int,
        a: int,
        c_j: int,
        c: int,
    )
        requires
            self.wf(bracket),
            0 <= i < j < bracket.len(),
            0 <= a < self.monomials@.len(),
            0 <= c_j < self.monomials@.len(),
            0 <= c < self.monomials@.len(),
            self.monomials@[a]@ == unit_monomial(bracket.len() as int, i),
            self.monomials@[c_j]@ == unit_monomial(bracket.len() as int, j),
        ensures
            self.mult_table@[c_j]@[a]@[c] - self.mult_table@[a]@[c_j]@[c] == sum_to(
                bracket.len() as int,
                bracket_image(table_fn(bracket), bracket.len() as int, i, j, self.monomials@[c]@),
            ),
            forall|k: int|
                0 <= k < bracket.len() && self.monomials@[c]@ == unit_monomial(bracket.len() as int, k)
                    ==> self.mult_table@[c_j]@[a]@[c] - self.mult_table@[a]@[c_j]@[c]
                    == #[trigger] bracket[j]@[i]@[k],
            (forall|k: int| 0 <= k < bracket.len() ==> self.monomials@[c]@ != #[trigger] unit_monomial(bracket.len() as int, k))
                ==> self.mult_table@[c_j]@[a]@[c] - self.mult_table@[a]@[c_j]@[c] == 0,
    {
        let n = self.lie_dim as int;
        let mons = monomial_views(self.monomials@);
        let b = table_fn(bracket);
        let m = mons[c];
        assert(mons[a] == unit_monomial(n, i));
        assert(mons[c_j] == unit_monomial(n, j));
        assert(is_monomial(m, n, self.max_degree as int));
        lemma_monomial_word_unit(n, i);
        lemma_monomial_word_unit(n, j);
        let w = seq![j as usize, i as usize];
        assert(monomial_word(mons[c_j]) + monomial_word(mons[a]) =~= w);
        assert(monomial_word(mons[a]) + monomial_word(mons[c_j]) =~= swap_at(w, 0));
        assert(descent_from(w, 0) == 0);
        lemma_commutator_terms(b, n, i, j, m, n);
        assert(self.mult_table@[c_j]@[a]@[c] as int == pbw_mult(b, n, mons)(c_j, a, c));
        assert(self.mult_table@[a]@[c_j]@[c] as int == pbw_mult(b, n, mons)(a, c_j, c));
        let f = bracket_image(b, n, i, j, m);
        assert forall|k: int| 0 <= k < n && m == unit_monomial(n, k) implies self.mult_table@[c_j]@[a]@[c]
            - self.mult_table@[a]@[c_j]@[c] == #[trigger] bracket[j]@[i]@[k] by {
            assert forall|l: int| 0 <= l < n && l != k implies #[trigger] f(l) == 0 by {
                assert(unit_monomial(n, l)[k] != unit_monomial(n, k)[k]);
            }
            lemma_sum_single(n, f, k);
        }
        if forall|k: int| 0 <= k < n ==> m != #[trigger] unit_monomial(n, k) {
            assert forall|l: int| 0 <= l < n && l != -1 implies #[trigger] f(l) == 0 by {
                assert(m != unit_monomial(n, l));
            }
            lemma_sum_single(n, f, -1);
        }
    }
}

/// `c` is the exponent vector `a + b`.
pub open spec fn exponents_add(a: Seq<usize>, b: Seq<usize>, c: Seq<usize>) -> bool {
    forall|t: int| 0 <= t < c.len() ==> #[trigger] c[t] == a[t] + b[t]
}

proof fn lemma_count_block(c: nat, l: usize, x: int)
    ensures
        letter_count(Seq::new(c, |t: int| l), x) == (if x == l {
            c
        } else {
            0
        }),
    decreases c,
{
    if c > 0 {
        lemma_count_block((c - 1) as nat, l, x);
        assert(Seq::new(c, |t: int| l).drop_last() =~= Seq::new((c - 1) as nat, |t: int| l));
    } else {
        assert(Seq::new(c, |t: int| l) =~= Seq::<usize>::empty());
    }
}

/// The letter `x` occurs in the word of `d` as often as the exponent `d[x]`.
pub proof fn lemma_monomial_word_count(d: Seq<usize>, x: int)
    requires
        d.len() <= usize::MAX,
    ensures
        letter_count(monomial_word(d), x) == (if 0 <= x < d.len() {
            d[x] as nat
        } else {
            0
        }),
    decreases d.len(),
{
    if d.len() > 0 {
        let last = (d.len() - 1) as usize;
        assert(last == d.len() - 1);
        lemma_monomial_word_count(d.drop_last(), x);
        lemma_count_concat(monomial_word(d.drop_last()), Seq::new(d.last() as nat, |t: int| last), x);
        lemma_count_block(d.last() as nat, last, x);
    } else {
        assert(monomial_word(d) =~= Seq::<usize>::empty());
    }
}

impl UniversalEnvelopingAlgebra {
    /// For an abelian Lie algebra (every structure constant zero) U(g) is the polynomial
    /// algebra: the product of two basis monomials is the monomial whose exponent vector is the
    /// sum of theirs, and nothing when that sum lies above the degree bound.
    pub proof fn lemma_uea_abelian(&self, bracket: Seq<Vec<Vec<i64>>>, i: int, j: int, k: int)
        requires
            self.wf(bracket),
            forall|x: int, y: int, z: int|
                0 <= x < bracket.len() && 0 <= y < bracket.len() && 0 <= z < bracket.len()
                    ==> #[trigger] bracket[x]@[y]@[z] == 0,
            0 <= i < self.monomials@.len(),
            0 <= j < self.monomials@.len(),
            0 <= k < self.monomials@.len(),
        ensures
            self.mult_table@[i]@[j]@[k] == (if exponents_add(
                self.monomials@[i]@,
                self.monomials@[j]@,
                self.monomials@[k]@,
            ) {
                1int
            } else {
                0int
            }),
    {
        let n = self.lie_dim as int;
        let mons = monomial_views(self.monomials@);
        let b = table_fn(bracket);
        let (da, db, dc) = (mons[i], mons[j], mons[k]);
        assert(is_monomial(da, n, self.max_degree as int));
        assert(is_monomial(db, n, self.max_degree as int));
        assert(is_monomial(dc, n, self.max_degree as int));
        let wa = monomial_word(da);
        let wb = monomial_word(db);
        let wc = monomial_word(dc);
        let w = wa + wb;
        lemma_monomial_word_ordered(da);
        lemma_monomial_word_ordered(db);
        lemma_monomial_word_ordered(dc);
        assert forall|t: int| 0 <= t < w.len() implies #[trigger] w[t] < n by {
            if t < wa.len() {
                assert(w[t] == wa[t]);
            } else {
                assert(w[t] == wb[t - wa.len()]);
            }
        }
        assert forall|x: int, y: int, z: int|
            0 <= x < n && 0 <= y < n && 0 <= z < n implies #[trigger] b(x, y, z) == 0 by {
            assert(bracket[x]@[y]@[z] == 0);
        }
        lemma_vanishing_bracket_coeff(b, n as nat, w, wc);
        assert forall|x: int| #[trigger] letter_count(w, x) == (if 0 <= x < n {
            da[x] + db[x]
        } else {
            0
        }) by {
            lemma_count_concat(wa, wb, x);
            lemma_monomial_word_count(da, x);
            lemma_monomial_word_count(db, x);
        }
        assert forall|x: int| #[trigger] letter_count(wc, x) == (if 0 <= x < n {
            dc[x] as int
        } else {
            0
        }) by {
            lemma_monomial_word_count(dc, x);
        }
        if exponents_add(da, db, dc) {
            assert forall|x: int| #[trigger] letter_count(w, x) == letter_count(wc, x) by {
                if 0 <= x < n {
                    assert(dc[x] == da[x] + db[x]);
                }
            }
        }
        if same_letters(w, wc) {
            assert forall|t: int| 0 <= t < dc.len() implies #[trigger] dc[t] == da[t] + db[t] by {
                assert(letter_count(w, t) == letter_count(wc, t));
            }
        }
        assert(self.mult_table@[i]@[j]@[k] as int == pbw_mult(b, n, mons)(i, j, k));
    }
}

proof fn lemma_degree_pointwise_le(a: Seq<usize>, c: Seq<usize>)
    requires
        a.len() == c.len(),
        forall|t: int| 0 <= t < a.len() ==> #[trigger] a[t] <= c[t],
    ensures
        degree(a) <= degree(c),
    decreases a.len(),
{
    if a.len() > 0 {
        assert forall|t: int| 0 <= t < a.drop_last().len() implies #[trigger] a.drop_last()[t]
            <= c.drop_last()[t] by {
            assert(a[t] <= c[t]);
        }
        lemma_degree_pointwise_le(a.drop_last(), c.drop_last());
    }
}

impl UniversalEnvelopingAlgebra {
    /// When the exponent vectors `x` and `y` add up to at most those of a basis monomial `p`,
    /// their sum is itself a basis monomial.
    proof fn lemma_sum_in_basis(&self, bracket: Seq<Vec<Vec<i64>>>, x: int, y: int, p: int)
        requires
            self.wf(bracket),
            0 <= x < self.monomials@.len(),
            0 <= y < self.monomials@.len(),
            0 <= p < self.monomials@.len(),
            forall|t: int|
                0 <= t < self.lie_dim ==> #[trigger] self.monomials@[p]@[t] >= self.monomials@[x]@[t]
                    + self.monomials@[y]@[t],
        ensures
            exists|l: int|
                0 <= l < self.monomials@.len() && #[trigger] exponents_add(
                    self.monomials@[x]@,
                    self.monomials@[y]@,
                    self.monomials@[l]@,
                ),
    {
        let n = self.lie_dim as int;
        let mons = monomial_views(self.monomials@);
        let (dx, dy, dp) = (mons[x], mons[y], mons[p]);
        assert(is_monomial(dx, n, self.max_degree as int));
        assert(is_monomial(dy, n, self.max_degree as int));
        assert(is_monomial(dp, n, self.max_degree as int));
        let v = Seq::new(n as nat, |t: int| (dx[t] + dy[t]) as usize);
        assert forall|t: int| 0 <= t < n implies #[trigger] v[t] == dx[t] + dy[t] && v[t] <= dp[t] by {
            assert(dp[t] >= dx[t] + dy[t]);
        }
        lemma_degree_pointwise_le(v, dp);
        assert(is_monomial(v, n, self.max_degree as int));
        let l = choose|l: int| 0 <= l < mons.len() && #[trigger] mons[l] == v;
        assert(exponents_add(dx, dy, mons[l]));
    }

    /// A sum of two exponent vectors is found at one position of the basis at most.
    proof fn lemma_sum_unique(&self, bracket: Seq<Vec<Vec<i64>>>, x: int, y: int, l1: int, l2: int)
        requires
            self.wf(bracket),
            0 <= x < self.monomials@.len(),
            0 <= y < self.monomials@.len(),
            0 <= l1 < self.monomials@.len(),
            0 <= l2 < self.monomials@.len(),
            exponents_add(self.monomials@[x]@, self.monomials@[y]@, self.monomials@[l1]@),
            exponents_add(self.monomials@[x]@, self.monomials@[y]@, self.monomials@[l2]@),
        ensures
            l1 == l2,
    {
        let n = self.lie_dim as int;
        let mons = monomial_views(self.monomials@);
        assert(is_monomial(mons[l1], n, self.max_degree as int));
        assert(is_monomial(mons[l2], n, self.max_degree as int));
        assert(mons[l1] =~= mons[l2]);
        if l1 != l2 {
            lemma_basis_distinct(mons, n, self.max_degree as int, l1, l2);
        }
    }

    proof fn lemma_abelian_assoc_at(&self, bracket: Seq<Vec<Vec<i64>>>, i: int, j: int, k: int, p: int)
        requires
            self.wf(bracket),
            forall|x: int, y: int, z: int|
                0 <= x < bracket.len() && 0 <= y < bracket.len() && 0 <= z < bracket.len()
                    ==> #[trigger] bracket[x]@[y]@[z] == 0,
            0 <= i < self.monomials@.len(),
            0 <= j < self.monomials@.len(),
            0 <= k < self.monomials@.len(),
            0 <= p < self.monomials@.len(),
        ensures
            assoc_left(table_fn(self.mult_table@), self.monomials@.len() as int, i, j, k, p)
                == assoc_right(table_fn(self.mult_table@), self.monomials@.len() as int, i, j, k, p),
    {
        let n = self.lie_dim as int;
        let d = self.monomials@.len() as int;
        let mons = monomial_views(self.monomials@);
        let m = table_fn(self.mult_table@);
        assert forall|x: int, y: int, z: int| 0 <= x < d && 0 <= y < d && 0 <= z < d implies #[trigger] m(
            x,
            y,
            z,
        ) == (if exponents_add(mons[x], mons[y], mons[z]) {
            1int
        } else {
            0int
        }) by {
            self.lemma_uea_abelian(bracket, x, y, z);
        }
        assert(is_monomial(mons[i], n, self.max_degree as int));
        assert(is_monomial(mons[j], n, self.max_degree as int));
        assert(is_monomial(mons[k], n, self.max_degree as int));
        assert(is_monomial(mons[p], n, self.max_degree as int));
        // `total` holds when the exponents of `p` are those of `i`, `j` and `k` together.
        let total = forall|t: int|
            0 <= t < n ==> #[trigger] mons[p][t] == mons[i][t] + mons[j][t] + mons[k][t];
        // left: (e_i e_j) e_k
        let fl = assoc_left_terms(m, i, j, k, p);
        if exists|l: int| 0 <= l < d && #[trigger] exponents_add(mons[i], mons[j], mons[l]) {
            let l0 = choose|l: int| 0 <= l < d && #[trigger] exponents_add(mons[i], mons[j], mons[l]);
            assert forall|l: int| 0 <= l < d && l != l0 implies #[trigger] fl(l) == 0 by {
                if exponents_add(mons[i], mons[j], mons[l]) {
                    self.lemma_sum_unique(bracket, i, j, l, l0);
                }
                let a = m(i, j, l);
                let c = m(l, k, p);
                assert(a == 0);
                assert(a * c == 0) by (nonlinear_arith)
                    requires
                        a == 0,
                ;
            }
            lemma_sum_single(d, fl, l0);
            let c = m(l0, k, p);
            assert(m(i, j, l0) * c == c) by (nonlinear_arith)
                requires
                    m(i, j, l0) == 1,
            ;
            assert(is_monomial(mons[l0], n, self.max_degree as int));
            if total {
                assert(exponents_add(mons[l0], mons[k], mons[p]));
            }
            if exponents_add(mons[l0], mons[k], mons[p]) {
                assert forall|t: int| 0 <= t < n implies #[trigger] mons[p][t] == mons[i][t] + mons[j][t]
                    + mons[k][t] by {
                    assert(mons[l0][t] == mons[i][t] + mons[j][t]);
                }
            }
            assert(assoc_left(m, d, i, j, k, p) == (if total {
                1int
            } else {
                0int
            }));
        } else {
            assert forall|l: int| 0 <= l < d && l != -1 implies #[trigger] fl(l) == 0 by {
                let a = m(i, j, l);
                let c = m(l, k, p);
                assert(a == 0);
                assert(a * c == 0) by (nonlinear_arith)
                    requires
                        a == 0,
                ;
            }
            lemma_sum_single(d, fl, -1);
            if total {
                self.lemma_sum_in_basis(bracket, i, j, p);
                let l = choose|l: int|
                    0 <= l < d && #[trigger] exponents_add(
                        self.monomials@[i]@,
                        self.monomials@[j]@,
                        self.monomials@[l]@,
                    );
                assert(mons[l] == self.monomials@[l]@);
                assert(exponents_add(mons[i], mons[j], mons[l]));
            }
            assert(assoc_left(m, d, i, j, k, p) == (if total {
                1int
            } else {
                0int
            }));
        }
        // right: e_i (e_j e_k)
        let fr = assoc_right_terms(m, i, j, k, p);
        if exists|l: int| 0 <= l < d && #[trigger] exponents_add(mons[j], mons[k], mons[l]) {
            let l0 = choose|l: int| 0 <= l < d && #[trigger] exponents_add(mons[j], mons[k], mons[l]);
            assert forall|l: int| 0 <= l < d && l != l0 implies #[trigger] fr(l) == 0 by {
                if exponents_add(mons[j], mons[k], mons[l]) {
                    self.lemma_sum_unique(bracket, j, k, l, l0);
                }
                let a = m(i, l, p);
                let c = m(j, k, l);
                assert(c == 0);
                assert(a * c == 0) by (nonlinear_arith)
                    requires
                        c == 0,
                ;
            }
            lemma_sum_single(d, fr, l0);
            let a = m(i, l0, p);
            assert(a * m(j, k, l0) == a) by (nonlinear_arith)
                requires
                    m(j, k, l0) == 1,
            ;
            assert(is_monomial(mons[l0], n, self.max_degree as int));
            if total {
                assert(exponents_add(mons[i], mons[l0], mons[p]));
            }
            if exponents_add(mons[i], mons[l0], mons[p]) {
                assert forall|t: int| 0 <= t < n implies #[trigger] mons[p][t] == mons[i][t] + mons[j][t]
                    + mons[k][t] by {
                    assert(mons[l0][t] == mons[j][t] + mons[k][t]);
                }
            }
            assert(assoc_right(m, d, i, j, k, p) == (if total {
                1int
            } else {
                0int
            }));
        } else {
            assert forall|l: int| 0 <= l < d && l != -1 implies #[trigger] fr(l) == 0 by {
                let a = m(i, l, p);
                let c = m(j, k, l);
                assert(c == 0);
                assert(a * c == 0) by (nonlinear_arith)
                    requires
                        c == 0,
                ;
            }
            lemma_sum_single(d, fr, -1);
            if total {
                self.lemma_sum_in_basis(bracket, j, k, p);
                let l = choose|l: int|
                    0 <= l < d && #[trigger] exponents_add(
                        self.monomials@[j]@,
                        self.monomials@[k]@,
                        self.monomials@[l]@,
                    );
                assert(mons[l] == self.monomials@[l]@);
                assert(exponents_add(mons[j], mons[k], mons[l]));
            }
            assert(assoc_right(m, d, i, j, k, p) == (if total {
                1int
            } else {
                0int
            }));
        }
    }

    /// For an abelian Lie algebra the multiplication table of U(g), truncated at the degree
    /// bound, is associative.
    pub proof fn lemma_uea_abelian_associative(&self, bracket: Seq<Vec<Vec<i64>>>)
        requires
            self.wf(bracket),
            forall|x: int, y: int, z: int|
                0 <= x < bracket.len() && 0 <= y < bracket.len() && 0 <= z < bracket.len()
                    ==> #[trigger] bracket[x]@[y]@[z] == 0,
        ensures
            is_associative(table_fn(self.mult_table@), self.monomials@.len() as int),
    {
        let d = self.monomials@.len() as int;
        assert forall|i: int, j: int, k: int, p: int|
            0 <= i < d && 0 <= j < d && 0 <= k < d && 0 <= p < d implies #[trigger] assoc_left(
            table_fn(self.mult_table@),
            d,
            i,
            j,
            k,
            p,
        ) == assoc_right(table_fn(self.mult_table@), d, i, j, k, p) by {
            self.lemma_abelian_assoc_at(bracket, i, j, k, p);
        }
    }
}

/// Every generator used by `a` comes no later than every generator used by `b`.
pub open spec fn precedes(a: Seq<usize>, b: Seq<usize>) -> bool {
    forall|s: int, t: int|
        0 <= s < a.len() && 0 <= t < b.len() && #[trigger] a[s] > 0 && #[trigger] b[t] > 0 ==> s <= t
}

impl UniversalEnvelopingAlgebra {
    /// A product already in PBW order needs no straightening: when every generator of the
    /// monomial `i` comes no later than every generator of the monomial `j`, their product is
    /// the monomial whose exponent vector is the sum of theirs, and nothing when that sum lies
    /// above the degree bound.
    pub proof fn lemma_uea_ordered_product(&self, bracket: Seq<Vec<Vec<i64>>>, i: int, j: int, k: int)
        requires
            self.wf(bracket),
            0 <= i < self.monomials@.len(),
            0 <= j < self.monomials@.len(),
            0 <= k < self.monomials@.len(),
            precedes(self.monomials@[i]@, self.monomials@[j]@),
        ensures
            self.mult_table@[i]@[j]@[k] == (if exponents_add(
                self.monomials@[i]@,
                self.monomials@[j]@,
                self.monomials@[k]@,
            ) {
                1int
            } else {
                0int
            }),
    {
        let n = self.lie_dim as int;
        let mons = monomial_views(self.monomials@);
        let b = table_fn(bracket);
        let (da, db, dc) = (mons[i], mons[j], mons[k]);
        assert(is_monomial(da, n, self.max_degree as int));
        assert(is_monomial(db, n, self.max_degree as int));
        assert(is_monomial(dc, n, self.max_degree as int));
        let wa = monomial_word(da);
        let wb = monomial_word(db);
        let wc = monomial_word(dc);
        let w = wa + wb;
        lemma_monomial_word_ordered(da);
        lemma_monomial_word_ordered(db);
        lemma_monomial_word_ordered(dc);
        assert forall|p: int, q: int| 0 <= p < q < w.len() implies #[trigger] w[p] <= #[trigger] w[q] by {
            if q < wa.len() {
                assert(w[p] == wa[p] && w[q] == wa[q]);
            } else if p >= wa.len() {
                assert(w[p] == wb[p - wa.len()] && w[q] == wb[q - wa.len()]);
            } else {
                let s = wa[p] as int;
                let t = wb[q - wa.len()] as int;
                assert(w[p] == s && w[q] == t);
                lemma_count_member(wa, p);
                lemma_count_member(wb, q - wa.len());
                lemma_monomial_word_count(da, s);
                lemma_monomial_word_count(db, t);
                assert(da[s] > 0 && db[t] > 0);
            }
        }
        assert forall|t: int| 0 <= t < w.len() implies #[trigger] w[t] < n by {
            if t < wa.len() {
                assert(w[t] == wa[t]);
            } else {
                assert(w[t] == wb[t - wa.len()]);
            }
        }
        lemma_descent(w, 0);
        if descent_from(w, 0) >= 0 {
            let p = descent_from(w, 0);
            assert(w[p] <= w[p + 1]);
        }
        assert forall|x: int| #[trigger] letter_count(w, x) == (if 0 <= x < n {
            da[x] + db[x]
        } else {
            0
        }) by {
            lemma_count_concat(wa, wb, x);
            lemma_monomial_word_count(da, x);
            lemma_monomial_word_count(db, x);
        }
        assert forall|x: int| #[trigger] letter_count(wc, x) == (if 0 <= x < n {
            dc[x] as int
        } else {
            0
        }) by {
            lemma_monomial_word_count(dc, x);
        }
        if exponents_add(da, db, dc) {
            assert forall|x: int| #[trigger] letter_count(w, x) == letter_count(wc, x) by {
                if 0 <= x < n {
                    assert(dc[x] == da[x] + db[x]);
                }
            }
            lemma_sorted_same_letters(w, wc);
        }
        if w == wc {
            assert forall|t: int| 0 <= t < dc.len() implies #[trigger] dc[t] == da[t] + db[t] by {
                assert(letter_count(w, t) == letter_count(wc, t));
            }
        }
        assert(self.mult_table@[i]@[j]@[k] as int == pbw_mult(b, n, mons)(i, j, k));
    }
}

} // verus!
