//! Straightening words in the generators of a Lie algebra into PBW normal form in U(g):
//! a word `x_{w_0} x_{w_1} ...` is rewritten with `x_j x_i = x_i x_j + [x_j, x_i]` at its first
//! descent `j > i` until every word is ordered, and ordered words are the PBW monomials.
use crate::monomial::{lemma_rank_bound, lemma_rank_lex, lex_lt_at, power, rank};
use crate::structure::{is_cube, table_fn};
use vstd::prelude::*;

verus! {

/// Every letter of `w` is a generator index below `n`.
pub open spec fn letters_below(w: Seq<usize>, n: int) -> bool {
    forall|t: int| 0 <= t < w.len() ==> #[trigger] w[t] < n
}

/// The first position `p >= start` with `w[p] > w[p + 1]`, or `-1` when there is none.
pub open spec fn descent_from(w: Seq<usize>, start: int) -> int
    decreases w.len() - start,
{
    if start < 0 || start + 1 >= w.len() {
        -1
    } else if w[start] > w[start + 1] {
        start
    } else {
        descent_from(w, start + 1)
    }
}

/// `w` with the letters at `p` and `p + 1` exchanged.
pub open spec fn swap_at(w: Seq<usize>, p: int) -> Seq<usize> {
    w.update(p, w[p + 1]).update(p + 1, w[p])
}

/// `w` with the two letters at `p`, `p + 1` replaced by the single letter `k`.
pub open spec fn replace_pair(w: Seq<usize>, p: int, k: int) -> Seq<usize> {
    w.take(p).push(k as usize) + w.skip(p + 2)
}

/// The descent found by `descent_from` is a descent, and none comes before it.
pub proof fn lemma_descent(w: Seq<usize>, start: int)
    requires
        0 <= start,
    ensures
        descent_from(w, start) == -1 || (start <= descent_from(w, start) && descent_from(w, start)
            + 1 < w.len() && w[descent_from(w, start)] > w[descent_from(w, start) + 1]),
        forall|q: int| start <= q && q + 1 < w.len() && (descent_from(w, start) == -1 || q < descent_from(w, start)) ==> #[trigger] w[q] <= w[q + 1],
    decreases w.len() - start,
{
    if start + 1 < w.len() && w[start] <= w[start + 1] {
        lemma_descent(w, start + 1);
    }
}

/// Exchanging a descent makes the word smaller in positional value.
pub proof fn lemma_swap_rank(w: Seq<usize>, p: int, n: nat)
    requires
        letters_below(w, n as int),
        0 <= p,
        p + 1 < w.len(),
        w[p] > w[p + 1],
    ensures
        rank(swap_at(w, p), n) < rank(w, n),
        letters_below(swap_at(w, p), n as int),
{
    let s = swap_at(w, p);
    assert(lex_lt_at(s, w, p));
    assert(w[0] < n);
    lemma_rank_lex(s, w, p, n);
}

/// Coefficient of the ordered word `target` in the PBW normal form of the word `w`, for the
/// bracket with structure constants `b` on `n` generators.
pub open spec fn word_coeff(b: spec_fn(int, int, int) -> int, n: nat, w: Seq<usize>, target: Seq<usize>) -> int
    decreases w.len(), rank(w, n), n + 1,
{
    if !letters_below(w, n as int) {
        0
    } else if descent_from(w, 0) < 0 {
        if w == target {
            1
        } else {
            0
        }
    } else {
        let p = descent_from(w, 0);
        proof {
            lemma_descent(w, 0);
            lemma_swap_rank(w, p, n);
        }
        word_coeff(b, n, swap_at(w, p), target) + bracket_terms(b, n, w, p, target, n as int)
    }
}

/// `Σ_{l < k} b(w[p], w[p+1], l) · word_coeff(w with x_{w[p]} x_{w[p+1]} replaced by x_l)`:
/// the contribution of the bracket `[x_{w[p]}, x_{w[p+1]}]` over its first `k` components.
pub open spec fn bracket_terms(b: spec_fn(int, int, int) -> int, n: nat, w: Seq<usize>, p: int, target: Seq<usize>, k: int) -> int
    decreases w.len(), rank(w, n), k,
{
    if k <= 0 || p < 0 || p + 1 >= w.len() {
        0
    } else {
        bracket_terms(b, n, w, p, target, k - 1) + b(w[p] as int, w[p + 1] as int, k - 1) * word_coeff(
            b,
            n,
            replace_pair(w, p, k - 1),
            target,
        )
    }
}

/// A value representable as `i64`.
pub open spec fn fits_i64(v: int) -> bool {
    i64::MIN <= v <= i64::MAX
}

/// Every coefficient, bracket term and partial sum met while straightening `w` (terms whose
/// bracket constant is zero are skipped) fits in `i64`.
pub open spec fn word_fits(b: spec_fn(int, int, int) -> int, n: nat, w: Seq<usize>, target: Seq<usize>) -> bool
    decreases w.len(), rank(w, n), n + 1,
{
    if !letters_below(w, n as int) {
        true
    } else if descent_from(w, 0) < 0 {
        true
    } else {
        let p = descent_from(w, 0);
        proof {
            lemma_descent(w, 0);
            lemma_swap_rank(w, p, n);
        }
        &&& word_fits(b, n, swap_at(w, p), target)
        &&& terms_fit(b, n, w, p, target, n as int)
        &&& fits_i64(word_coeff(b, n, swap_at(w, p), target) + bracket_terms(b, n, w, p, target, n as int))
    }
}

/// The bracket terms below `k` and their partial sums fit in `i64`.
pub open spec fn terms_fit(b: spec_fn(int, int, int) -> int, n: nat, w: Seq<usize>, p: int, target: Seq<usize>, k: int) -> bool
    decreases w.len(), rank(w, n), k,
{
    if k <= 0 || p < 0 || p + 1 >= w.len() {
        true
    } else {
        &&& terms_fit(b, n, w, p, target, k - 1)
        &&& (b(w[p] as int, w[p + 1] as int, k - 1) == 0 || {
            &&& word_fits(b, n, replace_pair(w, p, k - 1), target)
            &&& fits_i64(b(w[p] as int, w[p + 1] as int, k - 1) * word_coeff(b, n, replace_pair(w, p, k - 1), target))
            &&& fits_i64(bracket_terms(b, n, w, p, target, k))
        })
    }
}

proof fn lemma_terms_fit_prefix(b: spec_fn(int, int, int) -> int, n: nat, w: Seq<usize>, p: int, target: Seq<usize>, k: int, m: int)
    requires
        k <= m,
        terms_fit(b, n, w, p, target, m),
    ensures
        terms_fit(b, n, w, p, target, k),
    decreases m - k,
{
    if k < m && m > 0 && p >= 0 && p + 1 < w.len() {
        lemma_terms_fit_prefix(b, n, w, p, target, k, m - 1);
    }
}

// ---------------------------------------------------------------------------
// Size of the coefficients met while straightening
// ---------------------------------------------------------------------------

/// Every structure constant of `b` on `n` generators lies in `[-bound, bound]`.
pub open spec fn bracket_bounded(b: spec_fn(int, int, int) -> int, n: nat, bound: nat) -> bool {
    forall|i: int, j: int, l: int|
        0 <= i < n && 0 <= j < n && 0 <= l < n ==> -bound <= #[trigger] b(i, j, l) <= bound
}

/// `C_0 = 1` and `C_L = C_{L-1} · (1 + n^L · n · bound)`: no coefficient, bracket term or partial
/// sum met while straightening a word of length `L` over `n` generators exceeds `C_L` in
/// absolute value, when every structure constant lies in `[-bound, bound]`.
pub open spec fn coeff_bound(n: nat, bound: nat, len: nat) -> nat
    decreases len,
{
    if len == 0 {
        1
    } else {
        coeff_bound(n, bound, (len - 1) as nat) * (1 + power(n, len) * n * bound)
    }
}

proof fn lemma_power_positive(n: nat, e: nat)
    requires
        n >= 1,
    ensures
        power(n, e) >= 1,
    decreases e,
{
    if e > 0 {
        lemma_power_positive(n, (e - 1) as nat);
        let q = power(n, (e - 1) as nat);
        assert(n * q >= 1) by (nonlinear_arith)
            requires
                n >= 1,
                q >= 1,
        ;
    }
}

/// The bound is at least 1 and grows with the length of the word.
pub proof fn lemma_coeff_bound_mono(n: nat, bound: nat, a: nat, c: nat)
    requires
        a <= c,
    ensures
        1 <= coeff_bound(n, bound, a) <= coeff_bound(n, bound, c),
    decreases c,
{
    if c > 0 {
        if a < c {
            lemma_coeff_bound_mono(n, bound, a, (c - 1) as nat);
        } else {
            lemma_coeff_bound_mono(n, bound, (c - 1) as nat, (c - 1) as nat);
        }
        let prev = coeff_bound(n, bound, (c - 1) as nat);
        let f = 1 + power(n, c) * n * bound;
        assert(prev * f >= prev) by (nonlinear_arith)
            requires
                prev >= 1,
                f >= 1,
        ;
    }
}

proof fn lemma_replace_pair_letters(w: Seq<usize>, p: int, k: int, n: int)
    requires
        letters_below(w, n),
        0 <= p,
        p + 1 < w.len(),
        0 <= k < n,
    ensures
        letters_below(replace_pair(w, p, k), n),
        replace_pair(w, p, k).len() == w.len() - 1,
{
    let r = replace_pair(w, p, k);
    assert forall|t: int| 0 <= t < r.len() implies #[trigger] r[t] < n by {
        if t < p {
            assert(r[t] == w[t]);
        } else if t > p {
            assert(r[t] == w[t + 1]);
        }
    }
}

/// The coefficient of any word in the normal form of `w` is at most `C_{len w}` in absolute
/// value, and at most `1 + rank(w) · n · bound · C_{len w - 1}` for a nonempty `w`.
pub proof fn lemma_word_coeff_bound(b: spec_fn(int, int, int) -> int, n: nat, bound: nat, w: Seq<usize>, target: Seq<usize>)
    requires
        bracket_bounded(b, n, bound),
        letters_below(w, n as int),
    ensures
        -(coeff_bound(n, bound, w.len()) as int) <= word_coeff(b, n, w, target) <= coeff_bound(n, bound, w.len()),
        w.len() >= 1 ==> -(1 + rank(w, n) * (n * bound * coeff_bound(n, bound, (w.len() - 1) as nat)))
            <= word_coeff(b, n, w, target) <= 1 + rank(w, n) * (n * bound * coeff_bound(
            n,
            bound,
            (w.len() - 1) as nat,
        )),
    decreases w.len(), rank(w, n), n + 1,
{
    let len = w.len();
    let v = word_coeff(b, n, w, target);
    if descent_from(w, 0) < 0 {
        assert(v == 0 || v == 1);
        if len >= 1 {
            let kk = n * bound * coeff_bound(n, bound, (len - 1) as nat);
            let rw = rank(w, n);
            assert(rw * kk >= 0) by (nonlinear_arith)
                requires
                    rw >= 0,
                    kk >= 0,
            ;
        }
    } else {
        let p = descent_from(w, 0);
        lemma_descent(w, 0);
        lemma_swap_rank(w, p, n);
        let s = swap_at(w, p);
        lemma_word_coeff_bound(b, n, bound, s, target);
        lemma_bracket_terms_bound(b, n, bound, w, p, target, n as int);
        let c = coeff_bound(n, bound, (len - 1) as nat);
        let kk = n * bound * c;
        let rs = rank(s, n);
        let rw = rank(w, n);
        assert(v == word_coeff(b, n, s, target) + bracket_terms(b, n, w, p, target, n as int));
        assert(n * (bound * c) == kk) by (nonlinear_arith)
            requires
                kk == n * bound * c,
        ;
        assert(rs * kk + kk <= rw * kk) by (nonlinear_arith)
            requires
                rs + 1 <= rw,
                kk >= 0,
        ;
    }
    if len >= 1 {
        assert(w[0] < n);
        lemma_rank_bound(w, n);
        lemma_coeff_bound_mono(n, bound, (len - 1) as nat, (len - 1) as nat);
        let c = coeff_bound(n, bound, (len - 1) as nat);
        let pw = power(n, len);
        let rw = rank(w, n);
        let kk = n * bound * c;
        assert(coeff_bound(n, bound, len) == c * (1 + pw * n * bound));
        assert(1 + rw * kk <= c * (1 + pw * n * bound)) by (nonlinear_arith)
            requires
                rw < pw,
                c >= 1,
                kk == n * bound * c,
                rw >= 0,
        ;
    }
}

/// The first `k` bracket terms add up to at most `k · bound · C_{len w - 1}` in absolute value.
pub proof fn lemma_bracket_terms_bound(
    b: spec_fn(int, int, int) -> int,
    n: nat,
    bound: nat,
    w: Seq<usize>,
    p: int,
    target: Seq<usize>,
    k: int,
)
    requires
        bracket_bounded(b, n, bound),
        letters_below(w, n as int),
        0 <= p,
        p + 1 < w.len(),
        0 <= k <= n,
    ensures
        -(k * (bound * coeff_bound(n, bound, (w.len() - 1) as nat))) <= bracket_terms(b, n, w, p, target, k)
            <= k * (bound * coeff_bound(n, bound, (w.len() - 1) as nat)),
    decreases w.len(), rank(w, n), k,
{
    if k > 0 {
        lemma_bracket_terms_bound(b, n, bound, w, p, target, k - 1);
        let r = replace_pair(w, p, k - 1);
        lemma_replace_pair_letters(w, p, k - 1, n as int);
        lemma_word_coeff_bound(b, n, bound, r, target);
        let c = b(w[p] as int, w[p + 1] as int, k - 1);
        assert(w[p] < n && w[p + 1] < n);
        assert(-bound <= c <= bound);
        let x = word_coeff(b, n, r, target);
        let cb = coeff_bound(n, bound, (w.len() - 1) as nat);
        assert(r.len() == w.len() - 1);
        let m = bound * cb;
        assert(-m <= c * x <= m) by (nonlinear_arith)
            requires
                -bound <= c <= bound,
                -cb <= x <= cb,
                m == bound * cb,
                bound >= 0,
        ;
        assert((k - 1) * m + m == k * m) by (nonlinear_arith);
    }
}

/// When `C_{len w}` fits in `i64`, every value met while straightening `w` fits in `i64`.
pub proof fn lemma_word_fits_bounded(b: spec_fn(int, int, int) -> int, n: nat, bound: nat, w: Seq<usize>, target: Seq<usize>)
    requires
        bracket_bounded(b, n, bound),
        letters_below(w, n as int),
        coeff_bound(n, bound, w.len()) <= i64::MAX,
    ensures
        word_fits(b, n, w, target),
    decreases w.len(), rank(w, n), n + 1,
{
    if descent_from(w, 0) >= 0 {
        let p = descent_from(w, 0);
        lemma_descent(w, 0);
        lemma_swap_rank(w, p, n);
        let s = swap_at(w, p);
        lemma_word_fits_bounded(b, n, bound, s, target);
        lemma_terms_fit_bounded(b, n, bound, w, p, target, n as int);
        lemma_word_coeff_bound(b, n, bound, w, target);
        assert(word_coeff(b, n, w, target) == word_coeff(b, n, s, target) + bracket_terms(
            b,
            n,
            w,
            p,
            target,
            n as int,
        ));
    }
}

proof fn lemma_terms_fit_bounded(
    b: spec_fn(int, int, int) -> int,
    n: nat,
    bound: nat,
    w: Seq<usize>,
    p: int,
    target: Seq<usize>,
    k: int,
)
    requires
        bracket_bounded(b, n, bound),
        letters_below(w, n as int),
        0 <= p,
        p + 1 < w.len(),
        0 <= k <= n,
        coeff_bound(n, bound, w.len()) <= i64::MAX,
    ensures
        terms_fit(b, n, w, p, target, k),
    decreases w.len(), rank(w, n), k,
{
    if k > 0 {
        lemma_terms_fit_bounded(b, n, bound, w, p, target, k - 1);
        let r = replace_pair(w, p, k - 1);
        lemma_replace_pair_letters(w, p, k - 1, n as int);
        let len = w.len();
        lemma_coeff_bound_mono(n, bound, (len - 1) as nat, len);
        lemma_word_fits_bounded(b, n, bound, r, target);
        lemma_word_coeff_bound(b, n, bound, r, target);
        lemma_bracket_terms_bound(b, n, bound, w, p, target, k);
        let c = b(w[p] as int, w[p + 1] as int, k - 1);
        assert(w[p] < n && w[p + 1] < n);
        assert(-bound <= c <= bound);
        let x = word_coeff(b, n, r, target);
        let cb = coeff_bound(n, bound, (len - 1) as nat);
        let m = bound * cb;
        assert(-m <= c * x <= m) by (nonlinear_arith)
            requires
                -bound <= c <= bound,
                -cb <= x <= cb,
                m == bound * cb,
                bound >= 0,
        ;
        let pw = power(n, len);
        lemma_power_positive(n, len);
        let total = coeff_bound(n, bound, len);
        assert(total == cb * (1 + pw * n * bound));
        assert(k * m <= total && m <= total) by (nonlinear_arith)
            requires
                1 <= k <= n,
                pw >= 1,
                cb >= 1,
                m == bound * cb,
                total == cb * (1 + pw * n * bound),
                bound >= 0,
        ;
    }
}

/// Straightening `w` stays within `i64` for every bracket whose constants lie in
/// `[-bound, bound]` with `C_{len w}` in `i64`.
pub proof fn lemma_word_fits_any_bound(b: spec_fn(int, int, int) -> int, n: nat, w: Seq<usize>, target: Seq<usize>)
    requires
        letters_below(w, n as int),
    ensures
        forall|bound: nat|
            #[trigger] bracket_bounded(b, n, bound) && coeff_bound(n, bound, w.len()) <= i64::MAX
                ==> word_fits(b, n, w, target),
{
    assert forall|bound: nat|
        #[trigger] bracket_bounded(b, n, bound) && coeff_bound(n, bound, w.len()) <= i64::MAX implies word_fits(
        b,
        n,
        w,
        target,
    ) by {
        lemma_word_fits_bounded(b, n, bound, w, target);
    }
}

// ---------------------------------------------------------------------------
// Letter counts, and straightening for a vanishing bracket
// ---------------------------------------------------------------------------

/// Number of occurrences of the letter `x` in `w`.
pub open spec fn letter_count(w: Seq<usize>, x: int) -> nat
    decreases w.len(),
{
    if w.len() == 0 {
        0
    } else {
        letter_count(w.drop_last(), x) + (if w.last() == x {
            1nat
        } else {
            0nat
        })
    }
}

/// `w1` and `w2` hold the same letters, each as often.
pub open spec fn same_letters(w1: Seq<usize>, w2: Seq<usize>) -> bool {
    forall|x: int| #[trigger] letter_count(w1, x) == letter_count(w2, x)
}

/// The letters of `w` are in nondecreasing order.
pub open spec fn is_sorted_word(w: Seq<usize>) -> bool {
    forall|p: int, q: int| 0 <= p < q < w.len() ==> #[trigger] w[p] <= #[trigger] w[q]
}

/// Counting letters is additive over concatenation.
pub proof fn lemma_count_concat(a: Seq<usize>, b: Seq<usize>, x: int)
    ensures
        letter_count(a + b, x) == letter_count(a, x) + letter_count(b, x),
    decreases b.len(),
{
    if b.len() > 0 {
        lemma_count_concat(a, b.drop_last(), x);
        assert((a + b).drop_last() =~= a + b.drop_last());
    } else {
        assert(a + b =~= a);
    }
}

/// Exchanging two neighbouring letters keeps every letter count.
pub proof fn lemma_count_swap(w: Seq<usize>, p: int, x: int)
    requires
        0 <= p,
        p + 1 < w.len(),
    ensures
        letter_count(swap_at(w, p), x) == letter_count(w, x),
{
    let pre = w.take(p);
    let post = w.skip(p + 2);
    let ab = seq![w[p], w[p + 1]];
    let ba = seq![w[p + 1], w[p]];
    assert(w =~= pre + ab + post);
    assert(swap_at(w, p) =~= pre + ba + post);
    lemma_count_concat(pre + ab, post, x);
    lemma_count_concat(pre, ab, x);
    lemma_count_concat(pre + ba, post, x);
    lemma_count_concat(pre, ba, x);
    assert(ab.drop_last() =~= seq![w[p]]);
    assert(ba.drop_last() =~= seq![w[p + 1]]);
    assert(seq![w[p]].drop_last() =~= Seq::<usize>::empty());
    assert(seq![w[p + 1]].drop_last() =~= Seq::<usize>::empty());
    let cp: nat = if w[p] == x {
        1
    } else {
        0
    };
    let cq: nat = if w[p + 1] == x {
        1
    } else {
        0
    };
    assert(letter_count(Seq::<usize>::empty(), x) == 0);
    assert(letter_count(seq![w[p]], x) == cp);
    assert(letter_count(seq![w[p + 1]], x) == cq);
    assert(ab.len() == 2 && ab.last() == w[p + 1]);
    assert(ba.len() == 2 && ba.last() == w[p]);
    assert(letter_count(ab.drop_last(), x) == cp);
    assert(letter_count(ba.drop_last(), x) == cq);
    assert(letter_count(ab, x) == cp + cq);
    assert(letter_count(ba, x) == cq + cp);
}

/// A letter at some position of `w` is counted at least once.
pub proof fn lemma_count_member(w: Seq<usize>, i: int)
    requires
        0 <= i < w.len(),
    ensures
        letter_count(w, w[i] as int) > 0,
    decreases w.len(),
{
    if i < w.len() - 1 {
        lemma_count_member(w.drop_last(), i);
    }
}

proof fn lemma_count_positive(w: Seq<usize>, x: int)
    requires
        letter_count(w, x) > 0,
    ensures
        exists|i: int| 0 <= i < w.len() && #[trigger] w[i] == x,
    decreases w.len(),
{
    if w.last() == x {
        assert(w[w.len() - 1] == x);
    } else {
        lemma_count_positive(w.drop_last(), x);
        let i = choose|i: int| 0 <= i < w.drop_last().len() && #[trigger] w.drop_last()[i] == x;
        assert(w[i] == x);
    }
}

/// Two sorted words holding the same letters are equal.
pub proof fn lemma_sorted_same_letters(w1: Seq<usize>, w2: Seq<usize>)
    requires
        is_sorted_word(w1),
        is_sorted_word(w2),
        same_letters(w1, w2),
    ensures
        w1 == w2,
    decreases w1.len() + w2.len(),
{
    if w1.len() == 0 && w2.len() == 0 {
        assert(w1 =~= w2);
    } else if w1.len() == 0 {
        lemma_count_member(w2, w2.len() - 1);
        assert(letter_count(w1, w2.last() as int) == 0);
    } else if w2.len() == 0 {
        lemma_count_member(w1, w1.len() - 1);
        assert(letter_count(w2, w1.last() as int) == 0);
    } else {
        let x1 = w1.last();
        let x2 = w2.last();
        lemma_count_member(w1, w1.len() - 1);
        lemma_count_member(w2, w2.len() - 1);
        assert(letter_count(w2, x1 as int) > 0);
        assert(letter_count(w1, x2 as int) > 0);
        lemma_count_positive(w2, x1 as int);
        lemma_count_positive(w1, x2 as int);
        let i2 = choose|i: int| 0 <= i < w2.len() && #[trigger] w2[i] == x1;
        let i1 = choose|i: int| 0 <= i < w1.len() && #[trigger] w1[i] == x2;
        if i2 < w2.len() - 1 {
            assert(w2[i2] <= w2[w2.len() - 1]);
        }
        if i1 < w1.len() - 1 {
            assert(w1[i1] <= w1[w1.len() - 1]);
        }
        assert(x1 == x2);
        let v1 = w1.drop_last();
        let v2 = w2.drop_last();
        assert forall|x: int| #[trigger] letter_count(v1, x) == letter_count(v2, x) by {
            assert(letter_count(w1, x) == letter_count(w2, x));
        }
        assert forall|p: int, q: int| 0 <= p < q < v1.len() implies #[trigger] v1[p] <= #[trigger] v1[q] by {
            assert(w1[p] <= w1[q]);
        }
        assert forall|p: int, q: int| 0 <= p < q < v2.len() implies #[trigger] v2[p] <= #[trigger] v2[q] by {
            assert(w2[p] <= w2[q]);
        }
        lemma_sorted_same_letters(v1, v2);
        assert(w1 =~= v1.push(x1));
        assert(w2 =~= v2.push(x2));
    }
}

/// A word without a descent is sorted.
proof fn lemma_no_descent_sorted(w: Seq<usize>)
    requires
        descent_from(w, 0) == -1,
    ensures
        is_sorted_word(w),
{
    lemma_descent(w, 0);
    assert forall|p: int, q: int| 0 <= p < q < w.len() implies #[trigger] w[p] <= #[trigger] w[q] by {
        lemma_adjacent_chain(w, p, q);
    }
}

proof fn lemma_adjacent_chain(w: Seq<usize>, p: int, q: int)
    requires
        0 <= p <= q < w.len(),
        forall|r: int| 0 <= r && r + 1 < w.len() ==> #[trigger] w[r] <= w[r + 1],
    ensures
        w[p] <= w[q],
    decreases q - p,
{
    if p < q {
        lemma_adjacent_chain(w, p, q - 1);
        assert(w[q - 1] <= w[q]);
    }
}

proof fn lemma_bracket_terms_vanish(b: spec_fn(int, int, int) -> int, n: nat, w: Seq<usize>, p: int, target: Seq<usize>, k: int)
    requires
        forall|i: int, j: int, l: int|
            0 <= i < n && 0 <= j < n && 0 <= l < n ==> #[trigger] b(i, j, l) == 0,
        letters_below(w, n as int),
        0 <= p,
        p + 1 < w.len(),
        k <= n,
    ensures
        bracket_terms(b, n, w, p, target, k) == 0,
    decreases k,
{
    if k > 0 {
        lemma_bracket_terms_vanish(b, n, w, p, target, k - 1);
        let c = b(w[p] as int, w[p + 1] as int, k - 1);
        let v = word_coeff(b, n, replace_pair(w, p, k - 1), target);
        assert(w[p] < n && w[p + 1] < n);
        assert(c == 0);
        assert(c * v == 0) by (nonlinear_arith)
            requires
                c == 0,
        ;
    }
}

/// For a bracket that vanishes on the generators, straightening only reorders: the
/// coefficient of a sorted word `target` in the normal form of `w` is 1 when the two hold the
/// same letters and 0 otherwise.
pub proof fn lemma_vanishing_bracket_coeff(b: spec_fn(int, int, int) -> int, n: nat, w: Seq<usize>, target: Seq<usize>)
    requires
        forall|i: int, j: int, l: int|
            0 <= i < n && 0 <= j < n && 0 <= l < n ==> #[trigger] b(i, j, l) == 0,
        letters_below(w, n as int),
        is_sorted_word(target),
    ensures
        word_coeff(b, n, w, target) == (if same_letters(w, target) {
            1int
        } else {
            0int
        }),
    decreases w.len(), rank(w, n),
{
    if descent_from(w, 0) < 0 {
        lemma_descent(w, 0);
        lemma_no_descent_sorted(w);
        if same_letters(w, target) {
            lemma_sorted_same_letters(w, target);
        }
    } else {
        let p = descent_from(w, 0);
        lemma_descent(w, 0);
        lemma_swap_rank(w, p, n);
        lemma_vanishing_bracket_coeff(b, n, swap_at(w, p), target);
        lemma_bracket_terms_vanish(b, n, w, p, target, n as int);
        assert forall|x: int| #[trigger] letter_count(swap_at(w, p), x) == letter_count(w, x) by {
            lemma_count_swap(w, p, x);
        }
        if same_letters(w, target) {
            assert forall|x: int| #[trigger] letter_count(swap_at(w, p), x) == letter_count(target, x) by {
                assert(letter_count(w, x) == letter_count(target, x));
            }
        }
        if same_letters(swap_at(w, p), target) {
            assert forall|x: int| #[trigger] letter_count(w, x) == letter_count(target, x) by {
                assert(letter_count(swap_at(w, p), x) == letter_count(target, x));
            }
        }
    }
}

// ---------------------------------------------------------------------------
// Executable straightening
// ---------------------------------------------------------------------------

fn same_word(a: &Vec<usize>, b: &Vec<usize>) -> (same: bool)
    ensures
        same == (a@ == b@),
{
    if a.len() != b.len() {
        return false;
    }
    let mut t: usize = 0;
    while t < a.len()
        invariant
            a@.len() == b@.len(),
            t <= a@.len(),
            forall|s: int| 0 <= s < t ==> a@[s] == b@[s],
        decreases a@.len() - t,
    {
        if a[t] != b[t] {
            return false;
        }
        t = t + 1;
    }
    assert(a@ =~= b@);
    true
}

fn find_descent(w: &Vec<usize>) -> (p: Option<usize>)
    ensures
        match p {
            Some(q) => q as int == descent_from(w@, 0) && q >= 0,
            None => descent_from(w@, 0) == -1,
        },
{
    if w.len() == 0 {
        return None;
    }
    let mut q: usize = 0;
    while q < w.len() - 1
        invariant
            w@.len() > 0,
            descent_from(w@, 0) == descent_from(w@, q as int),
            q <= w@.len(),
        decreases w@.len() - q,
    {
        if w[q] > w[q + 1] {
            return Some(q);
        }
        q = q + 1;
    }
    None
}

fn swap_word(w: &Vec<usize>, p: usize) -> (s: Vec<usize>)
    requires
        p + 1 < w@.len(),
    ensures
        s@ == swap_at(w@, p as int),
{
    let mut s = w.clone();
    assert(s@ =~= w@);
    let a = w[p];
    let c = w[p + 1];
    s.set(p, c);
    s.set(p + 1, a);
    s
}

fn replace_word(w: &Vec<usize>, p: usize, k: usize) -> (r: Vec<usize>)
    requires
        p + 1 < w@.len(),
    ensures
        r@ == replace_pair(w@, p as int, k as int),
{
    let mut r: Vec<usize> = Vec::new();
    let mut t: usize = 0;
    while t < p
        invariant
            t <= p,
            p + 1 < w@.len(),
            r@ == w@.take(t as int),
        decreases p - t,
    {
        r.push(w[t]);
        t = t + 1;
        assert(r@ =~= w@.take(t as int));
    }
    r.push(k);
    let len = w.len();
    assert(p + 2 <= len);
    let mut t: usize = p + 2;
    while t < w.len()
        invariant
            p + 2 <= t <= w@.len(),
            r@ == w@.take(p as int).push(k) + w@.subrange(p + 2, t as int),
        decreases w@.len() - t,
    {
        r.push(w[t]);
        t = t + 1;
        assert(r@ =~= w@.take(p as int).push(k) + w@.subrange(p + 2, t as int));
    }
    assert(w@.subrange(p + 2, w@.len() as int) =~= w@.skip(p + 2));
    r
}

/// The coefficient of `target` in the PBW normal form of `w`, or `None` when a value met on
/// the way does not fit in `i64`.
pub fn straighten_coeff(bracket: &Vec<Vec<Vec<i64>>>, n: usize, w: Vec<usize>, target: &Vec<usize>) -> (r: Option<i64>)
    requires
        is_cube(bracket@, n as int),
        letters_below(w@, n as int),
    ensures
        match r {
            Some(v) => word_fits(table_fn(bracket@), n as nat, w@, target@) && v == word_coeff(
                table_fn(bracket@),
                n as nat,
                w@,
                target@,
            ),
            None => !word_fits(table_fn(bracket@), n as nat, w@, target@),
        },
        r is None ==> forall|bound: nat|
            #[trigger] bracket_bounded(table_fn(bracket@), n as nat, bound) ==> coeff_bound(
                n as nat,
                bound,
                w@.len(),
            ) > i64::MAX,
    decreases w@.len(), rank(w@, n as nat), n + 1,
{
    let ghost b = table_fn(bracket@);
    proof {
        lemma_word_fits_any_bound(b, n as nat, w@, target@);
    }
    match find_descent(&w) {
        None => {
            if same_word(&w, target) {
                Some(1)
            } else {
                Some(0)
            }
        },
        Some(p) => {
            proof {
                lemma_descent(w@, 0);
                lemma_swap_rank(w@, p as int, n as nat);
            }
            let s = swap_word(&w, p);
            let first = match straighten_coeff(bracket, n, s, target) {
                Some(v) => v,
                None => {
                    return None;
                },
            };
            let i = w[p];
            let j = w[p + 1];
            let mut acc: i64 = 0;
            let mut k: usize = 0;
            while k < n
                invariant
                    is_cube(bracket@, n as int),
                    letters_below(w@, n as int),
                    b == table_fn(bracket@),
                    p + 1 < w@.len(),
                    descent_from(w@, 0) == p as int,
                    i == w@[p as int],
                    j == w@[p + 1],
                    k <= n,
                    acc == bracket_terms(b, n as nat, w@, p as int, target@, k as int),
                    terms_fit(b, n as nat, w@, p as int, target@, k as int),
                decreases n - k,
            {
                let c = bracket[i][j][k];
                assert(c == b(i as int, j as int, k as int));
                if c != 0 {
                    let r = replace_word(&w, p, k);
                    assert(letters_below(r@, n as int)) by {
                        assert forall|t: int| 0 <= t < r@.len() implies #[trigger] r@[t] < n by {
                            if t < p {
                                assert(r@[t] == w@[t]);
                            } else if t > p {
                                assert(r@[t] == w@[t + 1]);
                            }
                        }
                    }
                    let x = match straighten_coeff(bracket, n, r, target) {
                        Some(v) => v,
                        None => {
                            proof {
                                if word_fits(b, n as nat, w@, target@) {
                                    assert(terms_fit(b, n as nat, w@, p as int, target@, n as int));
                                    lemma_terms_fit_prefix(b, n as nat, w@, p as int, target@, k as int + 1, n as int);
                                    assert(replace_pair(w@, p as int, k as int + 1 - 1) == r@);
                                    assert(word_fits(b, n as nat, r@, target@));
                                }
                            }
                            proof {
                                lemma_word_fits_any_bound(b, n as nat, w@, target@);
                            }
                            return None;
                        },
                    };
                    let y = match c.checked_mul(x) {
                        Some(v) => v,
                        None => {
                            proof {
                                if word_fits(b, n as nat, w@, target@) {
                                    assert(terms_fit(b, n as nat, w@, p as int, target@, n as int));
                                    lemma_terms_fit_prefix(b, n as nat, w@, p as int, target@, k as int + 1, n as int);
                                    assert(replace_pair(w@, p as int, k as int + 1 - 1) == r@);
                                    assert(fits_i64(c * x));
                                }
                            }
                            proof {
                                lemma_word_fits_any_bound(b, n as nat, w@, target@);
                            }
                            return None;
                        },
                    };
                    acc = match acc.checked_add(y) {
                        Some(v) => v,
                        None => {
                            proof {
                                if word_fits(b, n as nat, w@, target@) {
                                    assert(terms_fit(b, n as nat, w@, p as int, target@, n as int));
                                    lemma_terms_fit_prefix(b, n as nat, w@, p as int, target@, k as int + 1, n as int);
                                    assert(replace_pair(w@, p as int, k as int + 1 - 1) == r@);
                                }
                            }
                            proof {
                                lemma_word_fits_any_bound(b, n as nat, w@, target@);
                            }
                            return None;
                        },
                    };
                    proof {
                        assert(r@ == replace_pair(w@, p as int, k as int));
                        assert(x == word_coeff(b, n as nat, replace_pair(w@, p as int, k as int), target@));
                        assert(acc == bracket_terms(b, n as nat, w@, p as int, target@, k as int + 1));
                    }
                }
                k = k + 1;
            }
            proof {
                lemma_word_fits_any_bound(b, n as nat, w@, target@);
            }
            first.checked_add(acc)
        },
    }
}

} // verus!
