//! Exponent vectors of PBW monomials `e_0^{d_0} e_1^{d_1} ... e_{n-1}^{d_{n-1}}`,
//! their total degree, and the lexicographic order in which they are enumerated.
use vstd::prelude::*;

verus! {

/// Total degree `d_0 + ... + d_{n-1}` of an exponent vector.
pub open spec fn degree(m: Seq<usize>) -> int
    decreases m.len(),
{
    if m.len() == 0 {
        0
    } else {
        degree(m.drop_last()) + m.last()
    }
}

/// `m` is the exponent vector of a monomial in `dim` generators of total degree at most `max_degree`.
pub open spec fn is_monomial(m: Seq<usize>, dim: int, max_degree: int) -> bool {
    &&& m.len() == dim
    &&& degree(m) <= max_degree
}

/// `a` and `b` agree before position `k`, and `a[k] < b[k]`.
pub open spec fn lex_lt_at(a: Seq<usize>, b: Seq<usize>, k: int) -> bool {
    &&& a.len() == b.len()
    &&& 0 <= k < a.len()
    &&& forall|t: int| 0 <= t < k ==> a[t] == b[t]
    &&& a[k] < b[k]
}

/// Strict lexicographic order on exponent vectors of equal length.
pub open spec fn lex_lt(a: Seq<usize>, b: Seq<usize>) -> bool {
    exists|k: int| lex_lt_at(a, b, k)
}

/// The zero exponent vector (the monomial 1).
pub open spec fn zero_monomial(dim: int) -> Seq<usize> {
    Seq::new(dim as nat, |t: int| 0usize)
}

/// The largest `i < dim` with `m[0] + ... + m[i] < max_degree`, or `-1` when there is none.
pub open spec fn raise_position(m: Seq<usize>, dim: int, max_degree: int) -> int
    decreases dim,
{
    if dim <= 0 {
        -1
    } else if degree(m.take(dim)) < max_degree {
        dim - 1
    } else {
        raise_position(m, dim - 1, max_degree)
    }
}

/// `m` with `m[i]` raised by one and the entries `i+1 .. dim` set to zero.
pub open spec fn raise_at(m: Seq<usize>, i: int, dim: int) -> Seq<usize> {
    Seq::new(
        m.len(),
        |t: int|
            if t < i {
                m[t]
            } else if t == i {
                (m[i] + 1) as usize
            } else if t < dim {
                0usize
            } else {
                m[t]
            },
    )
}

/// Positional value of `m` read as digits in base `b` (most significant first).
pub open spec fn rank(m: Seq<usize>, b: nat) -> nat
    decreases m.len(),
{
    if m.len() == 0 {
        0
    } else {
        m[0] as nat * power(b, (m.len() - 1) as nat) + rank(m.drop_first(), b)
    }
}

/// `b^e`.
pub open spec fn power(b: nat, e: nat) -> nat
    decreases e,
{
    if e == 0 {
        1
    } else {
        b * power(b, (e - 1) as nat)
    }
}

// ---------------------------------------------------------------------------
// Lemmas on degrees
// ---------------------------------------------------------------------------

pub proof fn lemma_degree_take_step(m: Seq<usize>, k: int)
    requires
        0 <= k < m.len(),
    ensures
        degree(m.take(k + 1)) == degree(m.take(k)) + m[k],
{
    assert(m.take(k + 1).drop_last() =~= m.take(k));
}

pub proof fn lemma_degree_nonneg(m: Seq<usize>)
    ensures
        degree(m) >= 0,
    decreases m.len(),
{
    if m.len() > 0 {
        lemma_degree_nonneg(m.drop_last());
    }
}

/// Prefix degrees grow with the prefix.
pub proof fn lemma_degree_take_mono(m: Seq<usize>, a: int, b: int)
    requires
        0 <= a <= b <= m.len(),
    ensures
        degree(m.take(a)) <= degree(m.take(b)),
    decreases b - a,
{
    if a < b {
        lemma_degree_take_mono(m, a, b - 1);
        lemma_degree_take_step(m, b - 1);
    }
}

pub proof fn lemma_degree_take_full(m: Seq<usize>)
    ensures
        degree(m.take(m.len() as int)) == degree(m),
{
    assert(m.take(m.len() as int) =~= m);
}

/// Every entry is bounded by the prefix degree that contains it.
pub proof fn lemma_entry_le_degree(m: Seq<usize>, t: int)
    requires
        0 <= t < m.len(),
    ensures
        m[t] <= degree(m.take(t + 1)),
        m[t] <= degree(m),
{
    lemma_degree_take_step(m, t);
    lemma_degree_nonneg(m.take(t));
    lemma_degree_take_mono(m, t + 1, m.len() as int);
    lemma_degree_take_full(m);
}

proof fn lemma_degree_agree(a: Seq<usize>, b: Seq<usize>, k: int)
    requires
        0 <= k <= a.len(),
        k <= b.len(),
        forall|t: int| 0 <= t < k ==> a[t] == b[t],
    ensures
        degree(a.take(k)) == degree(b.take(k)),
{
    assert(a.take(k) =~= b.take(k));
}

proof fn lemma_degree_zeros(dim: int)
    requires
        dim >= 0,
    ensures
        degree(zero_monomial(dim)) == 0,
    decreases dim,
{
    if dim > 0 {
        assert(zero_monomial(dim).drop_last() =~= zero_monomial(dim - 1));
        lemma_degree_zeros(dim - 1);
    }
}

/// Degree of a sequence that is zero from position `k` on.
proof fn lemma_degree_zero_tail(m: Seq<usize>, k: int)
    requires
        0 <= k <= m.len(),
        forall|t: int| k <= t < m.len() ==> m[t] == 0,
    ensures
        degree(m) == degree(m.take(k)),
    decreases m.len() - k,
{
    if k < m.len() {
        lemma_degree_take_step(m, k);
        lemma_degree_zero_tail(m, k + 1);
    } else {
        lemma_degree_take_full(m);
    }
}

// ---------------------------------------------------------------------------
// Lemmas on the lexicographic order
// ---------------------------------------------------------------------------

pub proof fn lemma_lex_irreflexive(a: Seq<usize>)
    ensures
        !lex_lt(a, a),
{
}

pub proof fn lemma_lex_transitive(a: Seq<usize>, b: Seq<usize>, c: Seq<usize>)
    requires
        lex_lt(a, b),
        lex_lt(b, c),
    ensures
        lex_lt(a, c),
{
    let k1 = choose|k: int| lex_lt_at(a, b, k);
    let k2 = choose|k: int| lex_lt_at(b, c, k);
    if k1 <= k2 {
        assert(lex_lt_at(a, c, k1));
    } else {
        assert(lex_lt_at(a, c, k2));
    }
}

pub proof fn lemma_lex_asymmetric(a: Seq<usize>, b: Seq<usize>)
    requires
        lex_lt(a, b),
    ensures
        !lex_lt(b, a),
{
    if lex_lt(b, a) {
        lemma_lex_transitive(a, b, a);
    }
}

/// Any two distinct vectors of equal length are comparable.
pub proof fn lemma_lex_total(a: Seq<usize>, b: Seq<usize>)
    requires
        a.len() == b.len(),
        a != b,
    ensures
        lex_lt(a, b) || lex_lt(b, a),
{
    if forall|t: int| 0 <= t < a.len() ==> a[t] == b[t] {
        assert(a =~= b);
    }
    let k0 = choose|t: int| 0 <= t < a.len() && a[t] != b[t];
    let k = first_difference(a, b, k0);
    if a[k] < b[k] {
        assert(lex_lt_at(a, b, k));
    } else {
        assert(lex_lt_at(b, a, k));
    }
}

/// The first position at which `a` and `b` differ, given that they differ at `k0`.
proof fn first_difference(a: Seq<usize>, b: Seq<usize>, k0: int) -> (k: int)
    requires
        0 <= k0 < a.len(),
        a.len() == b.len(),
        a[k0] != b[k0],
    ensures
        0 <= k <= k0,
        a[k] != b[k],
        forall|t: int| 0 <= t < k ==> a[t] == b[t],
    decreases k0,
{
    if forall|t: int| 0 <= t < k0 ==> a[t] == b[t] {
        k0
    } else {
        let k1 = choose|t: int| 0 <= t < k0 && a[t] != b[t];
        first_difference(a, b, k1)
    }
}

// ---------------------------------------------------------------------------
// Positional value: the measure that shows the enumeration terminates
// ---------------------------------------------------------------------------

/// Digits below `b` give a value below `b^len`.
pub proof fn lemma_rank_bound(m: Seq<usize>, b: nat)
    requires
        b >= 1,
        forall|t: int| 0 <= t < m.len() ==> m[t] < b,
    ensures
        rank(m, b) < power(b, m.len() as nat),
    decreases m.len(),
{
    if m.len() > 0 {
        let rest = m.drop_first();
        lemma_rank_bound(rest, b);
        let p = power(b, (m.len() - 1) as nat);
        let d = m[0] as nat;
        assert(power(b, m.len() as nat) == b * p);
        assert(d * p + p <= b * p) by (nonlinear_arith)
            requires
                d < b,
        ;
    }
}

/// The lexicographic order agrees with the positional value.
pub proof fn lemma_rank_lex(a: Seq<usize>, c: Seq<usize>, k: int, b: nat)
    requires
        b >= 1,
        lex_lt_at(a, c, k),
        forall|t: int| 0 <= t < a.len() ==> a[t] < b,
        forall|t: int| 0 <= t < c.len() ==> c[t] < b,
    ensures
        rank(a, b) < rank(c, b),
    decreases k,
{
    let p = power(b, (a.len() - 1) as nat);
    if k == 0 {
        lemma_rank_bound(a.drop_first(), b);
        let da = a[0] as nat;
        let dc = c[0] as nat;
        assert(da * p + p <= dc * p) by (nonlinear_arith)
            requires
                da < dc,
        ;
    } else {
        assert(lex_lt_at(a.drop_first(), c.drop_first(), k - 1));
        lemma_rank_lex(a.drop_first(), c.drop_first(), k - 1, b);
    }
}

// ---------------------------------------------------------------------------
// The successor step
// ---------------------------------------------------------------------------

/// What `raise_position` returns: past it, every prefix degree has reached `max_degree`.
proof fn lemma_raise_position(m: Seq<usize>, dim: int, max_degree: int)
    requires
        0 <= dim <= m.len(),
    ensures
        -1 <= raise_position(m, dim, max_degree) < dim,
        raise_position(m, dim, max_degree) >= 0 ==> degree(
            m.take(raise_position(m, dim, max_degree) + 1),
        ) < max_degree,
        forall|s: int|
            raise_position(m, dim, max_degree) + 1 < s <= dim ==> degree(#[trigger] m.take(s))
                >= max_degree,
    decreases dim,
{
    if dim > 0 && degree(m.take(dim)) >= max_degree {
        lemma_raise_position(m, dim - 1, max_degree);
    }
}

/// Stepping from a monomial `m` as `increment_monomial` does yields the next monomial in
/// lexicographic order: it is a monomial, it comes after `m`, and no monomial lies strictly
/// between the two. When no position can be raised, no monomial comes after `m`.
pub proof fn lemma_raise_is_successor(m: Seq<usize>, dim: int, max_degree: int)
    requires
        is_monomial(m, dim, max_degree),
        max_degree <= usize::MAX,
    ensures
        raise_position(m, dim, max_degree) >= 0 ==> {
            let next = raise_at(m, raise_position(m, dim, max_degree), dim);
            &&& is_monomial(next, dim, max_degree)
            &&& lex_lt(m, next)
            &&& forall|v: Seq<usize>|
                is_monomial(v, dim, max_degree) && lex_lt(m, v) ==> !lex_lt(v, next)
        },
        raise_position(m, dim, max_degree) < 0 ==> forall|v: Seq<usize>|
            is_monomial(v, dim, max_degree) ==> !lex_lt(m, v),
{
    let i = raise_position(m, dim, max_degree);
    lemma_raise_position(m, dim, max_degree);
    if i >= 0 {
        let next = raise_at(m, i, dim);
        // degree of the successor
        lemma_degree_take_step(m, i);
        lemma_degree_take_step(next, i);
        lemma_degree_agree(m, next, i);
        lemma_degree_zero_tail(next, i + 1);
        lemma_degree_nonneg(m.take(i));
        assert(is_monomial(next, dim, max_degree));
        assert(lex_lt_at(m, next, i));
        assert forall|v: Seq<usize>|
            is_monomial(v, dim, max_degree) && lex_lt(m, v) implies !lex_lt(v, next) by {
            let k = choose|k: int| lex_lt_at(m, v, k);
            if k > i {
                lemma_degree_agree(m, v, k);
                lemma_degree_take_step(m, k);
                lemma_degree_take_step(v, k);
                lemma_degree_take_mono(v, k + 1, dim);
                lemma_degree_take_full(v);
                assert(degree(m.take(k + 1)) >= max_degree);
                lemma_degree_nonneg(v);
                assert(false);
            } else if k < i {
                assert(lex_lt_at(next, v, k));
                lemma_lex_asymmetric(next, v);
            } else {
                if v[i] > next[i] {
                    assert(lex_lt_at(next, v, i));
                    lemma_lex_asymmetric(next, v);
                } else if lex_lt(v, next) {
                    let k2 = choose|k2: int| lex_lt_at(v, next, k2);
                    assert(k2 > i);
                    assert(false);
                }
            }
        }
    } else {
        assert forall|v: Seq<usize>| is_monomial(v, dim, max_degree) implies !lex_lt(m, v) by {
            if lex_lt(m, v) {
                let k = choose|k: int| lex_lt_at(m, v, k);
                lemma_degree_agree(m, v, k);
                lemma_degree_take_step(m, k);
                lemma_degree_take_step(v, k);
                lemma_degree_take_mono(v, k + 1, dim);
                lemma_degree_take_full(v);
                assert(degree(m.take(k + 1)) >= max_degree);
            }
        }
    }
}

// ---------------------------------------------------------------------------
// Executable enumeration
// ---------------------------------------------------------------------------

/// `m[0] + ... + m[end - 1]`.
fn prefix_degree(m: &Vec<usize>, end: usize) -> (total: usize)
    requires
        end <= m.len(),
        degree(m@.take(end as int)) <= usize::MAX,
    ensures
        total == degree(m@.take(end as int)),
{
    let mut total: usize = 0;
    let mut t: usize = 0;
    while t < end
        invariant
            t <= end <= m.len(),
            degree(m@.take(end as int)) <= usize::MAX,
            total == degree(m@.take(t as int)),
        decreases end - t,
    {
        proof {
            lemma_degree_take_step(m@, t as int);
            lemma_degree_take_mono(m@, t as int + 1, end as int);
        }
        total = total + m[t];
        t = t + 1;
    }
    total
}

/// Advance `m` to the next exponent vector in lexicographic order whose total degree stays
/// at most `max_degree`: raise the last entry whose prefix degree is still below
/// `max_degree` and clear the entries after it (up to `dim`). Returns `false`, leaving `m`
/// unchanged, when there is no such entry.
pub fn increment_monomial(m: &mut Vec<usize>, dim: usize, max_degree: usize) -> (advanced: bool)
    requires
        dim <= old(m).len(),
        degree(old(m)@.take(dim as int)) <= usize::MAX,
    ensures
        advanced == (raise_position(old(m)@, dim as int, max_degree as int) >= 0),
        advanced ==> final(m)@ == raise_at(
            old(m)@,
            raise_position(old(m)@, dim as int, max_degree as int),
            dim as int,
        ),
        !advanced ==> final(m)@ == old(m)@,
        is_monomial(old(m)@, dim as int, max_degree as int) ==> (advanced <==> exists|v: Seq<usize>|
            #[trigger] is_monomial(v, dim as int, max_degree as int) && lex_lt(old(m)@, v)),
        is_monomial(old(m)@, dim as int, max_degree as int) && advanced ==> {
            &&& is_monomial(final(m)@, dim as int, max_degree as int)
            &&& lex_lt(old(m)@, final(m)@)
            &&& forall|v: Seq<usize>|
                is_monomial(v, dim as int, max_degree as int) && lex_lt(old(m)@, v) ==> !#[trigger] lex_lt(
                    v,
                    final(m)@,
                )
        },
{
    let ghost m0 = m@;
    proof {
        lemma_raise_position(m0, dim as int, max_degree as int);
    }
    let mut i: usize = dim;
    while i > 0
        invariant
            i <= dim <= m.len(),
            m@ == m0,
            old(m)@ == m0,
            degree(m0.take(dim as int)) <= usize::MAX,
            raise_position(m0, dim as int, max_degree as int) < i,
        decreases i,
    {
        i = i - 1;
        proof {
            lemma_raise_position(m0, dim as int, max_degree as int);
            lemma_degree_take_mono(m0, i as int + 1, dim as int);
        }
        let partial = prefix_degree(m, i + 1);
        if partial < max_degree {
            proof {
                assert(raise_position(m0, dim as int, max_degree as int) == i) by {
                    if raise_position(m0, dim as int, max_degree as int) < i {
                        assert(degree(m0.take(i + 1)) >= max_degree);
                    }
                }
                lemma_degree_take_step(m0, i as int);
                lemma_degree_nonneg(m0.take(i as int));
            }
            let raised = m[i] + 1;
            m.set(i, raised);
            let mut j: usize = i + 1;
            while j < dim
                invariant
                    i < j <= dim <= m.len(),
                    m@.len() == m0.len(),
                    forall|t: int| 0 <= t < i ==> m@[t] == m0[t],
                    m@[i as int] == m0[i as int] + 1,
                    forall|t: int| i < t < j ==> m@[t] == 0,
                    forall|t: int| j <= t < m0.len() ==> m@[t] == m0[t],
                decreases dim - j,
            {
                m.set(j, 0);
                j = j + 1;
            }
            assert(m@ =~= raise_at(m0, i as int, dim as int));
            proof {
                if is_monomial(m0, dim as int, max_degree as int) {
                    lemma_raise_is_successor(m0, dim as int, max_degree as int);
                    assert(is_monomial(m@, dim as int, max_degree as int));
                }
            }
            return true;
        }
        proof {
            if raise_position(m0, dim as int, max_degree as int) == i {
                assert(degree(m0.take(i + 1)) < max_degree);
            }
        }
    }
    proof {
        if is_monomial(m0, dim as int, max_degree as int) {
            lemma_raise_is_successor(m0, dim as int, max_degree as int);
        }
    }
    false
}

/// All exponent vectors in `dim` generators of total degree at most `max_degree`, in strictly
/// increasing lexicographic order, starting with the zero vector.
pub fn generate_monomials(dim: usize, max_degree: usize) -> (monomials: Vec<Vec<usize>>)
    ensures
        monomials@.len() >= 1,
        monomials@[0]@ == zero_monomial(dim as int),
        forall|a: int|
            0 <= a < monomials@.len() ==> is_monomial(
                #[trigger] monomials@[a]@,
                dim as int,
                max_degree as int,
            ),
        forall|a: int, b: int|
            0 <= a < b < monomials@.len() ==> lex_lt(
                #[trigger] monomials@[a]@,
                #[trigger] monomials@[b]@,
            ),
        forall|v: Seq<usize>|
            #[trigger] is_monomial(v, dim as int, max_degree as int) ==> exists|a: int|
                0 <= a < monomials@.len() && #[trigger] monomials@[a]@ == v,
{
    let mut result: Vec<Vec<usize>> = Vec::new();
    let mut current: Vec<usize> = Vec::new();
    let mut t: usize = 0;
    while t < dim
        invariant
            t <= dim,
            current@ == zero_monomial(t as int),
        decreases dim - t,
    {
        current.push(0);
        t = t + 1;
        assert(current@ =~= zero_monomial(t as int));
    }
    proof {
        lemma_degree_zeros(dim as int);
    }
    let ghost base: nat = max_degree as nat + 1;
    let ghost start = current@;
    loop
        invariant
            is_monomial(current@, dim as int, max_degree as int),
            base == max_degree as nat + 1,
            start == zero_monomial(dim as int),
            result@.len() >= 1 ==> result@[0]@ == start,
            result@.len() == 0 ==> current@ == start,
            result@.len() >= 1 ==> lex_lt(result@.last()@, current@),
            forall|a: int|
                0 <= a < result@.len() ==> is_monomial(
                    #[trigger] result@[a]@,
                    dim as int,
                    max_degree as int,
                ),
            forall|a: int, b: int|
                0 <= a < b < result@.len() ==> lex_lt(
                    #[trigger] result@[a]@,
                    #[trigger] result@[b]@,
                ),
            forall|v: Seq<usize>|
                is_monomial(v, dim as int, max_degree as int) && lex_lt(v, current@) ==> exists|
                    a: int,
                |
                    0 <= a < result@.len() && #[trigger] result@[a]@ == v,
        decreases power(base, dim as nat) - rank(current@, base),
    {
        let ghost before = result@;
        let snapshot = current.clone();
        assert(snapshot@ =~= current@);
        result.push(snapshot);
        proof {
            assert forall|a: int, b: int|
                0 <= a < b < result@.len() implies lex_lt(
                    #[trigger] result@[a]@,
                    #[trigger] result@[b]@,
                ) by {
                if b == result@.len() - 1 && a < b {
                    assert(result@[a] == before[a]);
                    if a < before.len() - 1 {
                        lemma_lex_transitive(before[a]@, before.last()@, current@);
                    }
                } else {
                    assert(result@[a] == before[a]);
                    assert(result@[b] == before[b]);
                }
            }
            assert forall|a: int|
                0 <= a < result@.len() implies is_monomial(
                #[trigger] result@[a]@,
                dim as int,
                max_degree as int,
            ) by {
                if a < before.len() {
                    assert(result@[a] == before[a]);
                }
            }
        }
        let ghost prev = current@;
        proof {
            lemma_raise_is_successor(prev, dim as int, max_degree as int);
            lemma_degree_take_full(prev);
            assert forall|v: Seq<usize>|
                is_monomial(v, dim as int, max_degree as int) && (lex_lt(v, prev) || v
                    == prev) implies exists|a: int|
                0 <= a < result@.len() && #[trigger] result@[a]@ == v by {
                if v == prev {
                    assert(result@[result@.len() - 1]@ == v);
                } else {
                    let a = choose|a: int| 0 <= a < before.len() && #[trigger] before[a]@ == v;
                    assert(result@[a] == before[a]);
                }
            }
        }
        if !increment_monomial(&mut current, dim, max_degree) {
            proof {
                assert forall|v: Seq<usize>|
                    #[trigger] is_monomial(v, dim as int, max_degree as int) implies exists|
                        a: int,
                    |
                        0 <= a < result@.len() && #[trigger] result@[a]@ == v by {
                    if v != prev {
                        lemma_lex_total(v, prev);
                    }
                }
            }
            return result;
        }
        proof {
            let next = current@;
            assert(lex_lt(prev, next));
            assert forall|v: Seq<usize>|
                is_monomial(v, dim as int, max_degree as int) && lex_lt(
                    v,
                    next,
                ) implies exists|a: int| 0 <= a < result@.len() && #[trigger] result@[a]@ == v by {
                if v != prev {
                    lemma_lex_total(v, prev);
                }
            }
            // the measure decreases
            assert forall|t: int| 0 <= t < prev.len() implies prev[t] < base by {
                lemma_entry_le_degree(prev, t);
            }
            assert forall|t: int| 0 <= t < next.len() implies next[t] < base by {
                lemma_entry_le_degree(next, t);
            }
            let k = choose|k: int| lex_lt_at(prev, next, k);
            lemma_rank_lex(prev, next, k, base);
            lemma_rank_bound(next, base);
        }
    }
}

} // verus!
