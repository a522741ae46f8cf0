use quantum_groups::antipode::{cyclic_algebra, cyclic_antipode, cyclic_coalgebra};

type Table = Vec<Vec<Vec<i64>>>;

fn multiply(mult: &Table, a: &[i64], b: &[i64]) -> Vec<i64> {
    let dim = mult.len();
    let mut r = vec![0i64; dim];
    for i in 0..dim {
        for j in 0..dim {
            for k in 0..dim {
                r[k] += a[i] * b[j] * mult[i][j][k];
            }
        }
    }
    r
}

fn basis(dim: usize, i: usize) -> Vec<i64> {
    let mut v = vec![0; dim];
    v[i] = 1;
    v
}

fn apply_antipode(s: &Vec<Vec<i64>>, a: &[i64]) -> Vec<i64> {
    let dim = s.len();
    let mut r = vec![0i64; dim];
    for i in 0..dim {
        for j in 0..dim {
            r[j] += a[i] * s[i][j];
        }
    }
    r
}

fn is_bialgebra(mult: &Table, comult: &Table) -> bool {
    let dim = mult.len();
    for i in 0..dim {
        for j in 0..dim {
            for p in 0..dim {
                for q in 0..dim {
                    let lhs: i64 = (0..dim).map(|m| mult[i][j][m] * comult[m][p][q]).sum();
                    let mut rhs = 0i64;
                    for a in 0..dim {
                        for b in 0..dim {
                            for c in 0..dim {
                                for d in 0..dim {
                                    rhs += comult[i][a][b] * comult[j][c][d] * mult[a][c][p] * mult[b][d][q];
                                }
                            }
                        }
                    }
                    if lhs != rhs {
                        return false;
                    }
                }
            }
        }
    }
    true
}

fn satisfies_antipode_axiom(mult: &Table, comult: &Table, counit: &[i64], s: &Vec<Vec<i64>>) -> bool {
    let dim = mult.len();
    for i in 0..dim {
        let mut lhs = vec![0i64; dim];
        let mut rhs = vec![0i64; dim];
        for j in 0..dim {
            for k in 0..dim {
                let c = comult[i][j][k];
                let l = multiply(mult, &s[j], &basis(dim, k));
                let r = multiply(mult, &basis(dim, j), &s[k]);
                for m in 0..dim {
                    lhs[m] += c * l[m];
                    rhs[m] += c * r[m];
                }
            }
        }
        for m in 0..dim {
            let expected = if m == 0 { counit[i] } else { 0 };
            if lhs[m] != expected || rhs[m] != expected {
                return false;
            }
        }
    }
    true
}

fn is_valid_hopf(n: usize) -> bool {
    let mult = cyclic_algebra(n);
    let (comult, counit) = cyclic_coalgebra(n);
    let s = cyclic_antipode(n);
    let assoc = (0..n).all(|i| {
        (0..n).all(|j| {
            (0..n).all(|k| {
                (0..n).all(|m| {
                    let lhs: i64 = (0..n).map(|l| mult[i][j][l] * mult[l][k][m]).sum();
                    let rhs: i64 = (0..n).map(|l| mult[i][l][m] * mult[j][k][l]).sum();
                    lhs == rhs
                })
            })
        })
    });
    assoc && is_bialgebra(&mult, &comult) && satisfies_antipode_axiom(&mult, &comult, &counit, &s)
}

#[test]
fn test_trivial_hopf() {
    assert!(is_valid_hopf(1));
}

#[test]
fn test_trivial_antipode() {
    let s = cyclic_antipode(1);
    assert_eq!(apply_antipode(&s, &basis(1, 0)), vec![1]);
}

#[test]
fn test_cyclic_z2() {
    assert!(is_valid_hopf(2));
}

#[test]
fn test_cyclic_z3() {
    assert!(is_valid_hopf(3));
}

#[test]
fn test_cyclic_z4() {
    assert!(is_valid_hopf(4));
}

#[test]
fn test_cyclic_z5() {
    assert!(is_valid_hopf(5));
}

#[test]
fn test_antipode_z3_involution() {
    let s = cyclic_antipode(3);
    let r = apply_antipode(&s, &basis(3, 1));
    // S(e_1) = e_2 (since 3-1 = 2)
    assert_eq!(r[2], 1);
    assert_eq!(r[0], 0);
    assert_eq!(r[1], 0);
}

#[test]
fn test_antipode_squared_z3() {
    let s = cyclic_antipode(3);
    let s1 = apply_antipode(&s, &basis(3, 1));
    let s2 = apply_antipode(&s, &s1);
    // S(S(e_1)) = S(e_2) = e_1
    assert_eq!(s2[1], 1);
}

#[test]
fn test_bialgebra_condition_z2() {
    let mult = cyclic_algebra(2);
    let (comult, _) = cyclic_coalgebra(2);
    assert!(is_bialgebra(&mult, &comult));
}

#[test]
fn test_multiply_in_cyclic() {
    let mult = cyclic_algebra(3);
    let prod = multiply(&mult, &basis(3, 1), &basis(3, 2));
    // e_1 * e_2 = e_0 (since (1+2)%3 = 0)
    assert_eq!(prod[0], 1);
}

#[test]
fn test_cyclic_antipode_of_identity() {
    let s = cyclic_antipode(4);
    assert_eq!(s[0], vec![1, 0, 0, 0]);
    assert_eq!(s[1], vec![0, 0, 0, 1]);
    assert_eq!(s[2], vec![0, 0, 1, 0]);
}

#[test]
fn test_cyclic_algebra_wraps() {
    let mult = cyclic_algebra(5);
    // e_3 e_4 = e_2
    assert_eq!(mult[3][4], vec![0, 0, 1, 0, 0]);
    assert_eq!(mult[0][4], vec![0, 0, 0, 0, 1]);
}

#[test]
fn test_cyclic_group_order_zero() {
    assert!(cyclic_algebra(0).is_empty());
    assert!(cyclic_antipode(0).is_empty());
}
