use quantum_groups::universal_enveloping::{sl2_bracket, UniversalEnvelopingAlgebra};

fn bracket(b: &Vec<Vec<Vec<i64>>>, x: &[i64], y: &[i64]) -> Vec<i64> {
    let dim = b.len();
    let mut r = vec![0i64; dim];
    for i in 0..dim {
        for j in 0..dim {
            for k in 0..dim {
                r[k] += x[i] * y[j] * b[i][j][k];
            }
        }
    }
    r
}

fn basis(dim: usize, i: usize) -> Vec<i64> {
    let mut v = vec![0; dim];
    v[i] = 1;
    v
}

#[test]
fn test_sl2_antisymmetry() {
    let b = sl2_bracket();
    for i in 0..3 {
        for j in 0..3 {
            for k in 0..3 {
                assert_eq!(b[i][j][k] + b[j][i][k], 0);
            }
        }
    }
}

#[test]
fn test_sl2_jacobi() {
    let b = sl2_bracket();
    for i in 0..3 {
        for j in 0..3 {
            for k in 0..3 {
                for m in 0..3 {
                    let v: i64 = (0..3)
                        .map(|l| b[j][k][l] * b[i][l][m] + b[k][i][l] * b[j][l][m] + b[i][j][l] * b[k][l][m])
                        .sum();
                    assert_eq!(v, 0);
                }
            }
        }
    }
}

#[test]
fn test_sl2_bracket_ef() {
    let b = sl2_bracket();
    let comm = bracket(&b, &basis(3, 0), &basis(3, 1));
    // [e, f] = h
    assert_eq!(comm[2], 1);
}

#[test]
fn test_sl2_bracket_he() {
    let b = sl2_bracket();
    let comm = bracket(&b, &basis(3, 2), &basis(3, 0));
    // [h, e] = 2e
    assert_eq!(comm[0], 2);
}

#[test]
fn test_sl2_bracket_hf() {
    let b = sl2_bracket();
    let comm = bracket(&b, &basis(3, 2), &basis(3, 1));
    // [h, f] = -2f
    assert_eq!(comm[1], -2);
}

fn sl2_uea() -> UniversalEnvelopingAlgebra {
    UniversalEnvelopingAlgebra::from_lie_algebra(&sl2_bracket(), 2).unwrap()
}

fn pos(uea: &UniversalEnvelopingAlgebra, m: Vec<usize>) -> usize {
    uea.monomials.iter().position(|x| *x == m).unwrap()
}

#[test]
fn test_uea_sl2_construction() {
    let uea = sl2_uea();
    assert!(uea.dim() > 0);
}

#[test]
fn test_uea_monomials() {
    let uea = sl2_uea();
    assert!(uea.dim() >= 10);
    assert_eq!(uea.dim(), 10);
    assert_eq!(uea.lie_dim, 3);
    assert_eq!(uea.max_degree, 2);
    let expected: Vec<Vec<usize>> = vec![
        vec![0, 0, 0],
        vec![0, 0, 1],
        vec![0, 0, 2],
        vec![0, 1, 0],
        vec![0, 1, 1],
        vec![0, 2, 0],
        vec![1, 0, 0],
        vec![1, 0, 1],
        vec![1, 1, 0],
        vec![2, 0, 0],
    ];
    assert_eq!(uea.monomials, expected);
}

#[test]
fn test_uea_to_algebra() {
    let uea = sl2_uea();
    assert_eq!(uea.mult_table.len(), uea.dim());
    assert!(uea.mult_table.iter().all(|plane| plane.len() == uea.dim()
        && plane.iter().all(|row| row.len() == uea.dim())));
}

#[test]
fn test_uea_commutator_ef_is_h() {
    // e·f − f·e = [e, f] = h
    let uea = sl2_uea();
    let e = pos(&uea, vec![1, 0, 0]);
    let f = pos(&uea, vec![0, 1, 0]);
    let h = pos(&uea, vec![0, 0, 1]);
    assert_eq!((e, f, h), (6, 3, 1));
    for k in 0..uea.dim() {
        let expected = if k == h { 1 } else { 0 };
        assert_eq!(uea.mult_table[e][f][k] - uea.mult_table[f][e][k], expected);
    }
}

#[test]
fn test_uea_commutators_with_h() {
    // h·e − e·h = 2e and h·f − f·h = −2f
    let uea = sl2_uea();
    let e = pos(&uea, vec![1, 0, 0]);
    let f = pos(&uea, vec![0, 1, 0]);
    let h = pos(&uea, vec![0, 0, 1]);
    for k in 0..uea.dim() {
        let he = uea.mult_table[h][e][k] - uea.mult_table[e][h][k];
        let hf = uea.mult_table[h][f][k] - uea.mult_table[f][h][k];
        assert_eq!(he, if k == e { 2 } else { 0 });
        assert_eq!(hf, if k == f { -2 } else { 0 });
    }
}

#[test]
fn test_uea_products() {
    let uea = sl2_uea();
    let e = pos(&uea, vec![1, 0, 0]);
    let f = pos(&uea, vec![0, 1, 0]);
    let h = pos(&uea, vec![0, 0, 1]);
    let ef = pos(&uea, vec![1, 1, 0]);
    let eh = pos(&uea, vec![1, 0, 1]);
    let e2 = pos(&uea, vec![2, 0, 0]);
    let one = pos(&uea, vec![0, 0, 0]);
    assert_eq!(one, 0);
    // ordered products are the PBW monomials
    assert_eq!(uea.mult_table[e][f][ef], 1);
    assert_eq!(uea.mult_table[e][e][e2], 1);
    assert_eq!(uea.mult_table[e][h][eh], 1);
    // f·e = ef − h
    let mut fe = vec![0i64; uea.dim()];
    fe[ef] = 1;
    fe[h] = -1;
    assert_eq!(uea.mult_table[f][e], fe);
    // h·e = eh + 2e
    let mut he = vec![0i64; uea.dim()];
    he[eh] = 1;
    he[e] = 2;
    assert_eq!(uea.mult_table[h][e], he);
    // e²·f = e²f has degree 3 and is dropped entirely
    assert!(uea.mult_table[e2][f].iter().all(|&c| c == 0));
    // f·e² = e²f − 2eh − 2e: the degree-3 term is dropped, the lower ones kept
    let mut fe2 = vec![0i64; uea.dim()];
    fe2[eh] = -2;
    fe2[e] = -2;
    assert_eq!(uea.mult_table[f][e2], fe2);
}

#[test]
fn test_uea_ordered_products_add_exponents() {
    // products already in PBW order (generators of the left factor first) need no bracket
    let uea = sl2_uea();
    let d = uea.dim();
    let mut checked = 0;
    for i in 0..d {
        for j in 0..d {
            let a = &uea.monomials[i];
            let b = &uea.monomials[j];
            let ordered = (0..3).all(|s| (0..3).all(|t| a[s] == 0 || b[t] == 0 || s <= t));
            if !ordered {
                continue;
            }
            checked += 1;
            for k in 0..d {
                let adds = (0..3).all(|t| uea.monomials[k][t] == a[t] + b[t]);
                assert_eq!(uea.mult_table[i][j][k], if adds { 1 } else { 0 });
            }
        }
    }
    assert!(checked > d);
}

#[test]
fn test_uea_unit() {
    let uea = sl2_uea();
    for j in 0..uea.dim() {
        for k in 0..uea.dim() {
            let expected = if j == k { 1 } else { 0 };
            assert_eq!(uea.mult_table[0][j][k], expected);
            assert_eq!(uea.mult_table[j][0][k], expected);
        }
    }
}

#[test]
fn test_uea_abelian_is_commutative() {
    // for the zero bracket U(g) is the polynomial algebra
    let zero = vec![vec![vec![0i64; 2]; 2]; 2];
    let uea = UniversalEnvelopingAlgebra::from_lie_algebra(&zero, 3).unwrap();
    assert_eq!(uea.dim(), 10);
    for i in 0..uea.dim() {
        for j in 0..uea.dim() {
            assert_eq!(uea.mult_table[i][j], uea.mult_table[j][i]);
        }
    }
}

#[test]
fn test_uea_abelian_adds_exponents_and_associates() {
    let zero = vec![vec![vec![0i64; 3]; 3]; 3];
    let uea = UniversalEnvelopingAlgebra::from_lie_algebra(&zero, 2).unwrap();
    let d = uea.dim();
    for i in 0..d {
        for j in 0..d {
            for k in 0..d {
                let adds = (0..3).all(|t| uea.monomials[k][t] == uea.monomials[i][t] + uea.monomials[j][t]);
                assert_eq!(uea.mult_table[i][j][k], if adds { 1 } else { 0 });
            }
        }
    }
    for i in 0..d {
        for j in 0..d {
            for k in 0..d {
                for p in 0..d {
                    let left: i64 = (0..d).map(|l| uea.mult_table[i][j][l] * uea.mult_table[l][k][p]).sum();
                    let right: i64 = (0..d).map(|l| uea.mult_table[i][l][p] * uea.mult_table[j][k][l]).sum();
                    assert_eq!(left, right);
                }
            }
        }
    }
}

#[test]
fn test_uea_truncation_breaks_associativity() {
    // degree bound 1: (f·e)·e = (−h)·e = −2e, while e·e is dropped, so f·(e·e) = 0
    let uea = UniversalEnvelopingAlgebra::from_lie_algebra(&sl2_bracket(), 1).unwrap();
    let e = pos(&uea, vec![1, 0, 0]);
    let f = pos(&uea, vec![0, 1, 0]);
    let d = uea.dim();
    let left: i64 = (0..d).map(|l| uea.mult_table[f][e][l] * uea.mult_table[l][e][e]).sum();
    let right: i64 = (0..d).map(|l| uea.mult_table[f][l][e] * uea.mult_table[e][e][l]).sum();
    assert_eq!(left, -2);
    assert_eq!(right, 0);
}

#[test]
fn test_uea_coefficient_overflow() {
    // x_1 x_1 x_0 = x_0 x_1 x_1 + 2M x_0 x_1 + M² x_0 leaves i64 for M = i64::MAX
    let mut b = vec![vec![vec![0i64; 2]; 2]; 2];
    b[1][0][0] = i64::MAX;
    assert!(UniversalEnvelopingAlgebra::from_lie_algebra(&b, 2).is_none());
    assert!(UniversalEnvelopingAlgebra::from_lie_algebra(&b, 1).is_some());
}

#[test]
fn test_uea_zero_dimensional() {
    let uea = UniversalEnvelopingAlgebra::from_lie_algebra(&vec![], 4).unwrap();
    assert_eq!(uea.dim(), 1);
    assert_eq!(uea.mult_table, vec![vec![vec![1]]]);
}
