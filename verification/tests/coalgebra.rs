use quantum_groups::coalgebra::group_coalgebra;

fn is_coassociative(comult: &Vec<Vec<Vec<i64>>>) -> bool {
    let dim = comult.len();
    for i in 0..dim {
        for x in 0..dim {
            for y in 0..dim {
                for z in 0..dim {
                    let lhs: i64 = (0..dim).map(|j| comult[i][j][z] * comult[j][x][y]).sum();
                    let rhs: i64 = (0..dim).map(|k| comult[i][x][k] * comult[k][y][z]).sum();
                    if lhs != rhs {
                        return false;
                    }
                }
            }
        }
    }
    true
}

fn satisfies_counit_axiom(comult: &Vec<Vec<Vec<i64>>>, counit: &Vec<i64>) -> bool {
    let dim = comult.len();
    for i in 0..dim {
        for k in 0..dim {
            let lhs: i64 = (0..dim).map(|j| comult[i][j][k] * counit[j]).sum();
            if lhs != if k == i { 1 } else { 0 } {
                return false;
            }
            let rhs: i64 = (0..dim).map(|j| comult[i][k][j] * counit[j]).sum();
            if rhs != if k == i { 1 } else { 0 } {
                return false;
            }
        }
    }
    true
}

#[test]
fn test_trivial_coalgebra() {
    let (comult, counit) = group_coalgebra(1);
    assert_eq!(comult.len(), 1);
    assert!(is_coassociative(&comult));
    assert!(satisfies_counit_axiom(&comult, &counit));
}

#[test]
fn test_group_coalgebra_coassoc() {
    let (comult, _) = group_coalgebra(3);
    assert!(is_coassociative(&comult));
}

#[test]
fn test_group_coalgebra_counit_axiom() {
    let (comult, counit) = group_coalgebra(3);
    assert!(satisfies_counit_axiom(&comult, &counit));
}

#[test]
fn test_group_coalgebra_grouplike() {
    let (comult, _) = group_coalgebra(3);
    // Each e_i should be group-like: Δ(e_i) = e_i ⊗ e_i
    for i in 0..3 {
        for j in 0..3 {
            for k in 0..3 {
                let expected = if j == i && k == i { 1 } else { 0 };
                assert_eq!(comult[i][j][k], expected);
            }
        }
    }
}

#[test]
fn test_group_coalgebra_counit_identity() {
    let (_, counit) = group_coalgebra(4);
    for i in 0..4 {
        assert_eq!(counit[i], 1, "counit[{}] = {:?}", i, counit[i]);
    }
}

#[test]
fn test_counit_on_sum() {
    let (_, counit) = group_coalgebra(2);
    // ε(e_0 + e_1) = 1 + 1 = 2
    let coeffs = [1i64, 1];
    let eps: i64 = (0..2).map(|i| coeffs[i] * counit[i]).sum();
    assert_eq!(eps, 2);
}
