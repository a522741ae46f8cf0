use quantum_groups::antipode::cyclic_algebra;
use quantum_groups::hopf_algebra::matrix_algebra;

fn is_associative(mult: &Vec<Vec<Vec<i64>>>) -> bool {
    let dim = mult.len();
    for i in 0..dim {
        for j in 0..dim {
            for k in 0..dim {
                for m in 0..dim {
                    let lhs: i64 = (0..dim).map(|l| mult[i][j][l] * mult[l][k][m]).sum();
                    let rhs: i64 = (0..dim).map(|l| mult[i][l][m] * mult[j][k][l]).sum();
                    if lhs != rhs {
                        return false;
                    }
                }
            }
        }
    }
    true
}

#[test]
fn test_trivial_algebra() {
    let alg = cyclic_algebra(1);
    assert_eq!(alg.len(), 1);
    assert_eq!(alg[0][0][0], 1);
    assert!(is_associative(&alg));
}

#[test]
fn test_matrix_algebra_m2_associative() {
    let alg = matrix_algebra(2);
    assert_eq!(alg.len(), 4);
    assert!(is_associative(&alg));
}

#[test]
fn test_matrix_algebra_m3() {
    let alg = matrix_algebra(3);
    assert_eq!(alg.len(), 9);
    assert!(is_associative(&alg));
}

#[test]
fn test_matrix_units_multiply() {
    let alg = matrix_algebra(2);
    // E_01 E_10 = E_00 : basis 1 * basis 2 = basis 0
    assert_eq!(alg[1][2], vec![1, 0, 0, 0]);
    // E_10 E_01 = E_11 : basis 2 * basis 1 = basis 3
    assert_eq!(alg[2][1], vec![0, 0, 0, 1]);
    // E_00 E_11 = 0
    assert_eq!(alg[0][3], vec![0, 0, 0, 0]);
}

#[test]
fn test_matrix_algebra_empty() {
    assert!(matrix_algebra(0).is_empty());
    assert_eq!(matrix_algebra(1), vec![vec![vec![1]]]);
}
