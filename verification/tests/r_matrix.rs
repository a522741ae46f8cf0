use quantum_groups::r_matrix::{flip_permutation, swap_12_permutation};

#[test]
fn test_flip_operator() {
    let f = flip_permutation(2, 2);
    assert_eq!(f.len(), 4);
    // |0⟩⊗|1⟩ → |1⟩⊗|0⟩
    assert_eq!(f[1], 2);
}

#[test]
fn test_flip_rectangular_round_trip() {
    let f = flip_permutation(2, 3);
    let g = flip_permutation(3, 2);
    assert_eq!(f, vec![0, 2, 4, 1, 3, 5]);
    for s in 0..6 {
        assert_eq!(g[f[s]], s);
    }
    let mut seen = f.clone();
    seen.sort();
    assert_eq!(seen, vec![0, 1, 2, 3, 4, 5]);
}

#[test]
fn test_swap_12() {
    let p = swap_12_permutation();
    // |a,b,c⟩ = 4a + 2b + c  ↦  |b,a,c⟩
    assert_eq!(p, vec![0, 1, 4, 5, 2, 3, 6, 7]);
    for s in 0..8 {
        assert_eq!(p[p[s]], s);
    }
}

#[test]
fn test_flip_empty() {
    assert!(flip_permutation(0, 3).is_empty());
    assert_eq!(flip_permutation(1, 1), vec![0]);
}
