use quantum_groups::representation::{spin_dimension, RepTheory};

#[test]
fn test_tensor_decomposition_0_0() {
    let decomp = RepTheory::tensor_product_decomposition(0, 0);
    assert_eq!(decomp, vec![0]);
}

#[test]
fn test_tensor_decomposition_1_1() {
    let decomp = RepTheory::tensor_product_decomposition(1, 1);
    assert_eq!(decomp, vec![0, 1, 2]);
}

#[test]
fn test_tensor_decomposition_0_1() {
    let decomp = RepTheory::tensor_product_decomposition(0, 1);
    assert_eq!(decomp, vec![1]);
}

#[test]
fn test_tensor_decomposition_2_1() {
    let decomp = RepTheory::tensor_product_decomposition(2, 1);
    assert_eq!(decomp, vec![1, 2, 3]);
}

#[test]
fn test_wigner_3j_valid() {
    assert!(RepTheory::wigner_3j(1, 1, 0));
    assert!(RepTheory::wigner_3j(1, 1, 2));
}

#[test]
fn test_wigner_3j_invalid() {
    assert!(!RepTheory::wigner_3j(1, 1, 3));
}

#[test]
fn test_tensor_decomposition_symmetric() {
    assert_eq!(
        RepTheory::tensor_product_decomposition(3, 7),
        RepTheory::tensor_product_decomposition(7, 3)
    );
    assert_eq!(RepTheory::tensor_product_decomposition(3, 7), vec![4, 5, 6, 7, 8, 9, 10]);
}

#[test]
fn test_tensor_decomposition_dimension_count() {
    // (2*2+1)(2*3+1) = 35 = 3 + 5 + 7 + 9 + 11
    let decomp = RepTheory::tensor_product_decomposition(2, 3);
    let total: usize = decomp.iter().map(|&j| spin_dimension(j)).sum();
    assert_eq!(total, spin_dimension(2) * spin_dimension(3));
    assert_eq!(total, 35);
}

#[test]
fn test_wigner_3j_matches_decomposition() {
    for j1 in 0..5u32 {
        for j2 in 0..5u32 {
            let decomp = RepTheory::tensor_product_decomposition(j1, j2);
            for j3 in 0..12u32 {
                assert_eq!(RepTheory::wigner_3j(j1, j2, j3), decomp.contains(&j3));
            }
        }
    }
}

#[test]
fn test_wigner_3j_lower_edge() {
    assert!(!RepTheory::wigner_3j(5, 2, 2));
    assert!(RepTheory::wigner_3j(5, 2, 3));
    assert!(RepTheory::wigner_3j(5, 2, 7));
    assert!(!RepTheory::wigner_3j(5, 2, 8));
}

#[test]
fn test_tensor_decomposition_large_spins() {
    let decomp = RepTheory::tensor_product_decomposition(u32::MAX - 1, 1);
    assert_eq!(decomp, vec![u32::MAX - 2, u32::MAX - 1, u32::MAX]);
}

#[test]
fn test_uqsl2_spin_half_dim() {
    assert_eq!(spin_dimension(0), 1);
    assert_eq!(spin_dimension(1), 3);
}

#[test]
fn test_irrep_spin1() {
    let dims: Vec<usize> = (0..=1u32).map(spin_dimension).collect();
    assert_eq!(dims.len(), 2);
    assert_eq!(dims[0], 1);
    assert_eq!(dims[1], 3);
}

#[test]
fn test_direct_sum() {
    let dims: Vec<usize> = (0..=1u32).map(spin_dimension).collect();
    let (offsets, total) = RepTheory::direct_sum_layout(&dims);
    assert_eq!(total, 4);
    assert_eq!(offsets, vec![0, 1]);
}

#[test]
fn test_direct_sum_layout_offsets() {
    let (offsets, total) = RepTheory::direct_sum_layout(&vec![2, 0, 5, 1]);
    assert_eq!(offsets, vec![0, 2, 2, 7]);
    assert_eq!(total, 8);
    let (offsets, total) = RepTheory::direct_sum_layout(&vec![]);
    assert!(offsets.is_empty());
    assert_eq!(total, 0);
}

#[test]
fn test_irrep_spin0() {
    let dims: Vec<usize> = (0..=0u32).map(spin_dimension).collect();
    assert_eq!(dims.len(), 1);
    assert_eq!(dims[0], 1);
}

#[test]
fn test_uqsl2_spin0() {
    assert_eq!(spin_dimension(0), 1);
}

#[test]
fn test_quantum_representation() {
    assert_eq!(spin_dimension(1), 3);
}

#[test]
fn test_spin_dimension_largest() {
    assert_eq!(spin_dimension(u32::MAX / 2), u32::MAX as usize);
}
