use quantum_groups::representation::RepTheory;
use quantum_groups::ribbon::clebsch_gordan_decomposition;

#[test]
fn test_clebsch_gordan_half_half() {
    let spins = clebsch_gordan_decomposition(1, 1);
    assert_eq!(spins, vec![0, 1, 2]);
}

#[test]
fn test_clebsch_gordan_0_1() {
    let spins = clebsch_gordan_decomposition(0, 1);
    assert_eq!(spins, vec![1]);
}

#[test]
fn test_clebsch_gordan_agrees_with_decomposition() {
    for j1 in 0..6u32 {
        for j2 in 0..6u32 {
            assert_eq!(
                clebsch_gordan_decomposition(j1, j2),
                RepTheory::tensor_product_decomposition(j1, j2)
            );
        }
    }
}
