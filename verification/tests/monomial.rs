use quantum_groups::monomial::{generate_monomials, increment_monomial};

#[test]
fn test_generate_monomials_sl2_degree_2() {
    let mons = generate_monomials(3, 2);
    assert_eq!(
        mons,
        vec![
            vec![0, 0, 0],
            vec![0, 0, 1],
            vec![0, 0, 2],
            vec![0, 1, 0],
            vec![0, 1, 1],
            vec![0, 2, 0],
            vec![1, 0, 0],
            vec![1, 0, 1],
            vec![1, 1, 0],
            vec![2, 0, 0],
        ]
    );
}

#[test]
fn test_generate_monomials_counts() {
    // number of monomials in n generators of degree <= d is C(n + d, n)
    assert_eq!(generate_monomials(0, 5).len(), 1);
    assert_eq!(generate_monomials(1, 4).len(), 5);
    assert_eq!(generate_monomials(2, 3).len(), 10);
    assert_eq!(generate_monomials(3, 3).len(), 20);
    assert_eq!(generate_monomials(4, 0).len(), 1);
}

#[test]
fn test_increment_monomial_steps() {
    let mut m = vec![0, 1, 1];
    assert!(increment_monomial(&mut m, 3, 2));
    assert_eq!(m, vec![0, 2, 0]);
    let mut m = vec![0, 0, 2];
    assert!(increment_monomial(&mut m, 3, 2));
    assert_eq!(m, vec![0, 1, 0]);
}

#[test]
fn test_increment_monomial_last() {
    let mut m = vec![2, 0, 0];
    assert!(!increment_monomial(&mut m, 3, 2));
    assert_eq!(m, vec![2, 0, 0]);
}

#[test]
fn test_increment_monomial_prefix_only() {
    // entries beyond `dim` are left alone
    let mut m = vec![0, 1, 7];
    assert!(increment_monomial(&mut m, 2, 1));
    assert_eq!(m, vec![1, 0, 7]);
}
