use raytracer::perlin::{
    check_permutation, generate_perm, permute, shuffle_with, Lattice, PERM_SIZE,
};

fn identity() -> Vec<i32> {
    (0..PERM_SIZE as i32).collect()
}

#[test]
fn shuffle_with_own_positions_changes_nothing() {
    let mut p = vec![10, 20, 30, 40];
    shuffle_with(&mut p, &vec![0, 1, 2, 3]);
    assert_eq!(p, vec![10, 20, 30, 40]);
}

#[test]
fn shuffle_with_swaps_from_last_position_down() {
    let mut p = vec![10, 20, 30, 40];
    // position 3 <-> 0, then 2 <-> 0, then 1 <-> 1, then 0 <-> 0
    shuffle_with(&mut p, &vec![0, 1, 0, 0]);
    assert_eq!(p, vec![30, 20, 40, 10]);
}

#[test]
fn shuffle_of_empty_is_empty() {
    let mut p: Vec<i32> = vec![];
    shuffle_with(&mut p, &vec![]);
    assert!(p.is_empty());
}

#[test]
fn permute_keeps_contents() {
    let mut p = vec![5, 1, 5, 9, -2, 7];
    permute(&mut p);
    let mut sorted = p.clone();
    sorted.sort();
    assert_eq!(sorted, vec![-2, 1, 5, 5, 7, 9]);
}

#[test]
fn generated_table_is_a_permutation() {
    let p = generate_perm();
    assert_eq!(p.len(), 256);
    let mut sorted = p.clone();
    sorted.sort();
    assert_eq!(sorted, identity());
    assert!(check_permutation(&p, PERM_SIZE));
}

#[test]
fn check_permutation_cases() {
    assert!(check_permutation(&vec![2, 0, 1], 3));
    assert!(check_permutation(&vec![], 0));
    assert!(!check_permutation(&vec![0, 0, 1], 3));
    assert!(!check_permutation(&vec![0, 1, 3], 3));
    assert!(!check_permutation(&vec![0, -1, 2], 3));
    assert!(!check_permutation(&vec![0, 1], 3));
}

#[test]
fn lattice_from_identity_tables_hashes_by_xor() {
    let l = Lattice::from_tables(identity(), identity(), identity()).unwrap();
    assert_eq!(l.index(1, 2, 3), 1 ^ 2 ^ 3);
    assert_eq!(l.index(5, 5, 0), 0);
    assert_eq!(l.index(200, 17, 99), (200 ^ 17 ^ 99) as usize);
}

#[test]
fn lattice_wraps_coordinates_modulo_256() {
    let l = Lattice::from_tables(identity(), identity(), identity()).unwrap();
    assert_eq!(l.index(256 + 7, 0, 0), 7);
    assert_eq!(l.index(-1, 0, 0), 255);
    assert_eq!(l.index(-256, 0, 0), 0);
    assert_eq!(l.index(-257, 0, 0), 255);
    assert_eq!(l.index(i32::MIN, 0, 0), 0);
    assert_eq!(l.index(i32::MAX, 0, 0), 255);
}

#[test]
fn lattice_uses_each_table_entry() {
    let mut rev: Vec<i32> = identity();
    rev.reverse();
    let l = Lattice::from_tables(rev, identity(), identity()).unwrap();
    assert_eq!(l.index(0, 0, 0), 255);
    assert_eq!(l.index(3, 0, 0), 252);
}

#[test]
fn lattice_rejects_tables_that_are_not_permutations() {
    let mut bad = identity();
    bad[3] = 4;
    assert!(Lattice::from_tables(bad, identity(), identity()).is_none());
    assert!(Lattice::from_tables(identity(), vec![0, 1, 2], identity()).is_none());
}

#[test]
fn random_lattice_indices_stay_in_range() {
    let l = Lattice::new();
    assert!(check_permutation(&l.perm_x, PERM_SIZE));
    assert!(check_permutation(&l.perm_y, PERM_SIZE));
    assert!(check_permutation(&l.perm_z, PERM_SIZE));
    for i in -300..300 {
        assert!(l.index(i, i * 7, -i) < PERM_SIZE);
    }
}
