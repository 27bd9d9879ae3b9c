use raytracer::util::Axis;

#[test]
fn iterator_yields_axes_in_order() {
    assert_eq!(Axis::iterator(), vec![Axis::X, Axis::Y, Axis::Z]);
}

#[test]
fn index_and_from_index_agree() {
    for (i, a) in Axis::iterator().iter().enumerate() {
        assert_eq!(a.index(), i);
        assert_eq!(Axis::from_index(i), *a);
    }
}

#[test]
fn from_byte_takes_residue_modulo_three() {
    assert_eq!(Axis::from_byte(0), Axis::X);
    assert_eq!(Axis::from_byte(1), Axis::Y);
    assert_eq!(Axis::from_byte(2), Axis::Z);
    assert_eq!(Axis::from_byte(3), Axis::X);
    assert_eq!(Axis::from_byte(4), Axis::Y);
    assert_eq!(Axis::from_byte(255), Axis::X);
    assert_eq!(Axis::from_byte(254), Axis::Z);
}

#[test]
fn random_axis_is_one_of_three() {
    for _ in 0..50 {
        assert!(Axis::random().index() < 3);
    }
}
