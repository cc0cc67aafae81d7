use chronoloom::algebra::intersection;

#[test]
fn overlapping_intervals_intersect() {
    assert_eq!(intersection((0, 5), (3, 9)), Some((3, 5)));
}

#[test]
fn algebra_disjoint_intervals_do_not_intersect() {
    assert_eq!(intersection((0, 2), (5, 9)), None);
}

#[test]
fn algebra_touching_intervals_do_not_intersect() {
    assert_eq!(intersection((0, 5), (5, 9)), None);
}

#[test]
fn algebra_intersection_is_symmetric_and_handles_containment() {
    assert_eq!(intersection((3, 9), (0, 5)), Some((3, 5)));
    assert_eq!(intersection((0, 10), (3, 5)), Some((3, 5)));
    assert_eq!(intersection((i64::MIN, 0), (-1, i64::MAX)), Some((-1, 0)));
}

#[test]
fn algebra_inverted_input_yields_nothing() {
    // The bare-pair form does not validate its inputs; an inverted pair has
    // no instant to share.
    assert_eq!(intersection((5, 0), (0, 9)), None);
}
