use pythagorean_triples::triple::{comes_before, is_expandable, make_child};

#[test]
fn children_of_the_root() {
    assert_eq!(make_child(0, (3, 4, 5)), (5, 12, 13));
    assert_eq!(make_child(1, (3, 4, 5)), (20, 21, 29));
    assert_eq!(make_child(2, (3, 4, 5)), (8, 15, 17));
}

#[test]
fn children_of_five_twelve_thirteen() {
    assert_eq!(make_child(0, (5, 12, 13)), (7, 24, 25));
    assert_eq!(make_child(1, (5, 12, 13)), (48, 55, 73));
    assert_eq!(make_child(2, (5, 12, 13)), (28, 45, 53));
}

#[test]
fn children_have_their_legs_in_ascending_order() {
    for i in 0..3 {
        let (a, b, c) = make_child(i, (8, 15, 17));
        assert!(a < b && b < c);
        assert_eq!(a * a + b * b, c * c);
    }
    assert_eq!(make_child(1, (8, 15, 17)), (65, 72, 97));
    assert_eq!(make_child(2, (8, 15, 17)), (33, 56, 65));
    assert_eq!(make_child(0, (8, 15, 17)), (12, 35, 37));
}

#[test]
fn child_of_a_vector_that_is_no_triple() {
    assert_eq!(make_child(0, (1, 0, 0)), (1, 2, 2));
    assert_eq!(make_child(1, (0, 1, 0)), (1, 2, 2));
    assert_eq!(make_child(2, (0, 0, 1)), (2, 2, 3));
    assert_eq!(make_child(2, (1, 0, 0)), (-2, -1, -2));
}

#[test]
fn order_is_by_hypotenuse_then_first_leg() {
    assert!(comes_before((3, 4, 5), (5, 12, 13)));
    assert!(!comes_before((5, 12, 13), (3, 4, 5)));
    assert!(comes_before((16, 63, 65), (33, 56, 65)));
    assert!(!comes_before((33, 56, 65), (16, 63, 65)));
    assert!(comes_before((20, 21, 29), (12, 35, 37)));
    assert!(!comes_before((3, 4, 5), (3, 4, 5)));
    assert!(!comes_before((3, 4, 5), (3, 9, 5)));
    assert!(!comes_before((3, 9, 5), (3, 4, 5)));
}

#[test]
fn expandable_up_to_the_largest_integer() {
    assert!(is_expandable((3, 4, 5)));
    assert!(is_expandable((0, 0, 3_074_457_345_618_258_602)));
    assert!(!is_expandable((0, 0, 3_074_457_345_618_258_603)));
    assert!(is_expandable((1, 0, 3_074_457_345_618_258_601)));
    assert!(is_expandable((1, 1, 3_074_457_345_618_258_601)));
    assert!(!is_expandable((2, 1, 3_074_457_345_618_258_601)));
    assert!(!is_expandable((1, 2, 3_074_457_345_618_258_601)));
    assert!(!is_expandable((i64::MAX, i64::MAX, i64::MAX)));
    assert!(is_expandable((0, 0, 0)));
}

#[test]
fn largest_children_that_fit() {
    let c = 3_074_457_345_618_258_602;
    assert_eq!(make_child(1, (0, 0, c)), (2 * c, 2 * c, i64::MAX - 1));
    assert_eq!(make_child(1, (1, 0, c - 1)), (2 * c - 1, 2 * c, i64::MAX - 2));
    assert_eq!(make_child(1, (1, 1, c - 1)), (2 * c + 1, 2 * c + 1, i64::MAX));
}
