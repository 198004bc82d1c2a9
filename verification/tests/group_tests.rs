use sudokugen::group::{add, new_array_from, sub, Group};

#[test]
fn add_sums_slot_by_slot() {
    let a: Group = [1, 2, 3, 4, 5, 6, 7, 8, 9];
    let b: Group = [9, 8, 7, 6, 5, 4, 3, 2, 1];
    assert_eq!(add(a, &b), [10; 9]);
    assert_eq!(add([0; 9], &a), a);
    assert_eq!(add([250; 9], &[5; 9]), [255; 9]);
}

#[test]
fn sub_subtracts_slot_by_slot() {
    let a: Group = [1, 2, 3, 4, 5, 6, 7, 8, 9];
    assert_eq!(sub(a, &[1; 9]), [0, 1, 2, 3, 4, 5, 6, 7, 8]);
    assert_eq!(sub(a, &a), [0; 9]);
    assert_eq!(sub(add(a, &[3; 9]), &[3; 9]), a);
}

#[test]
fn new_array_from_copies_the_leading_values() {
    assert_eq!(new_array_from(&[]), [0; 9]);
    assert_eq!(new_array_from(&[4, 5]), [4, 5, 0, 0, 0, 0, 0, 0, 0]);
    assert_eq!(
        new_array_from(&[1, 2, 3, 4, 5, 6, 7, 8, 9, 10, 11]),
        [1, 2, 3, 4, 5, 6, 7, 8, 9]
    );
}
