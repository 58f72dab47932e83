use bitonic_sort::host::sort_on_host;
use bitonic_sort::result_check::{is_sorted, reference_sort, same_contents, verify_result};

#[test]
fn is_sorted_tells_order() {
    assert!(is_sorted(&vec![]));
    assert!(is_sorted(&vec![5]));
    assert!(is_sorted(&vec![1, 1, 2, 3, 3, 9]));
    assert!(!is_sorted(&vec![1, 2, 4, 3]));
    assert!(!is_sorted(&vec![2, 1]));
    assert!(!is_sorted(&vec![0, 5, 4, 6, 7]));
}

#[test]
fn reference_sort_sorts_a_copy() {
    let input = vec![4u32, 1, 3, 1, 0, 9, 2, 2];
    let reference = reference_sort(&input);
    assert_eq!(reference, vec![0, 1, 1, 2, 2, 3, 4, 9]);
    assert_eq!(input, vec![4, 1, 3, 1, 0, 9, 2, 2]);
}

#[test]
fn same_contents_compares_element_by_element() {
    assert!(same_contents(&vec![], &vec![]));
    assert!(same_contents(&vec![1, 2, 3], &vec![1, 2, 3]));
    assert!(!same_contents(&vec![1, 2, 3], &vec![1, 2, 4]));
    assert!(!same_contents(&vec![1, 2, 3], &vec![1, 2]));
    assert!(!same_contents(&vec![1, 2], &vec![2, 1]));
}

#[test]
fn verify_result_accepts_the_sorted_input() {
    let input = vec![4u32, 1, 3, 1, 0, 9, 2, 2];
    let mut output = input.clone();
    assert_eq!(sort_on_host(&mut output), Ok(()));
    assert!(verify_result(&input, &output));
    assert!(verify_result(&input, &vec![0, 1, 1, 2, 2, 3, 4, 9]));
}

#[test]
fn verify_result_refuses_anything_else() {
    let input = vec![4u32, 1, 3, 1, 0, 9, 2, 2];
    assert!(!verify_result(&input, &input));
    assert!(!verify_result(&input, &vec![0, 1, 1, 2, 2, 3, 4, 8]));
    assert!(!verify_result(&input, &vec![0, 1, 2, 2, 3, 4, 9]));
    assert!(!verify_result(&input, &vec![0, 1, 1, 2, 2, 3, 4, 9, 9]));
    assert!(!verify_result(&input, &vec![0, 1, 1, 1, 2, 3, 4, 9]));
    assert!(!verify_result(&input, &vec![9, 4, 3, 2, 2, 1, 1, 0]));
    assert!(!verify_result(&input, &vec![]));
    assert!(verify_result(&vec![], &vec![]));
}
