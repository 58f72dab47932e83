use bitonic_sort::stencil::generate_indices;

#[test]
fn indices_of_the_centre_alone() {
    assert_eq!(generate_indices(0), vec![[0, 0]]);
}

#[test]
fn indices_of_a_3_by_3_square() {
    assert_eq!(
        generate_indices(1),
        vec![[-1, -1], [-1, 0], [-1, 1], [0, -1], [0, 0], [0, 1], [1, -1], [1, 0], [1, 1]]
    );
}

#[test]
fn indices_of_5_by_5_and_9_by_9_squares() {
    for half in [2usize, 4] {
        let indices = generate_indices(half);
        let side = 2 * half + 1;
        assert_eq!(indices.len(), side * side);
        let mut expected = Vec::new();
        for i in -(half as i32)..=half as i32 {
            for j in -(half as i32)..=half as i32 {
                expected.push([i, j]);
            }
        }
        assert_eq!(indices, expected);
    }
    assert_eq!(generate_indices(2).len(), 25);
    assert_eq!(generate_indices(4).len(), 81);
    assert_eq!(generate_indices(2)[0], [-2, -2]);
    assert_eq!(generate_indices(2)[12], [0, 0]);
    assert_eq!(generate_indices(2)[24], [2, 2]);
    assert_eq!(generate_indices(4)[9], [-3, -4]);
}
