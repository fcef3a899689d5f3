use chicken_curry::text::tensor_text;

fn cells(values: &[i32]) -> Vec<String> {
    values.iter().map(|value| value.to_string()).collect()
}

#[test]
fn tensor_text_of_a_vector_is_one_row() {
    assert_eq!(tensor_text(&[3], &cells(&[1, 2, 3])), "[1,2,3]\n");
}

#[test]
fn tensor_text_of_a_single_element() {
    assert_eq!(tensor_text(&[1], &cells(&[7])), "[7]\n");
}

#[test]
fn tensor_text_of_a_matrix_nests_rows() {
    assert_eq!(
        tensor_text(&[2, 3], &cells(&[1, 2, 3, 4, 5, 6])),
        "[\n  [1,2,3]\n  [4,5,6]\n],\n"
    );
}

#[test]
fn tensor_text_indents_each_level_by_two_spaces() {
    assert_eq!(
        tensor_text(&[2, 1, 2], &cells(&[1, 2, 3, 4])),
        "[\n  [\n    [1,2]\n  ],\n  [\n    [3,4]\n  ],\n],\n"
    );
}

#[test]
fn tensor_text_keeps_the_element_texts() {
    let texts = vec!["0.5".to_string(), "-1".to_string()];

    assert_eq!(tensor_text(&[2], &texts), "[0.5,-1]\n");
}
