use headline_classifier::{false_negatives, false_positives, true_positives};

#[test]
fn test_true_positives() {
    let predicted: Vec<Vec<u32>> = vec![vec![1, 0], vec![0, 1]];
    let actual: Vec<Vec<u32>> = vec![vec![1, 0], vec![1, 0]];

    let actual_result = true_positives(&predicted, &actual);
    let expected_result = 1;

    assert_eq!(expected_result, actual_result);
}

#[test]
fn test_false_positives() {
    let predicted: Vec<Vec<u32>> = vec![vec![1, 0], vec![0, 1]];
    let actual: Vec<Vec<u32>> = vec![vec![1, 0], vec![1, 0]];

    let actual_result = false_positives(&predicted, &actual);
    let expected_result = 1;

    assert_eq!(expected_result, actual_result);
}

#[test]
fn test_false_negatives() {
    let predicted: Vec<Vec<u32>> = vec![vec![1, 0], vec![0, 1]];
    let actual: Vec<Vec<u32>> = vec![vec![1, 0], vec![1, 0]];

    let actual_result = false_negatives(&predicted, &actual);
    let expected_result = 1;

    assert_eq!(expected_result, actual_result);
}
