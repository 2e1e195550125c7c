use lib::correct_dc;

#[test]
fn correct_dc_sums_the_differences() {
    let mut blocks = vec![vec![1i16, 5, 6], vec![2, 7], vec![-3, 8, 9]];
    assert!(correct_dc(&mut blocks));
    assert_eq!(blocks, vec![vec![1i16, 5, 6], vec![3, 7], vec![0, 8, 9]]);
}

#[test]
fn correct_dc_of_no_blocks() {
    let mut blocks: Vec<Vec<i16>> = vec![];
    assert!(correct_dc(&mut blocks));
    assert!(blocks.is_empty());
}

#[test]
fn correct_dc_refuses_overflow_and_changes_nothing() {
    let mut blocks = vec![vec![i16::MAX, 1], vec![1, 2], vec![-5]];
    assert!(!correct_dc(&mut blocks));
    assert_eq!(blocks, vec![vec![i16::MAX, 1], vec![1, 2], vec![-5]]);
    let mut low = vec![vec![i16::MIN], vec![-1]];
    assert!(!correct_dc(&mut low));
    assert_eq!(low, vec![vec![i16::MIN], vec![-1]]);
}

#[test]
fn correct_dc_allows_extreme_values_that_fit() {
    let mut blocks = vec![vec![i16::MAX], vec![i16::MIN], vec![1]];
    assert!(correct_dc(&mut blocks));
    assert_eq!(blocks, vec![vec![i16::MAX], vec![-1], vec![0]]);
}
