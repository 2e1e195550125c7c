use lib::zigzag;

#[test]
fn zigzag_of_a_four_by_four_matrix() {
    let input: Vec<u32> = (0..16).collect();
    assert_eq!(
        zigzag(input),
        vec![0, 1, 4, 8, 5, 2, 3, 6, 9, 12, 13, 10, 7, 11, 14, 15]
    );
}

#[test]
fn zigzag_places_each_cell_at_its_number_in_the_doc_picture() {
    // Each cell of the 4 by 4 matrix numbered by its place in zigzag order.
    let place = [0usize, 1, 5, 6, 2, 4, 7, 12, 3, 8, 11, 13, 9, 10, 14, 15];
    let input: Vec<u32> = (100..116).collect();
    let out = zigzag(input.clone());
    for p in 0..16 {
        assert_eq!(out[place[p]], input[p]);
    }
}

#[test]
fn zigzag_of_an_eight_by_eight_matrix_follows_the_jpeg_sequence() {
    let input: Vec<u32> = (0..64).collect();
    assert_eq!(
        zigzag(input),
        vec![
            0, 1, 8, 16, 9, 2, 3, 10, 17, 24, 32, 25, 18, 11, 4, 5, 12, 19, 26, 33, 40, 48, 41,
            34, 27, 20, 13, 6, 7, 14, 21, 28, 35, 42, 49, 56, 57, 50, 43, 36, 29, 22, 15, 23, 30,
            37, 44, 51, 58, 59, 52, 45, 38, 31, 39, 46, 53, 60, 61, 54, 47, 55, 62, 63,
        ]
    );
}

#[test]
fn zigzag_is_a_rearrangement() {
    let input: Vec<i32> = (0..64).map(|x| x * 7 - 100).collect();
    let mut out = zigzag(input.clone());
    out.sort();
    let mut sorted = input;
    sorted.sort();
    assert_eq!(out, sorted);
}

#[test]
fn zigzag_of_small_matrices() {
    assert_eq!(zigzag(Vec::<u8>::new()), Vec::<u8>::new());
    assert_eq!(zigzag(vec![9u8]), vec![9u8]);
    assert_eq!(zigzag(vec![1u8, 2, 3, 4]), vec![1u8, 2, 3, 4]);
    assert_eq!(
        zigzag(vec!['a', 'b', 'c', 'd', 'e', 'f', 'g', 'h', 'i']),
        vec!['a', 'b', 'd', 'g', 'e', 'c', 'f', 'h', 'i']
    );
}
