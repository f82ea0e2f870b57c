use fast_lcs::utilities::csr_matrix::CsrMatrix;
use fast_lcs::utilities::{
    counts, filter_shared, filter_shared_indexes, indexes, remove_single_value_from_sorted,
    remove_values_from_sorted, value_counts,
};

#[test]
fn utilities_test_counts() {
    let slice = vec![3, 0, 1, 2, 1, 2];
    assert_eq!(counts(&slice)[..4], [1, 2, 2, 1]);
}

#[test]
fn utilities_test_indexes() {
    let slice = [0, 0, 0, 1, 1, 1, 2, 2, 2, 3, 3];
    let result = [
        vec![0, 1, 2],
        vec![3, 4, 5],
        vec![6, 7, 8],
        vec![9, 10],
        vec![],
    ];
    assert_eq!(indexes(&slice)[..5], result);
}

#[test]
fn test_filter_shared() {
    let slice = [1, 2, 3];
    let other = [3, 0, 1, 0, 2];
    assert_eq!(filter_shared(&slice, &other), [1, 2, 3]);
}

#[test]
fn mod_test_counts() {
    let slice = [0u8, 1, 1, 1, 2, 3, 4, 4, 4];
    let lut = counts(&slice);
    assert_eq!(lut[0], 1);
    assert_eq!(lut[1], 3);
    assert_eq!(lut[2], 1);
    assert_eq!(lut[3], 1);
    assert_eq!(lut[4], 3);
}

#[test]
fn mod_test_indexes() {
    let slice = [0u8, 1, 1, 1, 2, 3, 4, 4, 4];
    let lut = indexes(&slice);
    assert_eq!(lut[0], vec![0]);
    assert_eq!(lut[1], vec![1, 2, 3]);
    assert_eq!(lut[2], vec![4]);
    assert_eq!(lut[3], vec![5]);
    assert_eq!(lut[4], vec![6, 7, 8]);
    println!("{:?}", lut);
}

#[test]
fn delete_values_test() {
    let mut original: Vec<usize> = vec![1, 2, 3, 4, 5];
    let to_delete: Vec<usize> = vec![1, 3, 5];
    for &num in to_delete.iter() {
        remove_single_value_from_sorted(&mut original, &num);
    }
    // removing 1 gives [5, 2, 3, 4], removing 3 gives [5, 2, 4], and
    // removing 5 swaps in the last element and gives [4, 2]
    assert_eq!(original, vec![4, 2]);
}

#[test]
fn delete_many_values() {
    let mut original: Vec<usize> = vec![1, 2, 3, 4, 5];
    let to_delete: Vec<usize> = vec![1, 3, 5];
    remove_values_from_sorted(&mut original, &to_delete);
    assert_eq!(original, vec![4, 2]);
    // removing an absent value changes nothing
    remove_values_from_sorted(&mut original, &[7]);
    assert_eq!(original, vec![4, 2]);
}

#[test]
fn value_counts_exact_values() {
    let slice: Vec<usize> = vec![2, 0, 2];
    assert_eq!(value_counts(&slice), vec![1, 0, 2]);
    assert_eq!(value_counts(&[]), Vec::<usize>::new());
}

#[test]
fn filter_shared_indexes_exact_values() {
    let slice: Vec<usize> = vec![5, 3, 5, 9];
    let other: Vec<usize> = vec![5, 9];
    assert_eq!(filter_shared_indexes(&slice, &other), vec![5, 5, 9]);
    assert_eq!(filter_shared_indexes(&slice, &[]), Vec::<usize>::new());
}

#[test]
fn push() {
    let mut matrix = CsrMatrix::new();
    matrix.push(&[1, 2, 3]);
    matrix.push(&[4, 5, 6]);
    assert_eq!(matrix.len(), 2);
    assert_eq!(matrix.get(0).unwrap(), &[1, 2, 3][..]);
    assert_eq!(matrix.get(1).unwrap(), &[4, 5, 6][..]);
}

#[test]
fn pop() {
    let mut matrix = CsrMatrix::new();
    matrix.push(&[1, 2, 3]);
    matrix.push(&[4, 5, 6]);
    assert_eq!(matrix.pop(), vec![4, 5, 6]);
    assert_eq!(matrix.get(0).unwrap(), &[1, 2, 3][..]);
}

#[test]
fn extend_from_slice() {
    let mut matrix = CsrMatrix::new();
    matrix.extend_from_slice(&[vec![1, 2, 3], vec![4, 5, 6]]);
    assert_eq!(matrix.len(), 2);
    assert_eq!(matrix.get(0).unwrap(), &[1, 2, 3][..]);
    assert_eq!(matrix.get(1).unwrap(), &[4, 5, 6][..]);
}

#[test]
fn index_range() {
    let mut matrix = CsrMatrix::new();
    matrix.push(&[1, 2, 3]);
    matrix.push(&[4, 5, 6]);
    assert_eq!(matrix.get_range(0, 2), &[1, 2, 3, 4, 5, 6][..]);
}

#[test]
fn iter() {
    let mut matrix = CsrMatrix::<usize>::new();
    matrix.extend_from_slice(&[vec![1, 2, 3], vec![4, 5, 6]]);
    let mut it = matrix.iter();
    let mut collected: Vec<&[usize]> = Vec::new();
    while let Some(row) = it.next() {
        collected.push(row);
    }
    assert_eq!(collected, vec![&[1, 2, 3][..], &[4, 5, 6][..]]);
}

#[test]
fn ragged_round_trip() {
    let rows = [vec![1, 2], vec![], vec![3]];
    let mut matrix = CsrMatrix::new();
    for row in rows.iter() {
        matrix.push(row);
    }
    assert_eq!(matrix.pop(), vec![3]);
    assert_eq!(matrix.pop(), vec![]);
    assert_eq!(matrix.pop(), vec![1, 2]);
    assert!(matrix.is_empty());
    // popping an empty matrix yields an empty row and changes nothing
    assert_eq!(matrix.pop(), Vec::<i32>::new());
    assert!(matrix.is_empty());
}

#[test]
fn get_mut_rewrites_in_place() {
    let mut matrix = CsrMatrix::new();
    matrix.push(&[1, 2, 3]);
    matrix.push(&[4, 5, 6]);
    if let Some(row) = matrix.get_mut(1) {
        row[0] = 40;
    }
    assert_eq!(matrix.get(1).unwrap(), &[40, 5, 6][..]);
    assert!(matrix.get_mut(2).is_none());
}

#[test]
fn get_out_of_range() {
    let mut matrix = CsrMatrix::new();
    matrix.push(&[7]);
    assert_eq!(matrix.get(0).unwrap(), &[7][..]);
    assert!(matrix.get(1).is_none());
}
