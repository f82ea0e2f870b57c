use fast_lcs::filter::{count_lut, filter_non_occuring, index_lut};

#[test]
fn test_count_lut() {
    let slice = [8, 5, 1, 0, 2, 9, 8, 3, 7, 5, 6, 8, 3, 6, 3];
    println!("{:?}", count_lut(&slice));
}

#[test]
fn test_order_lut() {
    let slice = [0, 0, 0, 1, 1, 2, 3];
    println!("{:?}", index_lut(&slice));
}

#[test]
fn test_filter_non_occuring() {
    let slice = [1, 6, 9, 7, 2, 6, 2, 4, 2, 3, 3, 8, 9, 4, 8];
    let other = [8, 5, 1, 0, 2, 9, 8, 3, 7, 5, 6, 8, 3, 6, 3];
    println!("{:?}", filter_non_occuring(&slice, &other));
    println!("{:?}", filter_non_occuring(&other, &slice));
}

#[test]
fn count_lut_exact_values() {
    let slice = [3, 0, 1, 2, 1, 2];
    let lut = count_lut(&slice);
    assert_eq!(lut.len(), 256);
    assert_eq!(&lut[..4], [1, 2, 2, 1]);
    assert!(lut[4..].iter().all(|&c| c == 0));
}

#[test]
fn index_lut_exact_values() {
    let slice = [0, 0, 0, 1, 1, 2, 3];
    let lut = index_lut(&slice);
    assert_eq!(lut.len(), 256);
    assert_eq!(lut[0], vec![0, 1, 2]);
    assert_eq!(lut[1], vec![3, 4]);
    assert_eq!(lut[2], vec![5]);
    assert_eq!(lut[3], vec![6]);
    assert!(lut[4].is_empty());
}

#[test]
fn filter_non_occuring_exact_values() {
    let slice = [1, 2, 3];
    let other = [3, 0, 1, 0, 2];
    assert_eq!(filter_non_occuring(&slice, &other), vec![1, 2, 3]);
    let other = [9, 9];
    assert_eq!(filter_non_occuring(&slice, &other), Vec::<u8>::new());
}
