use fast_lcs::lcs::slow_lcs::SlowLcs;
use fast_lcs::lcs_trait::Lcs as LcsEngine;
use fast_lcs::new_algos::closest_offset_sum_lcs::{closest_pair_sum_offsets, closest_sum_offset_lcs};
use fast_lcs::new_algos::index_lcs;
use fast_lcs::new_algos::min_count_lcs::Alcs;
use fast_lcs::new_algos::tree_closest_offset_sum::TreeClosestOffsetSum;
use fast_lcs::LcsError;

#[test]
fn test_closest_pair_sum_offsets() {
    let source = [4, 161, 255, 161];
    let target = [161, 4, 161, 255];
    println!("{:?}", closest_sum_offset_lcs(&source, &target).len());
    println!("{:?}", SlowLcs::new(&source, &target).len());
}

#[test]
fn closest_pair_exact_values() {
    // 161 at source offset 1 meets target offset 0; sum 1 ties the pair
    // (0, 1) and the later source offset wins.
    let source = [4, 161, 255, 161];
    let target = [161, 4, 161, 255];
    assert_eq!(closest_pair_sum_offsets(&source, &target), Some((1, 0)));
    assert_eq!(closest_pair_sum_offsets(&source, &[7]), None);
    assert_eq!(closest_sum_offset_lcs(&source, &target), vec![161, 161]);
}

#[test]
fn min_count_lcs_test_next_pair_offsets() {
    let source = [1, 1, 1, 0, 1, 0];
    let target = [0, 0, 0, 0, 0, 0, 1, 0, 1, 0, 0];
    println!(
        "{:?}",
        Alcs::new(&source, &target).next_pair_offsets(&source, &target)
    );
}

#[test]
fn min_count_lcs_test_subsequence() {
    let source = [0, 0, 1, 0, 0, 1, 1, 1, 0, 0, 0, 1, 1, 0, 1, 1, 1, 0, 1, 0];
    let target = [0, 1, 1, 1, 1, 0, 0, 0, 0, 0, 0, 0, 0, 0, 0, 1, 0, 1, 0, 0];
    println!("{:?}", Alcs::new(&source, &target).subsequence());
    println!("{:?}", Alcs::new(&source, &target).len());
}

#[test]
fn min_count_subsequence_is_common() {
    let source = [0, 0, 1, 0, 0, 1, 1, 1, 0, 0];
    let target = [0, 1, 1, 1, 1, 0, 0, 0, 0, 0];
    let sub = Alcs::new(&source, &target).subsequence();
    assert!(is_subsequence(&sub, &source));
    assert!(is_subsequence(&sub, &target));
    assert!(sub.len() <= SlowLcs::new(&source, &target).len());
}

#[test]
fn index_lcs_per_symbol_bounds() {
    let source = [1, 1, 2, 3];
    let target = [1, 2, 2, 9];
    let bounds = index_lcs::lcs(&source, &target);
    assert_eq!(bounds.len(), 256);
    assert_eq!(bounds[1], 1);
    assert_eq!(bounds[2], 1);
    assert_eq!(bounds[3], 0);
    assert_eq!(bounds[9], 0);
}

#[test]
fn tree_closest_offset_sum_unimplemented() {
    let source = [1, 2, 3];
    let target = [3, 2, 1];
    let mut engine = TreeClosestOffsetSum::new(&source, &target);
    assert_eq!(engine.get_next_possible_pairs(), Err(LcsError::Unimplemented));
    assert_eq!(engine.subsequence(), Err(LcsError::Unimplemented));
    assert_eq!(
        TreeClosestOffsetSum::closest_pair_sum_offsets(&source, &target),
        Some((2, 0))
    );
}

fn is_subsequence(sub: &[u8], of: &[u8]) -> bool {
    let mut i = 0;
    for &x in of {
        if i < sub.len() && sub[i] == x {
            i += 1;
        }
    }
    i == sub.len()
}
