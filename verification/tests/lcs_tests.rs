use fast_lcs::lcs::closest_offset_sum_lcs::ClosestOffsetSum;
use fast_lcs::lcs::slow_lcs::SlowLcs;
use fast_lcs::lcs::tracking_offset_sum_lcs::TrackingOffsetSum;
use fast_lcs::lcs_trait::Lcs;

#[test]
fn slow_lcs_is_empty() {
    let source = vec![0; 10];
    let target = vec![];
    let lcs = SlowLcs::new(&source, &target);
    assert_eq!(lcs.len(), 0);
}

#[test]
fn slow_lcs_len() {
    let length = 10;
    let source = vec![0; length];
    let target = source.clone();
    let lcs = SlowLcs::new(&source, &target);
    assert_eq!(lcs.len(), length);
}

#[test]
fn slow_lcs_subsequence() {
    let source = b"AAA";
    let target = b"";
    let lcs = SlowLcs::new(source, target);
    assert_eq!(lcs.subsequence(), b"");

    let source = b"AAA";
    let target = &source.clone();
    let lcs = SlowLcs::new(source, target);
    assert_eq!(lcs.subsequence(), source);

    let source = b"XMJYAUZ";
    let target = b"MZJAWXU";
    let lcs = SlowLcs::new(source, target);
    assert_eq!(lcs.subsequence(), b"MJAU");
}

#[test]
fn closest_offset_sum_lcs_is_empty() {
    let source = vec![0; 10];
    let target = vec![];
    let lcs = ClosestOffsetSum::new(&source, &target);
    assert_eq!(lcs.len(), 0);
}

#[test]
fn closest_offset_sum_lcs_len() {
    let length = 10;
    let source = vec![0; length];
    let target = source.clone();
    let lcs = ClosestOffsetSum::new(&source, &target);
    assert_eq!(lcs.len(), length);
}

#[test]
fn closest_offset_sum_lcs_subsequence() {
    let source = [0, 0, 0, 1, 1, 1, 2, 2, 2, 3, 3, 3];
    let target = [3, 3, 3, 1, 1, 1, 2, 2, 2];
    assert_eq!(
        ClosestOffsetSum::new(&source, &target).subsequence(),
        vec![1, 1, 1, 2, 2, 2]
    );
}

#[test]
fn tracking_offset_sum_lcs_is_empty() {
    let source = vec![0; 10];
    let target = vec![];
    let lcs = TrackingOffsetSum::new(&source, &target);
    assert_eq!(lcs.len(), 0);
}

#[test]
fn tracking_offset_sum_lcs_len() {
    let length = 10;
    let source = vec![0; length];
    let target = source.clone();
    let lcs = TrackingOffsetSum::new(&source, &target);
    assert_eq!(lcs.len(), length);
}

#[test]
fn tracking_offset_sum_lcs_subsequence() {
    let source = [0, 0, 0, 1, 1, 1, 2, 2, 2, 3, 3, 3];
    let target = [3, 3, 3, 1, 1, 1, 2, 2, 2];
    assert_eq!(
        TrackingOffsetSum::new(&source, &target).subsequence(),
        vec![1, 1, 1, 2, 2, 2]
    );
}

#[test]
fn dbg_slow_lcs() {
    let source = [0, 0, 1, 1, 0, 1, 0];
    let target = [1, 1, 1, 0, 1, 0, 0, 1];
    println!(
        "ClosestOffsetSum LCS values {:?}",
        SlowLcs::new(&source, &target).subsequence()
    );
    println!("SlowLcs LCS length: {}", SlowLcs::new(&source, &target).len());
}

#[test]
fn dbg_closest_offset_sum_lcs() {
    let source = [0, 0, 1, 1, 0, 1, 0];
    let target = [1, 1, 1, 0, 1, 0, 0, 1];
    println!(
        "ClosestOffsetSum LCS values {:?}",
        ClosestOffsetSum::new(&source, &target).subsequence()
    );
    println!(
        "ClosestOffsetSum LCS length {}",
        ClosestOffsetSum::new(&source, &target).len()
    );
}
