// Concrete scenarios for the behaviour the library states in general form:
// the exact engine's answer is a maximal common subsequence, its length is
// symmetric, identical and empty inputs behave as stated, and the heuristic
// engines never beat it while sometimes falling short.

use fast_lcs::lcs::closest_offset_sum_lcs::ClosestOffsetSum;
use fast_lcs::lcs::slow_lcs::SlowLcs;
use fast_lcs::lcs::tracking_offset_sum_lcs::TrackingOffsetSum;
use fast_lcs::lcs_trait::Lcs;
use fast_lcs::new_algos::min_count_lcs::Alcs;

fn is_subsequence(sub: &[u8], of: &[u8]) -> bool {
    let mut i = 0;
    for &x in of {
        if i < sub.len() && sub[i] == x {
            i += 1;
        }
    }
    i == sub.len()
}

#[test]
fn exact_subsequence_is_common_and_maximal() {
    let source = [0, 0, 1, 1, 0, 1, 0];
    let target = [1, 1, 1, 0, 1, 0, 0, 1];
    let engine = SlowLcs::new(&source, &target);
    let sub = engine.subsequence();
    assert!(is_subsequence(&sub, &source));
    assert!(is_subsequence(&sub, &target));
    assert_eq!(sub.len(), engine.len());
}

#[test]
fn exact_length_is_symmetric() {
    let a = [9, 8, 2, 8, 8, 7, 9, 1, 4, 2];
    let b = [0, 3, 0, 7, 0, 8, 4, 2, 9, 9];
    assert_eq!(SlowLcs::new(&a, &b).len(), SlowLcs::new(&b, &a).len());
    let c = b"XMJYAUZ";
    let d = b"MZJAWXU";
    assert_eq!(SlowLcs::new(c, d).len(), SlowLcs::new(d, c).len());
}

#[test]
fn identical_inputs_reproduce_the_input() {
    let a = [3, 1, 4, 1, 5, 9, 2, 6];
    let engine = SlowLcs::new(&a, &a);
    assert_eq!(engine.len(), a.len());
    assert_eq!(engine.subsequence(), a);
    assert_eq!(ClosestOffsetSum::new(&a, &a).subsequence(), a);
    assert_eq!(TrackingOffsetSum::new(&a, &a).subsequence(), a);
    assert_eq!(Alcs::new(&a, &a).subsequence(), a);
    assert!(!Alcs::new(&a, &a).is_empty());
}

#[test]
fn empty_input_gives_empty_answer() {
    let a = [1, 2, 3];
    let empty: [u8; 0] = [];
    assert_eq!(SlowLcs::new(&a, &empty).len(), 0);
    assert_eq!(SlowLcs::new(&empty, &a).subsequence(), Vec::<u8>::new());
    assert_eq!(ClosestOffsetSum::new(&a, &empty).len(), 0);
    assert!(ClosestOffsetSum::new(&empty, &a).is_empty());
    assert_eq!(TrackingOffsetSum::new(&a, &empty).len(), 0);
    assert_eq!(TrackingOffsetSum::new(&empty, &a).subsequence(), Vec::<u8>::new());
    assert_eq!(Alcs::new(&a, &empty).subsequence(), Vec::<u8>::new());
}

#[test]
fn heuristics_never_beat_the_exact_engine() {
    let inputs: [(&[u8], &[u8]); 4] = [
        (&[4, 161, 255, 161], &[161, 4, 161, 255]),
        (&[0, 0, 1, 1, 0, 1, 0], &[1, 1, 1, 0, 1, 0, 0, 1]),
        (&[0, 0, 0, 1, 1, 1, 2, 2, 2, 3, 3, 3], &[3, 3, 3, 1, 1, 1, 2, 2, 2]),
        (&[7, 7, 7], &[5, 6]),
    ];
    let mut diverged = false;
    for (source, target) in inputs.iter() {
        let exact = SlowLcs::new(source, target).len();
        let greedy = ClosestOffsetSum::new(source, target).len();
        let tracking = TrackingOffsetSum::new(source, target).len();
        let decaying = Alcs::new(source, target).subsequence().len();
        assert!(greedy <= exact);
        assert!(tracking <= exact);
        assert!(decaying <= exact);
        if greedy < exact || tracking < exact || decaying < exact {
            diverged = true;
        }
    }
    // divergence does occur: on the first input the greedy engine finds two
    // symbols where three are possible
    assert!(diverged);
    assert_eq!(
        ClosestOffsetSum::new(&[4, 161, 255, 161], &[161, 4, 161, 255]).len(),
        2
    );
    assert_eq!(SlowLcs::new(&[4, 161, 255, 161], &[161, 4, 161, 255]).len(), 3);
}

#[test]
fn repeated_symbol_inputs_agree_everywhere() {
    let source = vec![0u8; 10];
    let target = source.clone();
    assert_eq!(SlowLcs::new(&source, &target).len(), 10);
    assert_eq!(fast_lcs::slow_lcs::Lcs::new(&source, &target).len(), 10);
    assert_eq!(ClosestOffsetSum::new(&source, &target).len(), 10);
    assert_eq!(TrackingOffsetSum::new(&source, &target).len(), 10);
    assert_eq!(Alcs::new(&source, &target).subsequence().len(), 10);
}

#[test]
fn exact_scenario_text() {
    let engine = SlowLcs::new(b"XMJYAUZ", b"MZJAWXU");
    assert_eq!(engine.subsequence(), b"MJAU");
    assert_eq!(engine.len(), 4);
    let capped = fast_lcs::slow_lcs::Lcs::new(b"XMJYAUZ", b"MZJAWXU");
    assert_eq!(capped.subsequence(), b"MJAU");
    assert_eq!(capped.len(), 4);
}

#[test]
fn greedy_scenario_blocks() {
    let source = [0, 0, 0, 1, 1, 1, 2, 2, 2, 3, 3, 3];
    let target = [3, 3, 3, 1, 1, 1, 2, 2, 2];
    assert_eq!(
        ClosestOffsetSum::new(&source, &target).subsequence(),
        vec![1, 1, 1, 2, 2, 2]
    );
    assert_eq!(SlowLcs::new(&source, &target).len(), 6);
}
