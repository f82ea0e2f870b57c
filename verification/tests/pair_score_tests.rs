use fast_lcs::lcs::pair_score_lcs::PairScoreLcs;
use fast_lcs::utilities::csr_matrix::CsrMatrix;

#[test]
fn dgb() {
    let source = [0, 1, 0, 2];
    let target = [2, 0, 1, 0];
    let pair_indexes = PairScoreLcs::pair_indexes(&source, &target);
    println!("{:?}", pair_indexes);
}

#[test]
fn pair_indexes() {
    let source = vec![0, 1, 0, 1];
    let target = vec![1, 0, 1, 0];
    let pair_indexes = PairScoreLcs::pair_indexes(&source, &target);
    assert_eq!(
        pair_indexes,
        vec![
            (0, 1),
            (0, 3),
            (2, 1),
            (2, 3),
            (1, 0),
            (1, 2),
            (3, 0),
            (3, 2)
        ]
    );
}

#[test]
fn pair_index_lut() {
    let pair_indexes = [0, 1, 1, 3];
    let pair_index_lut = PairScoreLcs::pair_index_lut(&pair_indexes);
    let mut other_pair_index_lut = CsrMatrix::new();
    other_pair_index_lut.extend_from_slice(&[vec![0], vec![1, 2], vec![], vec![3]]);
    assert_eq!(pair_index_lut, other_pair_index_lut);
}

#[test]
fn unblocking_lut() {
    let pair_indexes = [(0, 0), (1, 1)];
    let unblocking_lut = PairScoreLcs::unblocking_lut(&pair_indexes);
    let mut other_unblocking_lut = CsrMatrix::new();
    other_unblocking_lut.extend_from_slice(&[vec![1], vec![]]);
    assert_eq!(unblocking_lut, other_unblocking_lut);
}

#[test]
fn lis_lcs() {}

#[test]
fn pair_score_new_builds_structure() {
    let source = [0, 1, 0, 1];
    let target = [1, 0, 1, 0];
    let engine = PairScoreLcs::new(&source, &target);
    let again = PairScoreLcs::new(&source, &target);
    assert_eq!(engine, again);
}

#[test]
fn unblocking_lut_crossing_pairs() {
    // pairs 0 and 1 cross each other; pair 2 follows pair 1 only.
    let pair_indexes = [(0, 2), (1, 0), (2, 1)];
    let unblocking_lut = PairScoreLcs::unblocking_lut(&pair_indexes);
    let mut expected = CsrMatrix::new();
    expected.extend_from_slice(&[vec![], vec![2], vec![]]);
    assert_eq!(unblocking_lut, expected);
}
