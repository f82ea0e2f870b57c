use fast_lcs::slow_lcs::{Lcs, CHUNK_SIZE};

#[test]
fn is_empty() {
    let source = vec![0; CHUNK_SIZE];
    let target = vec![];
    assert_eq!(Lcs::new(&source, &target).len(), 0);
}

#[test]
fn len() {
    let source = vec![0; CHUNK_SIZE];
    let target = source.clone();
    assert_eq!(Lcs::new(&source, &target).len(), CHUNK_SIZE);
}

#[test]
fn subsequence() {
    let source: Vec<u8> = vec![0; CHUNK_SIZE];
    let target = source.clone();
    let lcs = Lcs::new(&source, &target);
    let subsequence = lcs.subsequence();
    assert_eq!(subsequence, source);
    assert_eq!(subsequence.len(), lcs.len());

    let lcs = Lcs::new(b"XMJYAUZ", b"MZJAWXU");
    let subsequence = lcs.subsequence();
    assert_eq!(subsequence, b"MJAU");
    assert_eq!(subsequence.len(), lcs.len());

    let source = vec![0; CHUNK_SIZE];
    let target = vec![];
    let lcs = Lcs::new(&source, &target);
    let subsequence = lcs.subsequence();
    assert_eq!(subsequence, vec![]);
    assert_eq!(subsequence.len(), lcs.len());
}
