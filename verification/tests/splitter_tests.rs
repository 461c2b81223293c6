use secret_silo::splitter::{
    reconstruct_dek, split_dek, ReconstructionError, Share, ShareSerialization,
};

fn sample_key() -> Vec<u8> {
    (0u8..32).map(|b| b.wrapping_mul(37).wrapping_add(5)).collect()
}

fn pick(shares: &[Share], indices: &[usize]) -> Vec<Share> {
    indices.iter().map(|&i| shares[i].clone()).collect()
}

#[test]
fn split_then_reconstruct_two_subsets() {
    let dek = sample_key();
    let shares = split_dek(&dek);
    assert_eq!(shares.len(), 5);
    for (i, s) in shares.iter().enumerate() {
        assert_eq!(s.x as usize, i + 1);
        assert_eq!(s.y.len(), 32);
    }
    let first = reconstruct_dek(pick(&shares, &[0, 2, 4])).unwrap();
    let second = reconstruct_dek(pick(&shares, &[1, 3, 4])).unwrap();
    assert_eq!(first, dek);
    assert_eq!(second, dek);
    assert_eq!(first, second);
}

#[test]
fn reconstruct_from_all_five() {
    let dek = sample_key();
    let shares = split_dek(&dek);
    let all = pick(&shares, &[0, 1, 2, 3, 4]);
    assert_eq!(reconstruct_dek(all).unwrap(), dek);
}

#[test]
fn too_few_shares_fail() {
    let dek = sample_key();
    let shares = split_dek(&dek);
    let r = reconstruct_dek(pick(&shares, &[0, 1]));
    assert!(matches!(r, Err(ReconstructionError::TooFewShares)));
    let r = reconstruct_dek(Vec::new());
    assert!(matches!(r, Err(ReconstructionError::TooFewShares)));
}

#[test]
fn duplicate_index_fails() {
    let dek = sample_key();
    let shares = split_dek(&dek);
    let r = reconstruct_dek(pick(&shares, &[0, 0, 1]));
    assert!(matches!(r, Err(ReconstructionError::DuplicateShareIndex)));
}

#[test]
fn mismatched_lengths_fail() {
    let a = Share { x: 1, y: vec![1, 2, 3] };
    let b = Share { x: 2, y: vec![4, 5, 6] };
    let c = Share { x: 3, y: vec![7, 8] };
    let r = reconstruct_dek(vec![a, b, c]);
    assert!(matches!(r, Err(ReconstructionError::MismatchedShareLength)));
}

#[test]
fn empty_y_vectors_fail() {
    let a = Share { x: 1, y: Vec::new() };
    let b = Share { x: 2, y: Vec::new() };
    let c = Share { x: 3, y: Vec::new() };
    let r = reconstruct_dek(vec![a, b, c]);
    assert!(matches!(r, Err(ReconstructionError::MalformedShare)));
}

#[test]
fn share_bytes_round_trip() {
    let share = Share { x: 4, y: vec![9, 8, 7, 6] };
    let bytes = share.to_bytes();
    assert_eq!(bytes, vec![4, 9, 8, 7, 6]);
    let back = Share::from_bytes(&bytes).unwrap();
    assert_eq!(back.x, 4);
    assert_eq!(back.y, vec![9, 8, 7, 6]);
}

#[test]
fn share_from_short_bytes_fails() {
    assert!(Share::from_bytes(&[]).is_err());
    assert!(Share::from_bytes(&[5]).is_err());
    assert!(Share::from_bytes(&[5, 6]).is_ok());
}
