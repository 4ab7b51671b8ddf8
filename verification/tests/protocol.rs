use horcrux_split::header::{decode_header, encode_header, HorcruxHeader, Timestamp};
use horcrux_split::recover::{recover_file, RecoverError};
use horcrux_split::split::{split_with_secrets, FragmentFile, SplitError};

fn sample_content(n: usize) -> Vec<u8> {
    (0..n).map(|i| (i % 251) as u8).collect()
}

fn sample_key() -> Vec<u8> {
    (0..32u8).collect()
}

fn sample_nonce() -> Vec<u8> {
    (100..119u8).collect()
}

fn stamp() -> Timestamp {
    Timestamp { secs: 1_700_000_000, nanos: 123_456_789 }
}

fn do_split(content: &Vec<u8>, total: u8, threshold: u8) -> Vec<FragmentFile> {
    split_with_secrets(
        content,
        &b"data.txt".to_vec(),
        &b"data".to_vec(),
        &stamp(),
        &sample_key(),
        &sample_nonce(),
        total,
        threshold,
    )
    .expect("split should succeed")
}

#[test]
fn split_five_of_three_names_and_count() {
    let content = sample_content(10_000);
    let frags = do_split(&content, 5, 3);
    assert_eq!(frags.len(), 5);
    let expected = [
        b"data_1_of_5.horcrux".to_vec(),
        b"data_2_of_5.horcrux".to_vec(),
        b"data_3_of_5.horcrux".to_vec(),
        b"data_4_of_5.horcrux".to_vec(),
        b"data_5_of_5.horcrux".to_vec(),
    ];
    for (i, f) in frags.iter().enumerate() {
        assert_eq!(f.file_name, expected[i]);
    }
}

#[test]
fn round_trip_any_three_of_five() {
    let content = sample_content(10_000);
    let frags = do_split(&content, 5, 3);
    let picks: [[usize; 3]; 4] = [[0, 1, 2], [0, 2, 4], [4, 2, 1], [3, 1, 0]];
    for pick in picks.iter() {
        let files: Vec<Vec<u8>> = pick.iter().map(|&i| frags[i].bytes.clone()).collect();
        let rec = recover_file(&files).expect("recovery should succeed");
        assert_eq!(rec.content, content);
        assert_eq!(rec.file_name, b"data.txt".to_vec());
    }
}

#[test]
fn round_trip_with_more_than_threshold() {
    let content = sample_content(777);
    let frags = do_split(&content, 5, 3);
    for k in 3..=5 {
        let files: Vec<Vec<u8>> = frags[..k].iter().map(|f| f.bytes.clone()).collect();
        let rec = recover_file(&files).expect("recovery should succeed");
        assert_eq!(rec.content, content);
    }
}

#[test]
fn subsets_agree_on_plaintext() {
    let content = sample_content(512);
    let frags = do_split(&content, 5, 3);
    let a: Vec<Vec<u8>> = [0usize, 1, 2].iter().map(|&i| frags[i].bytes.clone()).collect();
    let b: Vec<Vec<u8>> = [2usize, 3, 4].iter().map(|&i| frags[i].bytes.clone()).collect();
    let ra = recover_file(&a).unwrap();
    let rb = recover_file(&b).unwrap();
    assert_eq!(ra.content, rb.content);
    assert_eq!(ra.file_name, rb.file_name);
}

#[test]
fn two_fragments_fail_with_counts() {
    let content = sample_content(10_000);
    let frags = do_split(&content, 5, 3);
    let files: Vec<Vec<u8>> = vec![frags[1].bytes.clone(), frags[4].bytes.clone()];
    let err = recover_file(&files).unwrap_err();
    assert_eq!(err, RecoverError::InsufficientFragments { found: 2, need: 3 });
}

#[test]
fn exactly_threshold_minus_one_fails() {
    let content = sample_content(64);
    let frags = do_split(&content, 4, 4);
    let files: Vec<Vec<u8>> = frags[..3].iter().map(|f| f.bytes.clone()).collect();
    let err = recover_file(&files).unwrap_err();
    assert_eq!(err, RecoverError::InsufficientFragments { found: 3, need: 4 });
}

#[test]
fn empty_directory_is_a_distinct_error() {
    let files: Vec<Vec<u8>> = Vec::new();
    let err = recover_file(&files).unwrap_err();
    assert_eq!(err, RecoverError::NoFragments);
}

#[test]
fn foreign_fragments_are_not_merged() {
    let content_a = sample_content(300);
    let content_b: Vec<u8> = vec![9u8; 300];
    let frags_a = do_split(&content_a, 3, 2);
    let other_stamp = Timestamp { secs: 1_700_000_001, nanos: 5 };
    let frags_b = split_with_secrets(
        &content_b,
        &b"data.txt".to_vec(),
        &b"data".to_vec(),
        &other_stamp,
        &sample_key(),
        &sample_nonce(),
        3,
        2,
    )
    .unwrap();
    let files: Vec<Vec<u8>> = vec![
        frags_a[0].bytes.clone(),
        frags_b[0].bytes.clone(),
        frags_a[2].bytes.clone(),
        frags_b[2].bytes.clone(),
    ];
    let rec = recover_file(&files).expect("the reference group is complete");
    assert_eq!(rec.content, content_a);
}

#[test]
fn matching_provenance_with_other_threshold_is_rejected() {
    let content = sample_content(128);
    let frags_a = do_split(&content, 3, 2);
    let frags_b = split_with_secrets(
        &content,
        &b"data.txt".to_vec(),
        &b"data".to_vec(),
        &stamp(),
        &sample_key(),
        &sample_nonce(),
        3,
        3,
    )
    .unwrap();
    let files: Vec<Vec<u8>> = vec![frags_a[0].bytes.clone(), frags_b[1].bytes.clone()];
    let err = recover_file(&files).unwrap_err();
    assert_eq!(err, RecoverError::MismatchedGroup);
}

#[test]
fn bodies_are_byte_identical_and_encrypted() {
    let content = sample_content(10_000);
    let frags = do_split(&content, 5, 3);
    let mut bodies: Vec<Vec<u8>> = Vec::new();
    for f in frags.iter() {
        let (_, off) = decode_header(&f.bytes).expect("fragment must decode");
        bodies.push(f.bytes[off..].to_vec());
    }
    for b in bodies.iter() {
        assert_eq!(b, &bodies[0]);
        // an authenticated stream adds its tag: the body is not the plaintext
        assert_eq!(b.len(), content.len() + 16);
        assert_ne!(&b[..content.len()], content.as_slice());
    }
}

#[test]
fn header_fields_across_one_split() {
    let content = sample_content(2_000);
    let frags = do_split(&content, 5, 3);
    let mut seen = [false; 5];
    for f in frags.iter() {
        let (h, _) = decode_header(&f.bytes).expect("fragment must decode");
        assert_eq!(h.canonical_file_name, b"data.txt".to_vec());
        assert_eq!(h.timestamp, stamp());
        assert_eq!(h.total, 5);
        assert_eq!(h.threshold, 3);
        assert!(1 <= h.index && h.index <= 5);
        assert!(!seen[(h.index - 1) as usize]);
        seen[(h.index - 1) as usize] = true;
    }
    assert!(seen.iter().all(|&s| s));
}

#[test]
fn tampered_body_fails_decryption() {
    let content = sample_content(50);
    let frags = do_split(&content, 1, 1);
    let (_, off) = decode_header(&frags[0].bytes).unwrap();
    let mut tampered = frags[0].bytes.clone();
    tampered[off] ^= 0x55;
    let err = recover_file(&vec![tampered]).unwrap_err();
    assert_eq!(err, RecoverError::DecryptFailed);
}

#[test]
fn malformed_share_cannot_reconstruct() {
    let h = HorcruxHeader {
        canonical_file_name: b"x".to_vec(),
        timestamp: stamp(),
        index: 1,
        total: 1,
        threshold: 1,
        key_fragment: vec![7],
        nonce_fragment: vec![8],
    };
    let file = encode_header(&h);
    let err = recover_file(&vec![file]).unwrap_err();
    assert_eq!(err, RecoverError::CannotReconstruct);
}

#[test]
fn invalid_counts_are_rejected() {
    let content = sample_content(10);
    let r = split_with_secrets(
        &content,
        &b"a".to_vec(),
        &b"a".to_vec(),
        &stamp(),
        &sample_key(),
        &sample_nonce(),
        2,
        3,
    );
    assert_eq!(r.err(), Some(SplitError::InvalidCounts));
    let r0 = split_with_secrets(
        &content,
        &b"a".to_vec(),
        &b"a".to_vec(),
        &stamp(),
        &sample_key(),
        &sample_nonce(),
        0,
        0,
    );
    assert_eq!(r0.err(), Some(SplitError::InvalidCounts));
}

#[test]
fn one_of_one_round_trip() {
    let content: Vec<u8> = Vec::new();
    let frags = do_split(&content, 1, 1);
    let rec = recover_file(&vec![frags[0].bytes.clone()]).unwrap();
    assert_eq!(rec.content, content);
}

#[test]
fn full_spread_round_trip() {
    let content = sample_content(255);
    let frags = do_split(&content, 255, 255);
    assert_eq!(frags.len(), 255);
    let files: Vec<Vec<u8>> = frags.iter().map(|f| f.bytes.clone()).collect();
    let rec = recover_file(&files).unwrap();
    assert_eq!(rec.content, content);
}

#[test]
fn an_unreadable_candidate_is_reported_by_position() {
    let content = sample_content(40);
    let frags = do_split(&content, 2, 2);
    let files: Vec<Vec<u8>> = vec![frags[0].bytes.clone(), b"garbage".to_vec()];
    let err = recover_file(&files).unwrap_err();
    assert_eq!(err, RecoverError::FragmentUndecodable { index: 1 });
}
