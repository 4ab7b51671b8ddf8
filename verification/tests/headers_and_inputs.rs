use horcrux_split::header::{decode_header, encode_header, HeaderDecodeError, HorcruxHeader,
    Timestamp};
use horcrux_split::recover::load_horcrux;
use horcrux_split::split::make_fragment_name;
use horcrux_split::utils::{is_fragment_name, is_qualified_file, is_qualified_path,
    shards_in_range};

fn header() -> HorcruxHeader {
    HorcruxHeader {
        canonical_file_name: b"notes.txt".to_vec(),
        timestamp: Timestamp { secs: 1_699_999_999, nanos: 999_999_999 },
        index: 2,
        total: 7,
        threshold: 4,
        key_fragment: vec![2, 0, 255, 17],
        nonce_fragment: vec![2, 9],
    }
}

#[test]
fn header_round_trip() {
    let h = header();
    let mut bytes = encode_header(&h);
    let header_len = bytes.len();
    bytes.extend_from_slice(&[1, 2, 3, 4, 5]);
    let (back, off) = decode_header(&bytes).expect("own encoding must decode");
    assert_eq!(off, header_len);
    assert_eq!(back.canonical_file_name, h.canonical_file_name);
    assert_eq!(back.timestamp, h.timestamp);
    assert_eq!(back.index, h.index);
    assert_eq!(back.total, h.total);
    assert_eq!(back.threshold, h.threshold);
    assert_eq!(back.key_fragment, h.key_fragment);
    assert_eq!(back.nonce_fragment, h.nonce_fragment);
}

#[test]
fn header_layout_is_marker_then_record_line() {
    let h = header();
    let bytes = encode_header(&h);
    let text = String::from_utf8(bytes.clone()).expect("header region is text");
    assert!(text.starts_with("HORCRUX1\n"));
    assert_eq!(text.matches('\n').count(), 2);
    assert!(text.contains("name=6e6f7465732e747874;"));
    assert!(text.contains("secs=1699999999;"));
    assert!(text.contains("index=2;"));
    assert!(text.contains("total=7;"));
    assert!(text.contains("threshold=4;"));
    assert!(text.ends_with("\n"));
}

#[test]
fn unknown_trailing_fields_are_ignored() {
    let h = header();
    let mut bytes = encode_header(&h);
    // a future field appended to the record line, before its newline
    let nl = bytes.len() - 1;
    bytes.splice(nl..nl, b";color=blue".iter().copied());
    let (back, off) = decode_header(&bytes).expect("unknown fields are ignored");
    assert_eq!(back.index, 2);
    assert_eq!(off, bytes.len());
}

#[test]
fn unknown_fields_between_known_ones_are_skipped() {
    let h = header();
    let mut bytes = encode_header(&h);
    let text = String::from_utf8(bytes.clone()).unwrap();
    // future fields inserted before the first field and between two known ones
    let at_secs = text.find("secs=").unwrap();
    bytes.splice(at_secs..at_secs, b"vault=9f;".iter().copied());
    let at_name = String::from_utf8(bytes.clone()).unwrap().find("name=").unwrap();
    bytes.splice(at_name..at_name, b"zone=west;".iter().copied());
    let (back, off) = decode_header(&bytes).expect("unknown fields are ignored");
    assert_eq!(back.index, 2);
    assert_eq!(back.timestamp, h.timestamp);
    assert_eq!(off, bytes.len());
}

#[test]
fn bad_marker_is_its_own_error() {
    let h = header();
    let mut bytes = encode_header(&h);
    bytes[0] = b'X';
    assert_eq!(decode_header(&bytes).unwrap_err(), HeaderDecodeError::BadMarker);
}

#[test]
fn garbled_field_is_rejected() {
    let h = header();
    let mut bytes = encode_header(&h);
    // overwrite the digits of "secs=" with letters
    let text = String::from_utf8(bytes.clone()).unwrap();
    let at = text.find("secs=").unwrap() + 5;
    bytes[at] = b'q';
    assert_eq!(decode_header(&bytes).unwrap_err(), HeaderDecodeError::BadField);
}

#[test]
fn out_of_domain_fields_are_rejected() {
    let mut h = header();
    h.index = 9;  // above total
    let bytes = encode_header(&h);
    assert_eq!(decode_header(&bytes).unwrap_err(), HeaderDecodeError::FieldOutOfRange);
}

#[test]
fn truncated_header_is_rejected() {
    let h = header();
    let bytes = encode_header(&h);
    let cut = bytes[..bytes.len() - 4].to_vec();
    assert!(decode_header(&cut).is_err());
}

#[test]
fn fragment_names() {
    assert_eq!(make_fragment_name(&b"data".to_vec(), 1, 5), b"data_1_of_5.horcrux".to_vec());
    assert_eq!(
        make_fragment_name(&b"secret".to_vec(), 12, 255),
        b"secret_12_of_255.horcrux".to_vec()
    );
}

#[test]
fn fragment_name_detection() {
    assert!(is_fragment_name(&b"data_1_of_5.horcrux".to_vec()));
    assert!(is_fragment_name(&b"a.hx".to_vec()));
    assert!(!is_fragment_name(&b"data.txt".to_vec()));
    assert!(!is_fragment_name(&b"horcrux".to_vec()));
    assert!(!is_fragment_name(&b"hx".to_vec()));
    assert!(!is_fragment_name(&b"".to_vec()));
    assert!(!is_fragment_name(&b".horcrux".to_vec()));
    assert!(!is_fragment_name(&b".hx".to_vec()));
}

#[test]
fn shard_counts_in_range() {
    assert_eq!(shards_in_range("1"), Ok(1));
    assert_eq!(shards_in_range("3"), Ok(3));
    assert_eq!(shards_in_range("255"), Ok(255));
    assert_eq!(shards_in_range("007"), Ok(7));
}

#[test]
fn shard_counts_out_of_range() {
    assert_eq!(shards_in_range("0"), Err("Shards must be between 1 and 255.".to_string()));
    assert_eq!(shards_in_range("256"), Err("Shards must be between 1 and 255.".to_string()));
    assert_eq!(
        shards_in_range("99999999999999999999"),
        Err("Shards must be between 1 and 255.".to_string())
    );
}

#[test]
fn shard_counts_not_numbers() {
    assert_eq!(shards_in_range("abc"), Err("`abc` is not a number.".to_string()));
    assert_eq!(shards_in_range(""), Err("`` is not a number.".to_string()));
    assert_eq!(shards_in_range("3x"), Err("`3x` is not a number.".to_string()));
}

#[test]
fn path_validators_on_absent_paths() {
    assert!(is_qualified_path("/nonexistent_dir_for_fragments/sub").is_ok());
    let e = is_qualified_file("/nonexistent_source_file").unwrap_err();
    assert_eq!(e, "`/nonexistent_source_file` is not a file.");
}

#[test]
fn load_horcrux_splits_header_from_body() {
    let h = header();
    let mut bytes = encode_header(&h);
    bytes.extend_from_slice(&[9, 8, 7]);
    let loaded = load_horcrux(&bytes).expect("own encoding must load");
    assert_eq!(loaded.header.index, h.index);
    assert_eq!(loaded.body, vec![9, 8, 7]);
    assert!(load_horcrux(&b"not a fragment".to_vec()).is_err());
}
