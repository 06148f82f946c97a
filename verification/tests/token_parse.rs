use tagbam::token::parse_bq_token;

#[test]
fn bq_token_without_umi() {
    let q = parse_bq_token(b"header stuff|BQ:i7:X;i5:Y;CBC:Z").unwrap();
    assert_eq!(q.cb, b"XYZ".to_vec());
    assert!(q.umi.is_none());
}

#[test]
fn bq_token_with_umi() {
    let q = parse_bq_token(b"header stuff|BQ:i7:X;i5:Y;CBC:Z;UMI:W").unwrap();
    assert_eq!(q.cb, b"XYZ".to_vec());
    assert_eq!(q.umi, Some(b"W".to_vec()));
}

#[test]
fn bq_token_absent_marker() {
    assert!(parse_bq_token(b"a plain header with no quality token").is_none());
}

#[test]
fn bq_token_ignores_unknown_labels() {
    let q = parse_bq_token(b"h|BQ:i7:X;foo:bar;i5:Y;CBC:Z").unwrap();
    assert_eq!(q.cb, b"XYZ".to_vec());
    assert!(q.umi.is_none());
}

#[test]
fn bq_token_requires_all_three_barcode_labels() {
    assert!(parse_bq_token(b"h|BQ:i7:X;i5:Y").is_none());
    assert!(parse_bq_token(b"h|BQ:i5:Y;CBC:Z").is_none());
}

#[test]
fn bq_token_stops_at_whitespace() {
    let q = parse_bq_token(b"h|BQ:i7:X;i5:Y;CBC:Z more;UMI:W").unwrap();
    assert_eq!(q.cb, b"XYZ".to_vec());
    assert!(q.umi.is_none());
}

#[test]
fn bq_token_skips_malformed_pieces() {
    let q = parse_bq_token(b"h|BQ:i7:X;nocolon;i5:Y;CBC:Z").unwrap();
    assert_eq!(q.cb, b"XYZ".to_vec());
}

#[test]
fn bq_token_uses_first_marker() {
    let q = parse_bq_token(b"h|BQ:i7:A;i5:B;CBC:C rest|BQ:i7:X;i5:Y;CBC:Z").unwrap();
    assert_eq!(q.cb, b"ABC".to_vec());
}

#[test]
fn bq_token_last_field_wins() {
    let q = parse_bq_token(b"h|BQ:i7:A;i5:B;CBC:C;i7:D").unwrap();
    assert_eq!(q.cb, b"DBC".to_vec());
}
