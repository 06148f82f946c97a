use tagbam::name::{parse_read_name, ReadNameComponents};
use tagbam::quality::perfect_quality;

#[test]
fn parse_valid_read_name() {
    let name = "2efc6b85-aa0d-4c1d-ab33-bf5f442fe47c_TTGGCTCC-GGTCGGCG-ACTTGA_GAAGCAGT";
    let result = parse_read_name(name.as_bytes()).unwrap();

    assert_eq!(
        result,
        ReadNameComponents {
            i7: b"TTGGCTCC".to_vec(),
            i5: b"GGTCGGCG".to_vec(),
            cbc: b"ACTTGA".to_vec(),
            umi: b"GAAGCAGT".to_vec(),
        }
    );
}

#[test]
fn parse_different_lengths() {
    let name = "uuid_AAA-BB-CCCCCC_UUUU";
    let result = parse_read_name(name.as_bytes()).unwrap();

    assert_eq!(result.i7, b"AAA".to_vec());
    assert_eq!(result.i5, b"BB".to_vec());
    assert_eq!(result.cbc, b"CCCCCC".to_vec());
    assert_eq!(result.umi, b"UUUU".to_vec());
}

#[test]
fn parse_missing_underscore() {
    let name = "uuid_TTGGCTCC-GGTCGGCG-ACTTGAGAAGCAGT"; // Missing underscore before UMI
    assert!(parse_read_name(name.as_bytes()).is_err());
}

#[test]
fn parse_missing_hyphen() {
    let name = "uuid_TTGGCTCC-GGTCGGCGACTTGA_GAAGCAGT"; // Missing hyphen in barcodes
    assert!(parse_read_name(name.as_bytes()).is_err());
}

#[test]
fn parse_empty_components_accepted() {
    let result = parse_read_name(b"u_--_").unwrap();
    assert_eq!(result.i7, Vec::<u8>::new());
    assert_eq!(result.i5, Vec::<u8>::new());
    assert_eq!(result.cbc, Vec::<u8>::new());
    assert_eq!(result.umi, Vec::<u8>::new());
}

#[test]
fn parse_error_carries_name_and_count() {
    match parse_read_name(b"only-one-part") {
        Err(tagbam::name::DecodeError::UnderscoreSegments { name, found }) => {
            assert_eq!(name, b"only-one-part".to_vec());
            assert_eq!(found, 1);
        }
        other => panic!("expected an underscore-segment error, got {:?}", other),
    }
    match parse_read_name(b"uuid_AB_U") {
        Err(tagbam::name::DecodeError::HyphenSegments { name, found }) => {
            assert_eq!(name, b"uuid_AB_U".to_vec());
            assert_eq!(found, 1);
        }
        other => panic!("expected a hyphen-segment error, got {:?}", other),
    }
}

#[test]
fn perfect_quality_length() {
    let qual = perfect_quality(8);
    assert_eq!(qual.len(), 8);
    assert!(qual.iter().all(|&b| b == b'I'));
}

#[test]
fn perfect_quality_ascii() {
    let qual = perfect_quality(5);
    assert_eq!(std::str::from_utf8(&qual).unwrap(), "IIIII");
}

#[test]
fn perfect_quality_zero_is_empty() {
    assert_eq!(perfect_quality(0), Vec::<u8>::new());
}
