use tagbam::loader::{load_bq_map, load_bq_map_with_cache, MapLoadError};

fn source_lines() -> Vec<Vec<u8>> {
    vec![
        b"@uuid1_AAA-BBB-CCC_UUU cell|Barcodes:i7:AAA;i5:BBB;CBC:CCC|UMI:UUU|orientation:+|BQ:i7:123;i5:456;CBC:789;UMI:XYZ".to_vec(),
        b"AAAAAAAAA".to_vec(),
        b"+".to_vec(),
        b"IIIIIIIII".to_vec(),
    ]
}

#[test]
fn load_map_from_source_lines() {
    let map = load_bq_map(&source_lines()).unwrap();
    assert_eq!(map.len(), 1);
    let q = map.get(b"uuid1_AAA-BBB-CCC_UUU").unwrap();
    assert_eq!(q.cb, b"123456789".to_vec());
    assert_eq!(q.umi, Some(b"XYZ".to_vec()));
}

#[test]
fn load_skips_headers_without_token() {
    let lines = vec![
        b"@read1 no quality token here".to_vec(),
        b"ACGT".to_vec(),
        b"+".to_vec(),
        b"IIII".to_vec(),
    ];
    let map = load_bq_map(&lines).unwrap();
    assert_eq!(map.len(), 0);
}

#[test]
fn load_only_inspects_headers() {
    let lines = vec![
        b"@read1 x|BQ:i7:1;i5:2;CBC:3".to_vec(),
        b"ACGT".to_vec(),
        // A follower line carrying a token contributes nothing.
        b"junk y|BQ:i7:9;i5:9;CBC:9".to_vec(),
        b"IIII".to_vec(),
    ];
    let map = load_bq_map(&lines).unwrap();
    assert_eq!(map.len(), 1);
    assert_eq!(map.get(b"read1").unwrap().cb, b"123".to_vec());
}

#[test]
fn load_rejects_non_utf8_header() {
    let mut lines = source_lines();
    lines[0] = vec![0xFF, 0xFE, b'x'];
    let err = load_bq_map(&lines).unwrap_err();
    assert_eq!(err.line_index, 0);
}

#[test]
fn load_accepts_non_utf8_follower_lines() {
    let mut lines = source_lines();
    lines[1] = vec![0xFF, 0xFE];
    assert!(load_bq_map(&lines).is_ok());
}

#[test]
fn cache_substitutes_source() {
    // A first run parses the source and hands back the bytes to persist.
    let (first, persisted) = load_bq_map_with_cache(None, &source_lines(), true).unwrap();
    let cache_bytes = persisted.expect("a cache was asked for");

    // A later run with the cache alone never touches the source.
    let no_lines: Vec<Vec<u8>> = Vec::new();
    let (second, none_out) = load_bq_map_with_cache(Some(&cache_bytes), &no_lines, true).unwrap();
    assert!(none_out.is_none());

    assert_eq!(second.len(), first.len());
    let q1 = first.get(b"uuid1_AAA-BBB-CCC_UUU").unwrap();
    let q2 = second.get(b"uuid1_AAA-BBB-CCC_UUU").unwrap();
    assert_eq!(q1, q2);
}

#[test]
fn without_cache_request_nothing_is_persisted() {
    let (_, persisted) = load_bq_map_with_cache(None, &source_lines(), false).unwrap();
    assert!(persisted.is_none());
}

#[test]
fn corrupt_cache_is_fatal() {
    let bad = b"NOTMAGIC".to_vec();
    match load_bq_map_with_cache(Some(&bad), &source_lines(), false) {
        Err(MapLoadError::Cache(_)) => {}
        other => panic!("a corrupt cache must be fatal, got {:?}", other),
    }
}
