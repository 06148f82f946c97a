use tagbam::cache::{read_bq_cache, read_u64, read_u8, write_bq_cache, write_u64, write_u8,
    write_bytes, read_bytes, CacheError};
use tagbam::qmap::{BqQuals, QualityMap};

fn sample_map() -> QualityMap {
    let mut map = QualityMap::new();
    assert!(map.insert(
        b"read1".to_vec(),
        BqQuals { cb: b"ABC".to_vec(), umi: Some(b"XYZ".to_vec()) },
    ));
    assert!(map.insert(b"read2".to_vec(), BqQuals { cb: b"QQ".to_vec(), umi: None }));
    map
}

#[test]
fn bq_cache_roundtrip() {
    let map = sample_map();

    let bytes = write_bq_cache(&map);
    let loaded = read_bq_cache(&bytes).unwrap();

    assert_eq!(loaded.len(), map.len());
    assert_eq!(loaded.get(b"read1").unwrap().cb, b"ABC".to_vec());
    assert_eq!(loaded.get(b"read1").unwrap().umi.as_ref().unwrap(), &b"XYZ".to_vec());
    assert_eq!(loaded.get(b"read2").unwrap().cb, b"QQ".to_vec());
    assert!(loaded.get(b"read2").unwrap().umi.is_none());
}

#[test]
fn cache_encoding_layout() {
    let mut map = QualityMap::new();
    assert!(map.insert(b"r".to_vec(), BqQuals { cb: b"Q".to_vec(), umi: None }));
    let bytes = write_bq_cache(&map);
    let mut expected: Vec<u8> = Vec::new();
    expected.extend_from_slice(b"TBQMAP01");
    expected.extend_from_slice(&1u64.to_le_bytes());
    expected.extend_from_slice(&1u64.to_le_bytes());
    expected.push(b'r');
    expected.extend_from_slice(&1u64.to_le_bytes());
    expected.push(b'Q');
    expected.push(0);
    assert_eq!(bytes, expected);
}

#[test]
fn cache_rejects_bad_magic() {
    let map = sample_map();
    let mut bytes = write_bq_cache(&map);
    bytes[0] = b'X';
    assert_eq!(read_bq_cache(&bytes), Err(CacheError::BadMagic));
}

#[test]
fn cache_rejects_truncation() {
    assert_eq!(read_bq_cache(b""), Err(CacheError::Truncated));
    assert_eq!(read_bq_cache(b"TBQMA"), Err(CacheError::Truncated));
    let map = sample_map();
    let bytes = write_bq_cache(&map);
    assert_eq!(read_bq_cache(&bytes[..bytes.len() - 1]), Err(CacheError::Truncated));
    assert_eq!(read_bq_cache(&bytes[..20]), Err(CacheError::Truncated));
}

#[test]
fn cache_rejects_non_utf8_name() {
    let mut bytes: Vec<u8> = Vec::new();
    bytes.extend_from_slice(b"TBQMAP01");
    write_u64(&mut bytes, 1);
    write_bytes(&mut bytes, &[0xFF, 0xFE]);
    write_bytes(&mut bytes, b"Q");
    write_u8(&mut bytes, 0);
    assert_eq!(read_bq_cache(&bytes), Err(CacheError::NameNotUtf8));
}

#[test]
fn cache_rejects_trailing_bytes() {
    // A count that under-promises the content is a fatal mismatch: the
    // promised entries must use the stream up exactly.
    let map = sample_map();
    let mut bytes = write_bq_cache(&map);
    bytes.push(0);
    assert_eq!(read_bq_cache(&bytes), Err(CacheError::TrailingBytes));

    let mut short: Vec<u8> = Vec::new();
    short.extend_from_slice(b"TBQMAP01");
    write_u64(&mut short, 0);
    short.push(7);
    assert_eq!(read_bq_cache(&short), Err(CacheError::TrailingBytes));
}

#[test]
fn cache_overlong_count_is_truncation() {
    let mut bytes: Vec<u8> = Vec::new();
    bytes.extend_from_slice(b"TBQMAP01");
    write_u64(&mut bytes, 5);
    write_bytes(&mut bytes, b"r");
    write_bytes(&mut bytes, b"Q");
    write_u8(&mut bytes, 0);
    assert_eq!(read_bq_cache(&bytes), Err(CacheError::Truncated));
}

#[test]
fn primitive_fields_roundtrip() {
    let mut out: Vec<u8> = Vec::new();
    write_u64(&mut out, 0x0102030405060708);
    write_u8(&mut out, 9);
    write_bytes(&mut out, b"hello");

    let mut pos: usize = 0;
    assert_eq!(read_u64(&out, &mut pos), Ok(0x0102030405060708));
    assert_eq!(read_u8(&out, &mut pos), Ok(9));
    assert_eq!(read_bytes(&out, &mut pos), Ok(b"hello".to_vec()));
    assert_eq!(pos, out.len());

    let mut short_pos: usize = 0;
    assert_eq!(read_u64(&out[..4], &mut short_pos), Err(CacheError::Truncated));
}

#[test]
fn u64_little_endian_layout() {
    let mut out: Vec<u8> = Vec::new();
    write_u64(&mut out, 0x0102030405060708);
    assert_eq!(out, vec![8, 7, 6, 5, 4, 3, 2, 1]);
}

#[test]
fn insert_replaces_existing_entry() {
    let mut map = QualityMap::new();
    assert!(map.insert(b"r".to_vec(), BqQuals { cb: b"A".to_vec(), umi: None }));
    assert!(map.insert(b"r".to_vec(), BqQuals { cb: b"B".to_vec(), umi: None }));
    assert_eq!(map.len(), 1);
    assert_eq!(map.get(b"r").unwrap().cb, b"B".to_vec());
    assert!(!map.insert(vec![0xFF], BqQuals { cb: b"C".to_vec(), umi: None }));
    assert_eq!(map.len(), 1);
}
