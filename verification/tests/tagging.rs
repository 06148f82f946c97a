use rust_htslib::bam::record::Aux;
use rust_htslib::bam::Record;
use tagbam::loader::load_bq_map;
use tagbam::tagger::{
    check_output_config, process_record, temp_file_name, Outcome, QualitySource, RunCounters,
};

fn make_record(name: &str) -> Record {
    let mut rec = Record::new();
    rec.set(name.as_bytes(), None, b"ACGT", b"IIII");
    rec
}

fn get_tag_string(record: &Record, tag: &[u8; 2]) -> Option<String> {
    match record.aux(tag) {
        Ok(Aux::String(s)) => Some(s.to_string()),
        _ => None,
    }
}

#[test]
fn basic_tagging() {
    let read_name = "2efc6b85-aa0d-4c1d-ab33-bf5f442fe47c_TTGGCTCC-GGTCGGCG-ACTTGA_GAAGCAGT";
    let mut rec = make_record(read_name);
    let mut counters = RunCounters::new();

    let outcome = process_record(&mut rec, &QualitySource::Synthetic, &mut counters, false);
    assert!(matches!(outcome, Ok(Outcome::Tagged)));

    assert_eq!(
        get_tag_string(&rec, b"CB"),
        Some("TTGGCTCCGGTCGGCGACTTGA".to_string()),
        "Cell barcode should be i7+i5+CBC concatenated"
    );
    assert_eq!(
        get_tag_string(&rec, b"CY"),
        Some("IIIIIIIIIIIIIIIIIIIIII".to_string()),
        "Cell barcode quality should be 22 'I's"
    );
    assert_eq!(
        get_tag_string(&rec, b"UB"),
        Some("GAAGCAGT".to_string()),
        "UMI should be extracted"
    );
    assert_eq!(
        get_tag_string(&rec, b"UY"),
        Some("IIIIIIII".to_string()),
        "UMI quality should be 8 'I's"
    );
    assert_eq!(counters.total, 1);
    assert_eq!(counters.tagged, 1);
    assert_eq!(counters.skipped, 0);
}

#[test]
fn multiple_reads() {
    let read_names = [
        "uuid1_AAA-BBB-CCC_UUU",
        "uuid2_AAAAAAAA-BBBBBBBB-CCCCCCCC_UUUUUUUU",
        "uuid3_A-B-C_U",
    ];
    let mut records: Vec<Record> = read_names.iter().map(|n| make_record(n)).collect();
    let mut counters = RunCounters::new();
    for rec in records.iter_mut() {
        let outcome = process_record(rec, &QualitySource::Synthetic, &mut counters, false);
        assert!(outcome.is_ok());
    }
    assert_eq!(records.len(), 3, "All three records should be present");
    assert_eq!(counters.total, 3);

    let rec1 = &records[0];
    assert_eq!(get_tag_string(rec1, b"CB"), Some("AAABBBCCC".to_string()));
    assert_eq!(get_tag_string(rec1, b"CY"), Some("IIIIIIIII".to_string()));
    assert_eq!(get_tag_string(rec1, b"UB"), Some("UUU".to_string()));
    assert_eq!(get_tag_string(rec1, b"UY"), Some("III".to_string()));

    let rec2 = &records[1];
    assert_eq!(
        get_tag_string(rec2, b"CB"),
        Some("AAAAAAAABBBBBBBBCCCCCCCC".to_string())
    );
    assert_eq!(get_tag_string(rec2, b"UB"), Some("UUUUUUUU".to_string()));

    let rec3 = &records[2];
    assert_eq!(get_tag_string(rec3, b"CB"), Some("ABC".to_string()));
    assert_eq!(get_tag_string(rec3, b"CY"), Some("III".to_string()));
    assert_eq!(get_tag_string(rec3, b"UB"), Some("U".to_string()));
    assert_eq!(get_tag_string(rec3, b"UY"), Some("I".to_string()));
}

#[test]
fn invalid_read_name_errors() {
    let mut rec = make_record("invalid_name_without_proper_format");
    let mut counters = RunCounters::new();
    let outcome = process_record(&mut rec, &QualitySource::Synthetic, &mut counters, false);
    assert!(outcome.is_err());
    assert_eq!(get_tag_string(&rec, b"CB"), None);
}

#[test]
fn skip_unparseable_flag() {
    let read_names = [
        "uuid1_AAA-BBB-CCC_UUU", // valid
        "invalid_format",        // invalid
        "uuid2_DDD-EEE-FFF_VVV", // valid
    ];
    let mut records: Vec<Record> = read_names.iter().map(|n| make_record(n)).collect();
    let mut counters = RunCounters::new();
    for rec in records.iter_mut() {
        let outcome = process_record(rec, &QualitySource::Synthetic, &mut counters, true);
        assert!(outcome.is_ok());
    }
    assert_eq!(records.len(), 3, "All three records should be present");

    let rec1 = &records[0];
    assert_eq!(get_tag_string(rec1, b"CB"), Some("AAABBBCCC".to_string()));

    let rec2 = &records[1];
    assert_eq!(get_tag_string(rec2, b"CB"), None);

    let rec3 = &records[2];
    assert_eq!(get_tag_string(rec3, b"CB"), Some("DDDEEEFFF".to_string()));

    assert_eq!(counters.tagged, 2);
    assert_eq!(counters.skipped, 1);
}

#[test]
fn fastq_bq_overrides_barcode_qualities() {
    let read_name = "uuid1_AAA-BBB-CCC_UUU";
    let lines: Vec<Vec<u8>> = vec![
        format!(
            "@{read_name} cell|Barcodes:i7:AAA;i5:BBB;CBC:CCC|UMI:UUU|orientation:+|BQ:i7:123;i5:456;CBC:789;UMI:XYZ"
        )
        .into_bytes(),
        b"AAAAAAAAA".to_vec(),
        b"+".to_vec(),
        b"IIIIIIIII".to_vec(),
    ];
    let map = load_bq_map(&lines).unwrap();
    let source = QualitySource::Mapped(map);

    let mut rec = make_record(read_name);
    let mut counters = RunCounters::new();
    let outcome = process_record(&mut rec, &source, &mut counters, false);
    assert!(outcome.is_ok());

    assert_eq!(get_tag_string(&rec, b"CY"), Some("123456789".to_string()));
    assert_eq!(get_tag_string(&rec, b"UY"), Some("XYZ".to_string()));
}

#[test]
fn mapped_source_synthesizes_for_unknown_names() {
    let lines: Vec<Vec<u8>> = vec![
        b"@other_read|BQ:i7:1;i5:2;CBC:3".to_vec(),
        b"A".to_vec(),
        b"+".to_vec(),
        b"I".to_vec(),
    ];
    let map = load_bq_map(&lines).unwrap();
    let source = QualitySource::Mapped(map);

    let mut rec = make_record("uuid_AAA-BBB-CCC_UUU");
    let mut counters = RunCounters::new();
    assert!(process_record(&mut rec, &source, &mut counters, false).is_ok());
    assert_eq!(get_tag_string(&rec, b"CY"), Some("IIIIIIIII".to_string()));
    assert_eq!(get_tag_string(&rec, b"UY"), Some("III".to_string()));
}

#[test]
fn skip_reads_with_existing_tags() {
    let read_name = "uuid_AAA-BBB-CCC_UUU";
    let mut rec = make_record(read_name);
    rec.push_aux(b"CB", Aux::String("EXISTING")).unwrap();

    let mut counters = RunCounters::new();
    let outcome = process_record(&mut rec, &QualitySource::Synthetic, &mut counters, false);
    assert!(matches!(outcome, Ok(Outcome::SkippedPreTagged)));

    assert_eq!(
        get_tag_string(&rec, b"CB"),
        Some("EXISTING".to_string()),
        "Existing CB tag should be preserved"
    );
    assert_eq!(get_tag_string(&rec, b"UB"), None);
    assert_eq!(counters.skipped, 1);
    assert_eq!(counters.tagged, 0);
}

#[test]
fn in_place_mode() {
    // The record's annotations come out the same whether the output is a
    // named file or the hidden temporary that an in-place run renames over
    // its input; the temporary lives beside the input, under a dotted name.
    let read_name = "uuid_AAA-BBB-CCC_UUU";
    let mut rec = make_record(read_name);
    let mut counters = RunCounters::new();
    assert!(process_record(&mut rec, &QualitySource::Synthetic, &mut counters, false).is_ok());

    assert_eq!(get_tag_string(&rec, b"CB"), Some("AAABBBCCC".to_string()));
    assert_eq!(get_tag_string(&rec, b"UB"), Some("UUU".to_string()));

    assert_eq!(temp_file_name(b"test.bam"), b".test.bam.tmp".to_vec());
    assert!(check_output_config(false, true).is_ok());
}

#[test]
fn requires_output_or_in_place() {
    assert!(check_output_config(false, false).is_err());
    assert!(check_output_config(true, true).is_err());
    assert!(check_output_config(true, false).is_ok());
    assert!(check_output_config(false, true).is_ok());
}

#[test]
fn empty_record_name_is_undecodable() {
    // A freshly constructed record has no name yet; its empty name does not
    // follow the grammar, and processing it must not crash.
    let mut rec = Record::new();
    let mut counters = RunCounters::new();
    let outcome = process_record(&mut rec, &QualitySource::Synthetic, &mut counters, false);
    assert!(outcome.is_err());
    assert_eq!(counters.total, 1);
}

#[test]
fn non_text_read_name_is_fatal() {
    let mut rec = Record::new();
    rec.set(&[0xFF, 0xFE], None, b"AC", b"II");
    let mut counters = RunCounters::new();
    // A name that is not text ends the run even when undecodable names are
    // tolerated.
    let outcome = process_record(&mut rec, &QualitySource::Synthetic, &mut counters, true);
    assert!(outcome.is_err());
}
