use lindera_dictionary::compress::compress;
use lindera_dictionary::decompress::{decompress, Algorithm, CompressedData};
use lindera_dictionary::dictionary::metadata::{legacy_format_version, Metadata, DICTIONARY_FORMAT_VERSION};
use lindera_dictionary::dictionary::schema::Schema;
use lindera_dictionary::error::LinderaErrorKind;
use lindera_dictionary::get_version;
use lindera_dictionary::mode::{Mode, Penalty};
use lindera_dictionary::viterbi::Edge;

#[test]
fn compress_decompress() {
    let mut buf = Vec::new();
    let mut x: u32 = 12345;
    for _i in 0..10000 {
        x = x.wrapping_mul(1103515245).wrapping_add(12345);
        buf.push((x >> 16) as u8);
    }
    for _i in 0..10000 {
        buf.push(0)
    }
    for algorithm in Algorithm::variants() {
        let compress_data = compress(&buf, algorithm).unwrap();
        let data = decompress(compress_data).unwrap();
        assert_eq!(&buf, &data);
    }
}

#[test]
fn algorithm_names_round_trip() {
    for a in Algorithm::variants() {
        assert_eq!(Algorithm::from_name(a.as_str()).unwrap(), a);
        assert_eq!(a.as_str().parse::<Algorithm>().unwrap(), a);
    }
    assert_eq!(Algorithm::from_name("lz4").unwrap_err().kind, LinderaErrorKind::Algorithm);
    let raw = decompress(CompressedData::new(Algorithm::Raw, vec![1, 2, 3])).unwrap();
    assert_eq!(raw, vec![1, 2, 3]);
    let bad = decompress(CompressedData::new(Algorithm::Gzip, vec![1, 2, 3])).unwrap_err();
    assert_eq!(bad.kind, LinderaErrorKind::Decompress);
}

#[test]
fn penalties_of_long_words() {
    let p = Penalty::default();
    assert_eq!(p.penalty(&Edge { char_count: 2, kanji_only: true }), 0);
    assert_eq!(p.penalty(&Edge { char_count: 4, kanji_only: true }), 6000);
    assert_eq!(p.penalty(&Edge { char_count: 7, kanji_only: false }), 0);
    assert_eq!(p.penalty(&Edge { char_count: 9, kanji_only: false }), 3400);
    let m = Mode::Decompose(p);
    assert!(m.is_search());
    assert!(!Mode::Normal.is_search());
    assert_eq!(m.penalty_cost(&Edge { char_count: 4, kanji_only: true }), 6000);
    assert_eq!(Mode::Normal.penalty_cost(&Edge { char_count: 40, kanji_only: true }), 0);
    assert_eq!(m.as_str(), "decompose");
    assert_eq!("normal".parse::<Mode>().unwrap(), Mode::Normal);
    assert_eq!(Mode::from_name("decompose").unwrap(), Mode::Decompose(Penalty::default()));
    assert_eq!(Mode::from_name("fast").unwrap_err().kind, LinderaErrorKind::Mode);
}

#[test]
fn legacy_version_is_the_first_format_version() {
    assert_eq!(legacy_format_version(), 1);
}

#[test]
fn test_metadata_default() {
    let metadata = Metadata::default();
    assert_eq!(metadata.name, "default");
    assert_eq!(metadata.encoding, "UTF-8");
    assert_eq!(metadata.default_word_cost, -10000);
    assert_eq!(metadata.dictionary_schema.fields.len(), 13);
    assert_eq!(metadata.user_dictionary_schema.fields.len(), 3);
}

#[test]
fn validate_format_version_accepts_the_current_version() {
    let metadata = Metadata::default();
    assert_eq!(metadata.format_version, DICTIONARY_FORMAT_VERSION);
    assert!(metadata.validate_format_version().is_ok());
}

#[test]
fn validate_format_version_rejects_an_older_dictionary() {
    let mut metadata = Metadata::default();
    metadata.name = "ipadic".to_string();
    metadata.format_version = 0;
    let err = metadata.validate_format_version().unwrap_err();
    assert_eq!(err.kind, LinderaErrorKind::Deserialize);
    assert!(err.source.contains("ipadic"), "{}", err.source);
    assert!(err.source.contains("lindera build"), "{}", err.source);
}

#[test]
fn validate_format_version_rejects_a_newer_dictionary() {
    let mut metadata = Metadata::default();
    metadata.format_version = DICTIONARY_FORMAT_VERSION + 1;
    let err = metadata.validate_format_version().unwrap_err();
    assert!(err.source.contains("upgrade Lindera"), "{}", err.source);
}

#[test]
fn test_metadata_new() {
    let metadata = Metadata::new(
        "TestDict".to_string(),
        "UTF-8".to_string(),
        -5000,
        100,
        200,
        "*".to_string(),
        true,
        false,
        true,
        Schema::default(),
        Schema::default(),
    );
    assert_eq!(metadata.name, "TestDict");
    assert_eq!(metadata.default_word_cost, -5000);
    assert_eq!(metadata.default_left_context_id, 100);
    assert_eq!(metadata.default_right_context_id, 200);
    assert!(metadata.flexible_csv);
    assert!(metadata.normalize_details);
}

#[test]
fn version_and_errors() {
    assert_eq!(get_version(), "0.1.0");
    let e = LinderaErrorKind::Io.with_error("x".to_string()).add_context("y".to_string());
    assert_eq!(e.kind(), LinderaErrorKind::Io);
    assert_eq!(e.context, vec!["y".to_string()]);
}

