use lindera_dictionary::util::{
    detail_field_count, joined_details_at, packed_details_iter, words_idx_offset, DetailFields,
};

fn packed(entries: &[&[&str]]) -> (Vec<u8>, Vec<usize>) {
    let mut data = Vec::new();
    let mut offsets = Vec::new();
    for fields in entries {
        offsets.push(data.len());
        let joined = fields.join("\0");
        data.extend_from_slice(&(joined.len() as u32).to_le_bytes());
        data.extend_from_slice(joined.as_bytes());
    }
    (data, offsets)
}

#[test]
fn joined_details_at_reads_the_declared_length() {
    let (data, offsets) = packed(&[&["名詞", "一般"], &["動詞", "自立", "*"]]);
    assert_eq!(joined_details_at(&data, offsets[0]), Some("名詞\0一般"));
    assert_eq!(joined_details_at(&data, offsets[1]), Some("動詞\0自立\0*"));
}

#[test]
fn joined_details_at_rejects_out_of_range_offsets_and_lengths() {
    let (mut data, offsets) = packed(&[&["名詞", "一般"]]);
    assert_eq!(joined_details_at(&data, data.len()), None);
    assert_eq!(joined_details_at(&data, data.len() - 2), None);
    assert_eq!(joined_details_at(&data, usize::MAX), None);
    let past_end = (data.len() + 1) as u32;
    data[offsets[0]..offsets[0] + 4].copy_from_slice(&past_end.to_le_bytes());
    assert_eq!(joined_details_at(&data, offsets[0]), None);
    data[offsets[0]..offsets[0] + 4].copy_from_slice(&u32::MAX.to_le_bytes());
    assert_eq!(joined_details_at(&data, offsets[0]), None);
}

#[test]
fn joined_details_at_rejects_invalid_utf8() {
    let (mut data, offsets) = packed(&[&["ok", "fields"]]);
    let last = data.len() - 1;
    data[last] = 0xff;
    assert_eq!(joined_details_at(&data, offsets[0]), None);
}

#[test]
fn words_idx_offset_reads_and_bounds_checks() {
    let table: Vec<u8> = [7u32, 42u32].iter().flat_map(|v| v.to_le_bytes()).collect();
    assert_eq!(words_idx_offset(&table, 0), Some(7));
    assert_eq!(words_idx_offset(&table, 1), Some(42));
    assert_eq!(words_idx_offset(&table, 2), None);
    assert_eq!(words_idx_offset(&table, usize::MAX), None);
    assert_eq!(words_idx_offset(&table, usize::MAX / 4), None);
}

#[test]
fn detail_field_count_matches_split() {
    for blob in [
        &b""[..],
        &b"a"[..],
        &b"a\0b"[..],
        &b"\0"[..],
        &b"\0\0"[..],
        &b"a\0\0b"[..],
        &b"NOUN\0general\0*\0*\0*\0*\0base\0reading\0pron"[..],
    ] {
        assert_eq!(detail_field_count(blob), blob.split(|&b| b == 0).count(), "blob {blob:?}");
    }
}

#[test]
fn detail_field_count_is_never_zero() {
    assert_eq!(detail_field_count(b""), 1);
}

#[test]
fn detail_field_count_ipadic_shape() {
    let blob = b"\xe5\x90\x8d\xe8\xa9\x9e\0*\0*\0*\0*\0*\0a\0b\0c";
    assert_eq!(detail_field_count(blob), 9);
}

#[test]
fn detail_fields_constructors() {
    assert_eq!(DetailFields::empty().collect_vec(), Vec::<String>::new());
    assert_eq!(DetailFields::empty().len(), 0);
    assert_eq!(DetailFields::unk().collect_vec(), vec!["UNK".to_string()]);
    assert_eq!(DetailFields::unk().len(), 1);
}

#[test]
fn detail_fields_hand_out_fields_in_order() {
    let mut fields = DetailFields::from_joined("a\0\0b");
    assert_eq!(fields.len(), 3);
    assert_eq!(fields.next(), Some("a".to_string()));
    assert_eq!(fields.next(), Some(String::new()));
    assert_eq!(fields.len(), 1);
    assert_eq!(fields.next(), Some("b".to_string()));
    assert_eq!(fields.next(), None);
    assert_eq!(DetailFields::from_joined("").collect_vec(), vec![String::new()]);
}

#[test]
fn packed_details_fall_back() {
    let (data, offsets) = packed(&[&["名詞", "一般"]]);
    let idx: Vec<u8> = (offsets[0] as u32).to_le_bytes().to_vec();
    assert_eq!(
        packed_details_iter(&idx, &data, 0, DetailFields::empty()).collect_vec(),
        vec!["名詞".to_string(), "一般".to_string()]
    );
    assert!(packed_details_iter(&idx, &data, 1, DetailFields::empty()).collect_vec().is_empty());
    let bad_idx: Vec<u8> = 1000u32.to_le_bytes().to_vec();
    assert_eq!(
        packed_details_iter(&bad_idx, &data, 0, DetailFields::empty()).collect_vec(),
        vec!["UNK".to_string()]
    );
}
