use lindera_dictionary::builder::connection_cost_matrix::{
    build_costs, costs_to_bytes, fill_costs_parallel, fill_costs_sequential, has_utf16_bom,
    next_int, parse_chunk, parse_data_line, strip_utf8_bom, ConnectionCostMatrixBuilder,
};
use lindera_dictionary::dictionary::connection_cost_matrix::ConnectionCostMatrix;
use lindera_dictionary::dictionary::context_id_map::ContextIdMap;
use lindera_dictionary::error::LinderaErrorKind;

/// Reference parser: split on whitespace and parse each field.
fn reference_costs(matrix: &str) -> Vec<i16> {
    let mut lines = Vec::new();
    for line in matrix.lines() {
        let fields: Vec<i32> = line
            .split_whitespace()
            .map(|f| f.parse::<i32>().unwrap())
            .collect();
        lines.push(fields);
    }
    let mut lines_it = lines.into_iter();
    let header = lines_it.next().unwrap();
    let forward_size = header[0] as u32;
    let backward_size = header[1] as u32;
    let len = 3 + (forward_size * backward_size) as usize;
    let mut costs = vec![i16::MAX; len];
    costs[0] = -1;
    costs[1] = forward_size as i16;
    costs[2] = backward_size as i16;
    for fields in lines_it {
        if fields.is_empty() {
            continue;
        }
        let forward_id = fields[0] as u32;
        let backward_id = fields[1] as u32;
        let cost = fields[2] as u16;
        costs[3 + (forward_id + backward_id * forward_size) as usize] = cost as i16;
    }
    costs
}

/// Parses a matrix through the sequential path.
fn new_costs(matrix: &str) -> Vec<i16> {
    build_costs(matrix.as_bytes(), None).unwrap()
}

fn header_and_data(matrix: &str) -> (u32, u32, &[u8]) {
    let bytes = matrix.as_bytes();
    let header_end = bytes.iter().position(|&b| b == b'\n').unwrap();
    let mut pos = 0;
    let f = next_int(&bytes[..header_end], &mut pos).unwrap() as u32;
    let b = next_int(&bytes[..header_end], &mut pos).unwrap() as u32;
    (f, b, &bytes[header_end + 1..])
}

#[test]
fn test_matches_reference_simple() {
    let matrix = "2 2\n0 0 10\n0 1 20\n1 0 30\n1 1 40\n";
    assert_eq!(new_costs(matrix), reference_costs(matrix));
}

#[test]
fn test_matches_reference_sparse_and_negative() {
    let matrix = "3 2\n0  0  -1\n2 1 32767\n1 0 -32768\n";
    let new = new_costs(matrix);
    let reference = reference_costs(matrix);
    assert_eq!(new, reference);
    assert_eq!(new[3], -1);
}

#[test]
fn test_no_trailing_newline() {
    let matrix = "1 1\n0 0 7";
    assert_eq!(new_costs(matrix), reference_costs(matrix));
}

#[test]
fn test_duplicate_last_occurrence_wins() {
    let matrix = "1 1\n0 0 5\n0 0 9\n";
    let costs = new_costs(matrix);
    assert_eq!(costs[3], 9);
    assert_eq!(costs, reference_costs(matrix));
}

#[test]
fn test_parallel_matches_sequential() {
    let forward = 200u32;
    let backward = 200u32;
    let mut matrix = format!("{forward} {backward}\n");
    for b in 0..backward {
        for f in 0..forward {
            let cost = ((f + b) % 100) as i32 - 50;
            matrix.push_str(&format!("{f} {b} {cost}\n"));
        }
    }
    let (_, _, data) = header_and_data(&matrix);
    let len = 3 + (forward as usize) * (backward as usize);

    let mut seq = vec![i16::MAX; len];
    seq[0] = -1;
    seq[1] = forward as i16;
    seq[2] = backward as i16;
    fill_costs_sequential(data, forward, &mut seq, None).unwrap();

    let mut par = vec![i16::MAX; len];
    par[0] = -1;
    par[1] = forward as i16;
    par[2] = backward as i16;
    fill_costs_parallel(data, forward, &mut par, None).unwrap();

    assert_eq!(seq, par);
    assert_eq!(seq, reference_costs(&matrix));
}

#[test]
fn test_missing_field_errors() {
    let matrix = "2 2\n0 0\n";
    let (_, _, data) = header_and_data(matrix);
    let mut costs = vec![i16::MAX; 3 + 4];
    assert!(fill_costs_sequential(data, 2, &mut costs, None).is_err());
}

#[test]
fn test_strip_utf8_bom() {
    let with_bom = [0xEF, 0xBB, 0xBF, b'1', b' ', b'1'];
    assert_eq!(strip_utf8_bom(&with_bom), b"1 1");
    assert_eq!(strip_utf8_bom(b"1 1"), b"1 1");
}

#[test]
fn next_int_skips_blanks_and_reads_signs() {
    let line = b" \t-12 34\r";
    let mut pos = 0;
    assert_eq!(next_int(line, &mut pos), Some(-12));
    assert_eq!(pos, 5);
    assert_eq!(next_int(line, &mut pos), Some(34));
    assert_eq!(next_int(line, &mut pos), None);
    let mut pos = 0;
    assert_eq!(next_int(b"-", &mut pos), None);
}

#[test]
fn parse_data_line_reports_each_outcome() {
    assert_eq!(parse_data_line(b"  ", 2, 7, None).unwrap(), None);
    assert_eq!(parse_data_line(b"1 1 -2", 2, 7, None).unwrap(), Some((6, -2)));
    let err = parse_data_line(b"1 1", 2, 7, None).unwrap_err();
    assert_eq!(err.kind, LinderaErrorKind::Content);
    assert!(parse_data_line(b"2 1 5", 2, 7, None).is_err());
    let remap = ContextIdMap { left: vec![1, 0], right: vec![1, 0] };
    assert_eq!(parse_data_line(b"0 0 5", 2, 7, Some(&remap)).unwrap(), Some((6, 5)));
    assert!(parse_data_line(b"2 0 5", 2, 7, Some(&remap)).is_err());
    let err = parse_data_line(b"abc", 2, 7, None).unwrap_err();
    assert_eq!(err.kind, LinderaErrorKind::Content);
    let err = parse_data_line(b" x 1 1", 2, 7, None).unwrap_err();
    assert_eq!(err.kind, LinderaErrorKind::Content);
}

#[test]
fn parse_chunk_lists_entries_in_order() {
    let entries = parse_chunk(b"0 0 1\n\n1 0 2\n", 2, 7, None).unwrap();
    assert_eq!(entries, vec![(3, 1), (4, 2)]);
}

#[test]
fn remapped_build_keeps_every_cost() {
    let matrix = "2 2\n0 0 10\n0 1 20\n1 0 30\n1 1 40\n";
    let remap = ContextIdMap { left: vec![1, 0], right: vec![1, 0] };
    let plain = build_costs(matrix.as_bytes(), None).unwrap();
    let remapped = build_costs(matrix.as_bytes(), Some(&remap)).unwrap();
    for f in 0..2usize {
        for b in 0..2usize {
            let nf = remap.right[f] as usize;
            let nb = remap.left[b] as usize;
            assert_eq!(remapped[3 + nf + nb * 2], plain[3 + f + b * 2]);
        }
    }
    let bad = ContextIdMap { left: vec![0], right: vec![0, 1] };
    assert!(build_costs(matrix.as_bytes(), Some(&bad)).is_err());
}

#[test]
fn utf16_bom_is_detected() {
    assert!(has_utf16_bom(&[0xFF, 0xFE, 0x31]));
    assert!(has_utf16_bom(&[0xFE, 0xFF]));
    assert!(!has_utf16_bom(&[0xEF, 0xBB, 0xBF]));
}

#[test]
fn builder_writes_little_endian_matrix() {
    let builder = ConnectionCostMatrixBuilder::new("UTF-8".to_string(), None);
    let bytes = builder.build(b"\xEF\xBB\xBF1 2\n0 0 7\n0 1 -1\n").unwrap();
    assert_eq!(bytes, vec![0xff, 0xff, 1, 0, 2, 0, 7, 0, 0xff, 0xff]);
    let bad = ConnectionCostMatrixBuilder::new("no-such-encoding".to_string(), None);
    assert_eq!(bad.build(b"1 1\n").unwrap_err().kind, LinderaErrorKind::Decode);
    let missing = builder.build(b"\n").unwrap_err();
    assert_eq!(missing.kind, LinderaErrorKind::Content);
}

#[test]
fn builder_decodes_utf16() {
    let text = "1 1\n0 0 3\n";
    let mut bytes = vec![0xFF, 0xFE];
    for u in text.encode_utf16() {
        bytes.extend_from_slice(&u.to_le_bytes());
    }
    let builder = ConnectionCostMatrixBuilder::new("UTF-8".to_string(), None);
    assert_eq!(builder.build(&bytes).unwrap(), vec![0xff, 0xff, 1, 0, 1, 0, 3, 0]);
}

const TRANSPOSED: [u8; 18] = [
    0xff, 0xff, 0x02, 0x00, 0x03, 0x00, 0x0a, 0x00, 0x0b, 0x00, 0x0c, 0x00, 0x0d, 0x00, 0x0e,
    0x00, 0x0f, 0x00,
];

fn assert_sample_costs(matrix: &ConnectionCostMatrix) {
    assert_eq!(matrix.forward_size, 2);
    assert_eq!(matrix.backward_size, 3);
    assert_eq!(matrix.cost(0, 0), 10);
    assert_eq!(matrix.cost(1, 0), 11);
    assert_eq!(matrix.cost(0, 1), 12);
    assert_eq!(matrix.cost(1, 1), 13);
    assert_eq!(matrix.cost(0, 2), 14);
    assert_eq!(matrix.cost(1, 2), 15);
    assert_eq!(matrix.row(0), &[10, 11]);
    assert_eq!(matrix.row(1), &[12, 13]);
    assert_eq!(matrix.row(2), &[14, 15]);
}

#[test]
fn test_load_transposed() {
    let matrix = ConnectionCostMatrix::load(&TRANSPOSED).unwrap();
    assert_sample_costs(&matrix);
}

#[test]
fn test_load_old_format() {
    let mut data = Vec::new();
    data.extend_from_slice(&2i16.to_le_bytes());
    data.extend_from_slice(&3i16.to_le_bytes());
    for v in [10i16, 12, 14, 11, 13, 15] {
        data.extend_from_slice(&v.to_le_bytes());
    }
    let matrix = ConnectionCostMatrix::load(&data).unwrap();
    assert_sample_costs(&matrix);
}

#[test]
fn test_load_data_too_short() {
    let data: Vec<u8> = vec![0x01, 0x02];
    let result = ConnectionCostMatrix::load(&data);
    assert!(result.is_err());
}

#[test]
fn transposed_bytes_match_the_const() {
    let mut expected = Vec::new();
    for v in [-1i16, 2, 3, 10, 11, 12, 13, 14, 15] {
        expected.extend_from_slice(&v.to_le_bytes());
    }
    assert_eq!(TRANSPOSED.as_slice(), expected.as_slice());
    assert_eq!(costs_to_bytes(&[-1, 2, 3, 10, 11, 12, 13, 14, 15]), expected);
}

#[test]
fn rejects_axes_larger_than_payload() {
    let mut data = Vec::new();
    for v in [-1i16, 100, 100, 0] {
        data.extend_from_slice(&v.to_le_bytes());
    }
    let result = ConnectionCostMatrix::load(&data);
    assert_eq!(result.err().unwrap().kind, LinderaErrorKind::Deserialize);
}

#[test]
fn odd_length_payload_does_not_panic() {
    let mut data = TRANSPOSED.to_vec();
    data.push(0);
    let matrix = ConnectionCostMatrix::load(&data).unwrap();
    assert_sample_costs(&matrix);
}

#[test]
fn degenerate_single_cell_matrix_is_borrowable() {
    let matrix = ConnectionCostMatrix::load(&[0xff, 0xff, 0x01, 0x00, 0x01, 0x00, 0x07, 0x00]).unwrap();
    assert_eq!(matrix.cost(0, 0), 7);
}

#[test]
fn built_matrix_reads_back() {
    let matrix_def = "2 3\n0 0 10\n1 0 11\n0 1 12\n1 1 13\n0 2 14\n1 2 15\n";
    let builder = ConnectionCostMatrixBuilder::new("UTF-8".to_string(), None);
    let bytes = builder.build(matrix_def.as_bytes()).unwrap();
    let matrix = ConnectionCostMatrix::load(&bytes).unwrap();
    assert_sample_costs(&matrix);
    assert_eq!(matrix.costs(), &[10, 11, 12, 13, 14, 15]);
}

#[test]
fn validate_axes_checks_the_payload() {
    assert!(ConnectionCostMatrix::validate_axes(2, 3, 6).is_ok());
    assert!(ConnectionCostMatrix::validate_axes(2, 3, 5).is_err());
}
