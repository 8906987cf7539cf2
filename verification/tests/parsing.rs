use count_fasta::fasta::{emit_fasta, parse_fasta};
use count_fasta::records::Record;

#[test]
fn header_and_content_split() {
    let data = b">seq one extra  \nACGT\n".to_vec();
    let records = parse_fasta(&data);
    assert_eq!(records.len(), 1);
    assert_eq!(records[0].id, b"seq one extra  ".to_vec());
    assert_eq!(records[0].content, b"ACGT".to_vec());
}

#[test]
fn crlf_line_endings_are_stripped() {
    let data = b">x\r\nAC\r\nGT\r\n".to_vec();
    let records = parse_fasta(&data);
    assert_eq!(records.len(), 1);
    assert_eq!(records[0].id, b"x".to_vec());
    assert_eq!(records[0].content, b"ACGT".to_vec());
}

#[test]
fn bytes_before_first_header_are_discarded() {
    let data = b"junk line\nmore junk\n>x\nA\n".to_vec();
    let records = parse_fasta(&data);
    assert_eq!(records.len(), 1);
    assert_eq!(records[0].id, b"x".to_vec());
    assert_eq!(records[0].content, b"A".to_vec());
}

#[test]
fn consecutive_headers_give_empty_records() {
    let data = b">\n>x\nAA\n".to_vec();
    let records = parse_fasta(&data);
    assert_eq!(records.len(), 2);
    assert_eq!(records[0].id, b"".to_vec());
    assert_eq!(records[0].content, b"".to_vec());
    assert_eq!(records[1].id, b"x".to_vec());
    assert_eq!(records[1].content, b"AA".to_vec());
}

#[test]
fn no_headers_no_records() {
    let data = b"ACGT\nACGT\n".to_vec();
    let records = parse_fasta(&data);
    assert_eq!(records.len(), 0);
}

#[test]
fn last_line_without_newline_counts() {
    let data = b">x\nACGT".to_vec();
    let records = parse_fasta(&data);
    assert_eq!(records.len(), 1);
    assert_eq!(records[0].content, b"ACGT".to_vec());
}

#[test]
fn non_ascii_content_is_preserved() {
    let data = b">x\nAC\xc3\xa9GT\n".to_vec();
    let records = parse_fasta(&data);
    assert_eq!(records.len(), 1);
    assert_eq!(records[0].content, b"AC\xc3\xa9GT".to_vec());
}

#[test]
fn emit_produces_canonical_fasta() {
    let records = vec![
        Record { id: b"a".to_vec(), content: b"ACGT".to_vec() },
        Record { id: b"b two".to_vec(), content: b"NN".to_vec() },
    ];
    let out = emit_fasta(&records);
    assert_eq!(out, b">a\nACGT\n>b two\nNN\n".to_vec());
}

#[test]
fn emit_then_parse_round_trips() {
    let records = vec![
        Record { id: b"a".to_vec(), content: b"ACGT".to_vec() },
        Record { id: b"".to_vec(), content: b"".to_vec() },
        Record { id: b"c desc".to_vec(), content: b"nNgGcC".to_vec() },
    ];
    let out = emit_fasta(&records);
    let reparsed = parse_fasta(&out);
    assert_eq!(reparsed.len(), records.len());
    for i in 0..records.len() {
        assert_eq!(reparsed[i].id, records[i].id);
        assert_eq!(reparsed[i].content, records[i].content);
    }
}

#[test]
fn round_trip_keeps_internal_carriage_returns() {
    let records = vec![Record { id: b"a\rb".to_vec(), content: b"x\ry".to_vec() }];
    let out = emit_fasta(&records);
    let reparsed = parse_fasta(&out);
    assert_eq!(reparsed.len(), 1);
    assert_eq!(reparsed[0].id, b"a\rb".to_vec());
    assert_eq!(reparsed[0].content, b"x\ry".to_vec());
}

#[test]
fn parse_then_emit_then_parse_round_trips() {
    let data = b">s1\nAC\nGT\n>s2\nNNNN\n".to_vec();
    let records = parse_fasta(&data);
    let out = emit_fasta(&records);
    let reparsed = parse_fasta(&out);
    assert_eq!(reparsed.len(), records.len());
    for i in 0..records.len() {
        assert_eq!(reparsed[i].id, records[i].id);
        assert_eq!(reparsed[i].content, records[i].content);
    }
}
