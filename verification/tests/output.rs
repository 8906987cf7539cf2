use count_fasta::csv::{csv_append_content, csv_header_line, csv_row};
use count_fasta::fasta::parse_fasta;
use count_fasta::numfmt::{format_fixed2, u128_to_string, usize_to_string};
use count_fasta::report::format_report;
use count_fasta::stats::analyze_sequences;

#[test]
fn decimal_rendering() {
    assert_eq!(usize_to_string(0), "0");
    assert_eq!(usize_to_string(7), "7");
    assert_eq!(usize_to_string(100), "100");
    assert_eq!(usize_to_string(98765), "98765");
    assert_eq!(u128_to_string(340282366920938463463374607431768211455), "340282366920938463463374607431768211455");
}

#[test]
fn two_decimal_rendering() {
    assert_eq!(format_fixed2(8, 2), "4.00");
    assert_eq!(format_fixed2(200, 8), "25.00");
    assert_eq!(format_fixed2(400, 8), "50.00");
    assert_eq!(format_fixed2(100, 3), "33.33");
    assert_eq!(format_fixed2(200, 3), "66.67");
    assert_eq!(format_fixed2(1, 1000), "0.00");
    assert_eq!(format_fixed2(5, 1000), "0.01");
    assert_eq!(format_fixed2(5, 0), "0.00");
}

#[test]
fn report_text_is_exact() {
    let data = b">s1\nACGT\n>s2\nNNNN\n".to_vec();
    let records = parse_fasta(&data);
    let r = analyze_sequences(&records, 100);
    let report = format_report(&r, 100);
    let expected = "\nTotal length of sequence:\t8 bp\n\
Total number of sequences:\t2\n\
Average contig length is:\t4 bp\n\
Largest contig:\t\t4 bp\n\
Shortest contig:\t\t4 bp\n\
N25 stats:\t\t\t25% of total sequence length is contained in the sequences >= 4 bp\n\
N50 stats:\t\t\t50% of total sequence length is contained in the sequences >= 4 bp\n\
N75 stats:\t\t\t75% of total sequence length is contained in the sequences >= 4 bp\n\
Total GC count:\t\t\t2 bp\n\
GC %:\t\t\t\t25.00 %\n\
Number of Ns:\t\t\t4\n\
Ns %:\t\t\t\t50.00 %\n\
\nLength histogram:\n\
0:99\t2\n";
    assert_eq!(report, expected);
}

#[test]
fn report_histogram_lines_ascend() {
    let data = b">a\nAAAAAAAAAA\n>b\nCCCCC\n>c\nG\n".to_vec();
    let records = parse_fasta(&data);
    let r = analyze_sequences(&records, 5);
    let report = format_report(&r, 5);
    assert!(report.ends_with("\nLength histogram:\n0:4\t1\n5:9\t1\n10:14\t1\n"));
}

#[test]
fn csv_row_fields_and_quoting() {
    let data = b">s1\nACGT\n>s2\nNNNN\n".to_vec();
    let records = parse_fasta(&data);
    let mut r = analyze_sequences(&records, 100);
    r.filenames = vec!["a.fa".to_string(), "b.fa".to_string()];
    let row = csv_row(&r);
    assert_eq!(row, "\"a.fa+b.fa\";8;2;4.00;4;4;2;25.00;4;50.00\n");
}

#[test]
fn csv_append_writes_header_once() {
    let data = b">s1\nACGT\n>s2\nNNNN\n".to_vec();
    let records = parse_fasta(&data);
    let mut r = analyze_sequences(&records, 100);
    r.filenames = vec!["fresh.fa".to_string()];
    let header = csv_header_line();
    let row = csv_row(&r);

    // first run: the file does not exist yet
    let first = csv_append_content(&r, false);
    assert_eq!(first, format!("{}{}", header, row));
    assert!(first.starts_with("filenames;total_length;"));

    // second run: the file exists, only the row is appended
    let second = csv_append_content(&r, true);
    assert_eq!(second, row);
    assert_eq!(second.matches("filenames;").count(), 0);
    assert!(second.starts_with("\"fresh.fa\";"));
}
