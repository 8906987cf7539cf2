use count_fasta::fasta::parse_fasta;
use count_fasta::stats::analyze_sequences;

#[test]
fn empty_input_yields_zero_counts() {
    let data: Vec<u8> = Vec::new();
    let records = parse_fasta(&data);
    assert_eq!(records.len(), 0);
    let r = analyze_sequences(&records, 100);
    assert_eq!(r.sequence_count, 0);
    assert_eq!(r.total_length, 0);
    assert_eq!(r.gc_count, 0);
    assert_eq!(r.n_count, 0);
    assert_eq!(r.n25, 0);
    assert_eq!(r.n50, 0);
    assert_eq!(r.n75, 0);
    assert_eq!(r.largest_contig, 0);
    assert_eq!(r.shortest_contig, usize::MAX);
    assert_eq!(r.length_histogram.len(), 0);
}

#[test]
fn two_records_basic_statistics() {
    let data = b">s1\nACGT\n>s2\nNNNN\n".to_vec();
    let records = parse_fasta(&data);
    let r = analyze_sequences(&records, 100);
    assert_eq!(r.total_length, 8);
    assert_eq!(r.sequence_count, 2);
    assert_eq!(r.gc_count, 2);
    assert_eq!(r.n_count, 4);
    assert_eq!(r.largest_contig, 4);
    assert_eq!(r.shortest_contig, 4);
    assert_eq!(r.n25, 4);
    assert_eq!(r.n50, 4);
    assert_eq!(r.n75, 4);
    assert_eq!(r.length_histogram, vec![(0, 2)]);
}

#[test]
fn three_records_quantiles_and_histogram() {
    let data = b">a\nAAAAAAAAAA\n>b\nCCCCC\n>c\nG\n".to_vec();
    let records = parse_fasta(&data);
    let r = analyze_sequences(&records, 5);
    assert_eq!(r.total_length, 16);
    assert_eq!(r.sequence_count, 3);
    assert_eq!(r.gc_count, 6);
    assert_eq!(r.n_count, 0);
    assert_eq!(r.largest_contig, 10);
    assert_eq!(r.shortest_contig, 1);
    assert_eq!(r.n25, 10);
    assert_eq!(r.n50, 10);
    assert_eq!(r.n75, 5);
    assert_eq!(r.length_histogram, vec![(0, 1), (1, 1), (2, 1)]);
}

#[test]
fn case_insensitive_base_counts() {
    let data = b">x\naCgTnN\n".to_vec();
    let records = parse_fasta(&data);
    let r = analyze_sequences(&records, 100);
    assert_eq!(r.gc_count, 2);
    assert_eq!(r.n_count, 2);
    assert_eq!(r.total_length, 6);
}

#[test]
fn multi_line_content_is_one_record() {
    let data = b">x\nAC\nGT\n".to_vec();
    let records = parse_fasta(&data);
    assert_eq!(records.len(), 1);
    assert_eq!(records[0].content, b"ACGT".to_vec());
    let r = analyze_sequences(&records, 100);
    assert_eq!(r.total_length, 4);
}

#[test]
fn gc_plus_n_bounded_by_total() {
    let data = b">a\nGGNNTT\n>b\nacgtn\n".to_vec();
    let records = parse_fasta(&data);
    let r = analyze_sequences(&records, 10);
    assert!(r.gc_count + r.n_count <= r.total_length);
}

#[test]
fn quantiles_are_monotone() {
    let data = b">a\nAAAAAAA\n>b\nCCC\n>c\nGG\n>d\nT\n".to_vec();
    let records = parse_fasta(&data);
    let r = analyze_sequences(&records, 4);
    assert!(r.n75 <= r.n50);
    assert!(r.n50 <= r.n25);
    assert!(r.n25 <= r.largest_contig);
    assert!(r.shortest_contig <= r.largest_contig);
    assert!(r.largest_contig <= r.total_length);
}

#[test]
fn histogram_counts_sum_to_record_count() {
    let data = b">a\nAAAAAAA\n>b\nCCC\n>c\nGG\n>d\nT\n>e\nTTT\n".to_vec();
    let records = parse_fasta(&data);
    let r = analyze_sequences(&records, 3);
    let sum: usize = r.length_histogram.iter().map(|p| p.1).sum();
    assert_eq!(sum, r.sequence_count);
    // lengths 7,3,2,1,3 with width 3: buckets 2,1,0,0,1
    assert_eq!(r.length_histogram, vec![(0, 2), (1, 2), (2, 1)]);
}

#[test]
fn concatenating_files_equals_one_file() {
    let a = b">a\nACGT\nAC\n>b\nNN\n".to_vec();
    let b = b">c\nGGGG\n".to_vec();
    let mut combined = a.clone();
    combined.extend_from_slice(&b);

    let mut records_two = parse_fasta(&a);
    records_two.append(&mut parse_fasta(&b));
    let r_two = analyze_sequences(&records_two, 5);

    let records_one = parse_fasta(&combined);
    let r_one = analyze_sequences(&records_one, 5);

    assert_eq!(r_two.total_length, r_one.total_length);
    assert_eq!(r_two.sequence_count, r_one.sequence_count);
    assert_eq!(r_two.gc_count, r_one.gc_count);
    assert_eq!(r_two.n_count, r_one.n_count);
    assert_eq!(r_two.n25, r_one.n25);
    assert_eq!(r_two.n50, r_one.n50);
    assert_eq!(r_two.n75, r_one.n75);
    assert_eq!(r_two.largest_contig, r_one.largest_contig);
    assert_eq!(r_two.shortest_contig, r_one.shortest_contig);
    assert_eq!(r_two.length_histogram, r_one.length_histogram);
}

#[test]
fn all_zero_lengths_leave_quantiles_zero() {
    let data = b">a\n>b\n>c\n".to_vec();
    let records = parse_fasta(&data);
    assert_eq!(records.len(), 3);
    let r = analyze_sequences(&records, 100);
    assert_eq!(r.total_length, 0);
    assert_eq!(r.n25, 0);
    assert_eq!(r.n50, 0);
    assert_eq!(r.n75, 0);
    assert_eq!(r.largest_contig, 0);
    assert_eq!(r.shortest_contig, 0);
    assert_eq!(r.length_histogram, vec![(0, 3)]);
}
