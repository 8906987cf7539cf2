use count_fasta::cli::{parse_args, parse_positive};

fn argv(parts: &[&str]) -> Vec<String> {
    parts.iter().map(|p| p.to_string()).collect()
}

#[test]
fn no_files_is_a_usage_error() {
    assert!(parse_args(&argv(&["prog"])).is_err());
    assert!(parse_args(&argv(&["prog", "-i", "50"])).is_err());
}

#[test]
fn defaults_with_one_file() {
    let c = parse_args(&argv(&["prog", "f.fa"])).unwrap();
    assert_eq!(c.interval_size, 100);
    assert!(c.csv_filename.is_none());
    assert_eq!(c.fasta_files, vec!["f.fa".to_string()]);
    assert_eq!(c.invalid_interval_count, 0);
}

#[test]
fn interval_flag_sets_width() {
    let c = parse_args(&argv(&["prog", "-i", "50", "f.fa"])).unwrap();
    assert_eq!(c.interval_size, 50);
    let c = parse_args(&argv(&["prog", "--interval", "7", "f.fa"])).unwrap();
    assert_eq!(c.interval_size, 7);
}

#[test]
fn bad_interval_warns_and_keeps_default() {
    let c = parse_args(&argv(&["prog", "-i", "abc", "f.fa"])).unwrap();
    assert_eq!(c.interval_size, 100);
    assert_eq!(c.invalid_interval_count, 1);
    // the unconsumed token becomes a positional argument
    assert_eq!(c.fasta_files, vec!["abc".to_string(), "f.fa".to_string()]);
}

#[test]
fn interval_flag_without_value_is_skipped() {
    let c = parse_args(&argv(&["prog", "f.fa", "-i"])).unwrap();
    assert_eq!(c.interval_size, 100);
    assert_eq!(c.invalid_interval_count, 0);
    assert_eq!(c.fasta_files, vec!["f.fa".to_string()]);
}

#[test]
fn csv_flag_sets_path() {
    let c = parse_args(&argv(&["prog", "-c", "out.csv", "f.fa"])).unwrap();
    assert_eq!(c.csv_filename, Some("out.csv".to_string()));
    let c = parse_args(&argv(&["prog", "--csv", "o2.csv", "f.fa"])).unwrap();
    assert_eq!(c.csv_filename, Some("o2.csv".to_string()));
}

#[test]
fn trailing_csv_flag_is_ignored() {
    let c = parse_args(&argv(&["prog", "f.fa", "-c"])).unwrap();
    assert!(c.csv_filename.is_none());
    assert_eq!(c.fasta_files, vec!["f.fa".to_string()]);
}

#[test]
fn leading_positional_number_is_the_interval() {
    let c = parse_args(&argv(&["prog", "50", "f.fa"])).unwrap();
    assert_eq!(c.interval_size, 50);
    assert_eq!(c.fasta_files, vec!["f.fa".to_string()]);
}

#[test]
fn number_after_a_file_is_a_file() {
    let c = parse_args(&argv(&["prog", "f.fa", "60"])).unwrap();
    assert_eq!(c.interval_size, 100);
    assert_eq!(c.fasta_files, vec!["f.fa".to_string(), "60".to_string()]);
}

#[test]
fn zero_is_not_a_positive_interval() {
    let c = parse_args(&argv(&["prog", "0", "f.fa"])).unwrap();
    assert_eq!(c.interval_size, 100);
    assert_eq!(c.fasta_files, vec!["0".to_string(), "f.fa".to_string()]);
}

#[test]
fn positive_token_parsing() {
    assert_eq!(parse_positive(&"123".to_string()), Some(123));
    assert_eq!(parse_positive(&"1".to_string()), Some(1));
    assert_eq!(parse_positive(&"0".to_string()), None);
    assert_eq!(parse_positive(&"".to_string()), None);
    assert_eq!(parse_positive(&"12a".to_string()), None);
    assert_eq!(parse_positive(&"-5".to_string()), None);
    assert_eq!(parse_positive(&"99999999999999999999999999".to_string()), None);
}
