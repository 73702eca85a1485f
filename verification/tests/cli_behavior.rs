use hexdump::args::{parse_args, parse_usize, CliError};

fn argv(parts: &[&str]) -> Vec<String> {
    parts.iter().map(|p| p.to_string()).collect()
}

#[test]
fn parse_usize_plain_and_signed() {
    assert_eq!(parse_usize("0"), Some(0));
    assert_eq!(parse_usize("5"), Some(5));
    assert_eq!(parse_usize("+5"), Some(5));
    assert_eq!(parse_usize("007"), Some(7));
    assert_eq!(parse_usize("2048"), Some(2048));
}

#[test]
fn parse_usize_rejects_garbage() {
    assert_eq!(parse_usize(""), None);
    assert_eq!(parse_usize("+"), None);
    assert_eq!(parse_usize("++1"), None);
    assert_eq!(parse_usize("-5"), None);
    assert_eq!(parse_usize("5x"), None);
    assert_eq!(parse_usize("abc"), None);
    assert_eq!(parse_usize(" 5"), None);
}

#[test]
fn parse_usize_bounds() {
    let max = usize::MAX.to_string();
    assert_eq!(parse_usize(&max), Some(usize::MAX));
    assert_eq!(parse_usize("18446744073709551616"), None);
    assert_eq!(parse_usize("99999999999999999999999999"), None);
}

#[test]
fn file_only() {
    let cfg = parse_args(&argv(&["prog", "data.bin"])).unwrap();
    assert_eq!(cfg.budget, None);
    assert_eq!(cfg.file_path, "data.bin");
}

#[test]
fn budget_then_file() {
    let cfg = parse_args(&argv(&["prog", "-n", "5", "data.bin"])).unwrap();
    assert_eq!(cfg.budget, Some(5));
    assert_eq!(cfg.file_path, "data.bin");
}

#[test]
fn file_then_budget() {
    let cfg = parse_args(&argv(&["prog", "data.bin", "-n", "64"])).unwrap();
    assert_eq!(cfg.budget, Some(64));
    assert_eq!(cfg.file_path, "data.bin");
}

#[test]
fn last_file_wins() {
    let cfg = parse_args(&argv(&["prog", "first", "second"])).unwrap();
    assert_eq!(cfg.budget, None);
    assert_eq!(cfg.file_path, "second");
}

#[test]
fn last_budget_wins() {
    let cfg = parse_args(&argv(&["prog", "-n", "5", "-n", "9", "f"])).unwrap();
    assert_eq!(cfg.budget, Some(9));
}

#[test]
fn dash_n_without_value_is_an_error() {
    let err = parse_args(&argv(&["prog", "file", "-n"])).unwrap_err();
    assert_eq!(err, CliError::MissingLenValue);
}

#[test]
fn dash_n_with_bad_value_is_an_error() {
    let err = parse_args(&argv(&["prog", "-n", "abc", "file"])).unwrap_err();
    assert_eq!(err, CliError::InvalidLenValue);
    let err = parse_args(&argv(&["prog", "-n", "-n", "file"])).unwrap_err();
    assert_eq!(err, CliError::InvalidLenValue);
}

#[test]
fn missing_file_is_an_error() {
    let err = parse_args(&argv(&["prog"])).unwrap_err();
    assert_eq!(err, CliError::MissingFilePath);
    let err = parse_args(&argv(&["prog", "-n", "5"])).unwrap_err();
    assert_eq!(err, CliError::MissingFilePath);
}
