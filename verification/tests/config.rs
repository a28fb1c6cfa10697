use text_tools::config::{Config, ConfigError};
use text_tools::number::{parse_i64, parse_usize};

fn args(list: &[&str]) -> Vec<String> {
    list.iter().map(|a| a.to_string()).collect()
}

fn watermark(text: &str) -> Result<Option<usize>, ConfigError> {
    Config::build_from(args(&["prog", "data.csv"]), Some(text.to_string())).map(|c| c.watermark())
}

#[test]
fn file_name_is_the_first_argument() {
    let config = Config::build_from(args(&["prog", "data.csv", "more"]), None).unwrap();
    assert_eq!(config.file_path(), "data.csv");
    assert_eq!(config.watermark(), None);
}

#[test]
fn missing_file_name_is_an_error() {
    assert_eq!(
        Config::build_from(args(&["prog"]), None).err(),
        Some(ConfigError::MissingFile)
    );
    assert_eq!(
        Config::build_from(args(&[]), Some("4".to_string())).err(),
        Some(ConfigError::MissingFile)
    );
    // The file name is looked at first.
    assert_eq!(
        Config::build_from(args(&["prog"]), Some("x".to_string())).err(),
        Some(ConfigError::MissingFile)
    );
}

#[test]
fn watermark_is_a_positive_integer() {
    assert_eq!(watermark("1"), Ok(Some(1)));
    assert_eq!(watermark("8192"), Ok(Some(8192)));
    assert_eq!(watermark("+16"), Ok(Some(16)));
    assert_eq!(watermark("0064"), Ok(Some(64)));
}

#[test]
fn malformed_watermark_is_an_error() {
    let invalid = Err(ConfigError::InvalidWatermark);
    assert_eq!(watermark(""), invalid);
    assert_eq!(watermark("0"), invalid);
    assert_eq!(watermark("-1"), invalid);
    assert_eq!(watermark("8k"), invalid);
    assert_eq!(watermark(" 8"), invalid);
    assert_eq!(watermark("8 "), invalid);
    assert_eq!(watermark("+"), invalid);
    assert_eq!(watermark("99999999999999999999999999"), invalid);
}

#[test]
fn config_errors_say_what_went_wrong() {
    assert_eq!(ConfigError::MissingFile.message(), "Didn't get a file name");
    assert_eq!(
        ConfigError::InvalidWatermark.message(),
        "Failed to parse 'WATERMARK'"
    );
}

#[test]
fn unsigned_literals() {
    assert_eq!(parse_usize("0"), Some(0));
    assert_eq!(parse_usize("+12"), Some(12));
    assert_eq!(parse_usize(&usize::MAX.to_string()), Some(usize::MAX));
    assert_eq!(parse_usize("340282366920938463463374607431768211456"), None);
    assert_eq!(parse_usize("-0"), None);
    assert_eq!(parse_usize(""), None);
    assert_eq!(parse_usize("1 "), None);
}

#[test]
fn signed_literals() {
    assert_eq!(parse_i64("-0"), Some(0));
    assert_eq!(parse_i64("-12"), Some(-12));
    assert_eq!(parse_i64("+12"), Some(12));
    assert_eq!(parse_i64("9223372036854775807"), Some(i64::MAX));
    assert_eq!(parse_i64("9223372036854775808"), None);
    assert_eq!(parse_i64("-9223372036854775808"), Some(i64::MIN));
    assert_eq!(parse_i64("-9223372036854775809"), None);
    assert_eq!(parse_i64("-+1"), None);
    assert_eq!(parse_i64("1e3"), None);
}
