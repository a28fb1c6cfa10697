use text_tools::decoder::{CellParser, DecodeError, Trim};

fn text(cell: &[u8]) -> Result<String, DecodeError> {
    CellParser::to_string(cell.to_vec())
}

fn normalized(cell: &[u8], n: Trim) -> Vec<u8> {
    let mut cell = cell.to_vec();
    CellParser::normalize(&mut cell, n);
    cell
}

#[test]
fn plain_cell_is_its_text() {
    assert_eq!(text(b"hello"), Ok("hello".to_string()));
    assert_eq!(text(b""), Ok(String::new()));
    assert_eq!(text("gr\u{fc}n".as_bytes()), Ok("gr\u{fc}n".to_string()));
}

#[test]
fn trailing_carriage_return_is_dropped() {
    assert_eq!(text(b"b\r"), Ok("b".to_string()));
    assert_eq!(text(b"\r"), Ok(String::new()));
    assert_eq!(text(b"b\r\r"), Ok("b\r".to_string()));
    assert_eq!(text(b"a\rb"), Ok("a\rb".to_string()));
}

#[test]
fn quoted_cell_gives_its_content() {
    assert_eq!(text(b"\"a,b\""), Ok("a,b".to_string()));
    assert_eq!(text(b"\"\""), Ok(String::new()));
    assert_eq!(text(b"\"he said \"\"hi\"\"\""), Ok("he said \"hi\"".to_string()));
    assert_eq!(text(b"\"\"\"\""), Ok("\"".to_string()));
    assert_eq!(text(b"\"\"\"\"\"\""), Ok("\"\"".to_string()));
    assert_eq!(text(b"\"a\r\nb\""), Ok("a\r\nb".to_string()));
}

#[test]
fn quoted_cell_with_carriage_return_loses_both() {
    assert_eq!(text(b"\"a,b\"\r"), Ok("a,b".to_string()));
    assert_eq!(text(b"\"\"\r"), Ok(String::new()));
    assert_eq!(text(b"\"\r"), Ok(String::new()));
}

#[test]
fn lone_quote_is_an_empty_cell() {
    assert_eq!(text(b"\""), Ok(String::new()));
}

#[test]
fn last_byte_of_a_quoted_cell_goes_whatever_it_is() {
    assert_eq!(text(b"\"abc"), Ok("ab".to_string()));
    assert_eq!(text(b"\"a\"\""), Ok("a\"".to_string()));
}

#[test]
fn quote_inside_an_unquoted_cell_stays() {
    assert_eq!(text(b"a\"\"b"), Ok("a\"\"b".to_string()));
}

#[test]
fn invalid_text_is_an_encoding_error() {
    assert_eq!(text(b"\xff"), Err(DecodeError::Encoding));
    assert_eq!(text(b"\"\xc3\""), Err(DecodeError::Encoding));
    assert_eq!(text(b"\xed\xa0\x80"), Err(DecodeError::Encoding));
    assert_eq!(text(b"\xc0\xaf"), Err(DecodeError::Encoding));
    // The carriage return goes first: what is left is valid.
    assert_eq!(text(b"\xc3\xa9\r"), Ok("\u{e9}".to_string()));
}

#[test]
fn normalize_works_in_place() {
    assert_eq!(normalized(b"\"ab\"", Trim::Quotes), b"ab");
    assert_eq!(normalized(b"\"ab\"\r", Trim::QuotesAndCR), b"ab");
    assert_eq!(normalized(b"\"a\"\"b\"", Trim::Quotes), b"a\"b");
    assert_eq!(normalized(b"\"", Trim::Quotes), b"");
    assert_eq!(normalized(b"", Trim::Quotes), b"");
    assert_eq!(normalized(b"\"\r", Trim::QuotesAndCR), b"");
    assert_eq!(normalized(b"xaby", Trim::Quotes), b"ab");
    assert_eq!(normalized(b"\"ab\"", Trim::QuotesAndCR), b"a");
    assert_eq!(Trim::Quotes.count(), 1);
    assert_eq!(Trim::QuotesAndCR.count(), 2);
}

#[test]
fn integer_cells() {
    assert_eq!(CellParser::to_int(b"42".to_vec()), Ok(42));
    assert_eq!(CellParser::to_int(b"-17".to_vec()), Ok(-17));
    assert_eq!(CellParser::to_int(b"+8".to_vec()), Ok(8));
    assert_eq!(CellParser::to_int(b"007".to_vec()), Ok(7));
    assert_eq!(CellParser::to_int(b"\"12\"\r".to_vec()), Ok(12));
    assert_eq!(CellParser::to_int(b"31\r".to_vec()), Ok(31));
    assert_eq!(
        CellParser::to_int(b"9223372036854775807".to_vec()),
        Ok(i64::MAX)
    );
    assert_eq!(
        CellParser::to_int(b"-9223372036854775808".to_vec()),
        Ok(i64::MIN)
    );
}

#[test]
fn cells_that_are_no_integer() {
    let format = Err(DecodeError::Format);
    assert_eq!(CellParser::to_int(b"".to_vec()), format);
    assert_eq!(CellParser::to_int(b"-".to_vec()), format);
    assert_eq!(CellParser::to_int(b"+".to_vec()), format);
    assert_eq!(CellParser::to_int(b"12a".to_vec()), format);
    assert_eq!(CellParser::to_int(b" 12".to_vec()), format);
    assert_eq!(CellParser::to_int(b"1_000".to_vec()), format);
    assert_eq!(CellParser::to_int(b"--1".to_vec()), format);
    assert_eq!(CellParser::to_int(b"1.5".to_vec()), format);
    assert_eq!(CellParser::to_int("\u{663}".as_bytes().to_vec()), format);
    assert_eq!(CellParser::to_int(b"9223372036854775808".to_vec()), format);
    assert_eq!(CellParser::to_int(b"-9223372036854775809".to_vec()), format);
    assert_eq!(
        CellParser::to_int(b"99999999999999999999999999".to_vec()),
        format
    );
    assert_eq!(
        CellParser::to_int(b"1\xff".to_vec()),
        Err(DecodeError::Encoding)
    );
}

#[test]
fn integer_agrees_with_the_standard_parser() {
    let samples: [&str; 12] = [
        "0", "-0", "+0", "1", "-1", "000123", "18446744073709551615", "abc", "", "+-3", "3-", "٣",
    ];
    for sample in samples {
        let expected = sample.parse::<i64>().map_err(|_| DecodeError::Format);
        assert_eq!(
            CellParser::to_int(sample.as_bytes().to_vec()),
            expected,
            "{}",
            sample
        );
    }
}

#[test]
fn record_is_decoded_cell_by_cell() {
    let record = vec![b"\"x\"".to_vec(), b"\xff".to_vec(), b"y\r".to_vec()];
    assert_eq!(
        CellParser::decode_record(record),
        vec![
            Ok("x".to_string()),
            Err(DecodeError::Encoding),
            Ok("y".to_string())
        ]
    );
    assert_eq!(CellParser::decode_record(vec![]), vec![]);
}

#[test]
fn decode_errors_say_what_went_wrong() {
    assert_eq!(DecodeError::Encoding.message(), "cell is not valid UTF-8");
    assert_eq!(DecodeError::Format.message(), "cell is not a valid number");
}
