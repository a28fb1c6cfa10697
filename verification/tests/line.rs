use text_tools::reader::CsvReader;

#[test]
fn process_line() {
    let line = "Sample,Header,Example";
    assert_eq!(
        vec!["Sample", "Header", "Example"],
        CsvReader::parse_line(line)
    );
}

#[test]
fn process_line_doublequote() {
    let line = "Sample,\"He\"\"@add\"\"ader\",Example\n";
    assert_eq!(
        vec!["Sample", "\"He\"\"@add\"\"ader\"", "Example"],
        CsvReader::parse_line(line)
    );
}

#[test]
fn line_edges() {
    assert_eq!(CsvReader::parse_line(""), vec![""]);
    assert_eq!(CsvReader::parse_line("\n"), vec![""]);
    assert_eq!(CsvReader::parse_line(","), vec!["", ""]);
    assert_eq!(CsvReader::parse_line("a,\n"), vec!["a", ""]);
    assert_eq!(CsvReader::parse_line("a\n\n"), vec!["a\n"]);
    assert_eq!(CsvReader::parse_line("a\nb,c"), vec!["a\nb", "c"]);
    assert_eq!(CsvReader::parse_line("\"a,b\",c"), vec!["\"a,b\"", "c"]);
    assert_eq!(CsvReader::parse_line("\"a,b"), vec!["\"a,b"]);
    assert_eq!(CsvReader::parse_line("a,b\r\n"), vec!["a", "b\r"]);
}

#[test]
fn line_with_text_beyond_ascii() {
    assert_eq!(
        CsvReader::parse_line("caf\u{e9},\u{65e5}\u{672c},\u{1f600}\n"),
        vec!["caf\u{e9}", "\u{65e5}\u{672c}", "\u{1f600}"]
    );
}
