use text_tools::config::Config;
use text_tools::decoder::{CellParser, DecodeError};
use text_tools::reader::{ChunkSource, CsvReader};
use text_tools::records::{assemble, RecordBuilder};
use text_tools::scanner::{scan, YieldEvent};

fn reader_with(watermark: usize) -> CsvReader {
    let args = vec!["prog".to_string(), "data.csv".to_string()];
    let config = Config::build_from(args, Some(watermark.to_string())).unwrap();
    CsvReader::build_from(config)
}

/// Each event as `Some(cell)` or, for an end of record, `None`.
fn plain(events: Vec<YieldEvent>) -> Vec<Option<Vec<u8>>> {
    events
        .into_iter()
        .map(|event| match event {
            YieldEvent::NewCell(cell) => Some(cell),
            YieldEvent::NewLine => None,
        })
        .collect()
}

fn cell(text: &str) -> Option<Vec<u8>> {
    Some(text.as_bytes().to_vec())
}

fn events_at(input: &[u8], watermark: usize) -> Vec<Option<Vec<u8>>> {
    let mut source = ChunkSource::new(input.to_vec());
    plain(reader_with(watermark).process_file(&mut source))
}

fn records_at(input: &[u8], watermark: usize) -> Vec<Vec<String>> {
    let mut source = ChunkSource::new(input.to_vec());
    reader_with(watermark)
        .run(&mut source)
        .into_iter()
        .map(|record| record.into_iter().map(|c| c.unwrap()).collect())
        .collect()
}

/// The bytes that a sequence of events stands for.
fn rebuilt(events: &[Option<Vec<u8>>]) -> Vec<u8> {
    let mut bytes = Vec::new();
    for (i, event) in events.iter().enumerate() {
        match event {
            None => bytes.push(b'\n'),
            Some(cell) => {
                if i > 0 && events[i - 1].is_some() {
                    bytes.push(b',');
                }
                bytes.extend_from_slice(cell);
            }
        }
    }
    bytes
}

#[test]
fn rechunking_does_not_change_the_records() {
    let input = b"a,b,c\nd,e,f\n";
    let expected = vec![vec!["a", "b", "c"], vec!["d", "e", "f"]];
    assert_eq!(records_at(input, 1), expected);
    assert_eq!(records_at(input, 1024), expected);
}

#[test]
fn every_watermark_gives_the_same_events() {
    let input = b"id,\"name, full\",note\r\n1,\"O\"\"Hara\",\"two\nlines\"\n2,,\n\nlast";
    let whole = events_at(input, input.len() + 7);
    assert_eq!(whole.len(), 15);
    for watermark in 1..=input.len() {
        assert_eq!(events_at(input, watermark), whole, "watermark {}", watermark);
    }
}

#[test]
fn events_come_in_stream_order() {
    assert_eq!(
        events_at(b"a,b\nc", 2),
        vec![cell("a"), cell("b"), None, cell("c")]
    );
}

#[test]
fn quoted_delimiter_does_not_split_the_cell() {
    let input = b"x,\"a,b\",y\n";
    assert_eq!(records_at(input, 8192), vec![vec!["x", "a,b", "y"]]);
    assert_eq!(records_at(input, 3), vec![vec!["x", "a,b", "y"]]);
    assert_eq!(
        events_at(input, 8192),
        vec![cell("x"), cell("\"a,b\""), cell("y"), None, cell("")]
    );
}

#[test]
fn quoted_terminator_does_not_end_the_record() {
    assert_eq!(
        events_at(b"\"a\nb\",c\n", 2),
        vec![cell("\"a\nb\""), cell("c"), None, cell("")]
    );
}

#[test]
fn escaped_quotes_collapse() {
    let input = b"\"he said \"\"hi\"\"\"\n";
    assert_eq!(records_at(input, 8192), vec![vec!["he said \"hi\""]]);
    assert_eq!(records_at(input, 5), vec![vec!["he said \"hi\""]]);
}

#[test]
fn last_record_needs_no_terminator() {
    assert_eq!(records_at(b"a,b", 8192), vec![vec!["a", "b"]]);
    assert_eq!(records_at(b"a,b", 1), vec![vec!["a", "b"]]);
    assert_eq!(events_at(b"a,b", 8192), vec![cell("a"), cell("b")]);
}

#[test]
fn crlf_decodes_like_lf() {
    assert_eq!(records_at(b"a,b\r\n", 8192), records_at(b"a,b\n", 8192));
    assert_eq!(records_at(b"a,b\r\n", 8192), vec![vec!["a", "b"]]);
    assert_eq!(
        events_at(b"a,b\r\n", 8192),
        vec![cell("a"), cell("b\r"), None, cell("")]
    );
}

#[test]
fn no_byte_is_lost_or_doubled_at_a_split() {
    let input = b"ab,\"c,\"\"d\"\n\n,e\r\n\"f\ng\",h";
    let whole = events_at(input, 8192);
    assert_eq!(rebuilt(&whole), input.to_vec());
    for at in 1..input.len() {
        let config = Config::build_from(vec!["p".to_string(), "f".to_string()], None).unwrap();
        let mut reader = CsvReader::build_from(config);
        let mut events = plain(reader.process_chunk(&input[..at]));
        events.extend(plain(reader.process_chunk(&input[at..])));
        events.extend(plain(reader.process_chunk(&[])));
        assert_eq!(rebuilt(&events), input.to_vec(), "split at {}", at);
        assert_eq!(events, whole, "split at {}", at);
    }
}

#[test]
fn quote_spanning_a_chunk_boundary_stays_one_cell() {
    let input = b"\"ab,cd\"\n";
    let found = events_at(input, 4);
    assert_eq!(found, vec![cell("\"ab,cd\""), None, cell("")]);
    let text = CellParser::to_string(found[0].clone().unwrap()).unwrap();
    assert_eq!(text, "ab,cd");
    assert_eq!(records_at(input, 4), vec![vec!["ab,cd"]]);
}

#[test]
fn quote_state_is_carried_between_chunks() {
    let config = Config::build_from(vec!["p".to_string(), "f".to_string()], None).unwrap();
    let mut reader = CsvReader::build_from(config);
    assert_eq!(plain(reader.process_chunk(b"x,\"ab,")), vec![cell("x")]);
    assert_eq!(
        plain(reader.process_chunk(b"cd\"\ny")),
        vec![cell("\"ab,cd\""), None]
    );
    assert!(!reader.drained());
    assert_eq!(plain(reader.process_chunk(b"")), vec![cell("y")]);
    assert!(reader.drained());
}

#[test]
fn drained_reader_takes_nothing() {
    let mut reader = reader_with(4);
    assert_eq!(plain(reader.process_chunk(b"a")), vec![]);
    assert_eq!(plain(reader.process_chunk(b"")), vec![cell("a")]);
    assert_eq!(plain(reader.process_chunk(b"b,c\n")), vec![]);
    assert_eq!(plain(reader.process_chunk(b"")), vec![]);
    let mut source = ChunkSource::new(b"d,e".to_vec());
    assert_eq!(plain(reader.process_file(&mut source)), vec![]);
    let mut buffer = vec![0u8; 8];
    assert_eq!(source.fill(&mut buffer), 3);
}

#[test]
fn empty_stream_is_one_empty_cell_and_no_record() {
    assert_eq!(events_at(b"", 8), vec![cell("")]);
    assert_eq!(records_at(b"", 8), Vec::<Vec<String>>::new());
}

#[test]
fn reader_takes_its_watermark_from_the_configuration() {
    assert_eq!(reader_with(17).watermark(), 17);
    let config = Config::build_from(vec!["p".to_string(), "f".to_string()], None).unwrap();
    assert_eq!(CsvReader::build_from(config).watermark(), 8192);
}

#[test]
fn scan_finds_boundaries_and_the_unconsumed_suffix() {
    let found = scan(b"a,\"b,c\"\nd,\"e", 0, false);
    assert_eq!(
        plain(found.events),
        vec![cell("a"), cell("\"b,c\""), None, cell("d")]
    );
    assert_eq!(found.rest, b"\"e");
    assert!(found.inside_quotes);
}

#[test]
fn scan_resumes_behind_the_carry_over() {
    // The first three bytes were seen before and left the scanner inside quotes.
    let found = scan(b"\"a,b\",c", 3, true);
    assert_eq!(plain(found.events), vec![cell("\"a,b\"")]);
    assert_eq!(found.rest, b"c");
    assert!(!found.inside_quotes);
    // Looked at from the start in that state, the first quote would close.
    let found = scan(b"\"a,b\",c", 0, true);
    assert_eq!(plain(found.events), vec![cell("\"a")]);
    assert_eq!(found.rest, b"b\",c");
    assert!(found.inside_quotes);
}

#[test]
fn scan_with_resume_behind_the_end_looks_at_nothing() {
    let found = scan(b"a,b", 10, false);
    assert_eq!(plain(found.events), vec![]);
    assert_eq!(found.rest, b"a,b");
    assert!(!found.inside_quotes);
}

#[test]
fn source_fills_the_front_of_the_buffer() {
    let mut source = ChunkSource::new(b"abcde".to_vec());
    let mut buffer = vec![b'.'; 3];
    assert_eq!(source.fill(&mut buffer), 3);
    assert_eq!(buffer, b"abc");
    assert_eq!(source.fill(&mut buffer), 2);
    assert_eq!(buffer, b"dec");
    assert_eq!(source.fill(&mut buffer), 0);
    assert_eq!(buffer, b"dec");
    let mut none: Vec<u8> = Vec::new();
    let mut full = ChunkSource::new(b"x".to_vec());
    assert_eq!(full.fill(&mut none), 0);
}

#[test]
fn raw_lines_keep_quotes_and_carriage_returns() {
    let mut source = ChunkSource::new(b"a,\"b\"\r\n\nc,".to_vec());
    let lines = reader_with(2).for_each_raw_line(&mut source);
    assert_eq!(
        lines,
        vec![
            vec![b"a".to_vec(), b"\"b\"\r".to_vec()],
            vec![b"".to_vec()],
            vec![b"c".to_vec(), b"".to_vec()],
        ]
    );
}

#[test]
fn assemble_drops_only_a_blank_last_record() {
    let line = || YieldEvent::NewLine;
    let new_cell = |text: &str| YieldEvent::NewCell(text.as_bytes().to_vec());
    assert_eq!(assemble(vec![]), Vec::<Vec<Vec<u8>>>::new());
    assert_eq!(assemble(vec![new_cell("")]), Vec::<Vec<Vec<u8>>>::new());
    assert_eq!(assemble(vec![new_cell("a")]), vec![vec![b"a".to_vec()]]);
    assert_eq!(
        assemble(vec![new_cell(""), new_cell("")]),
        vec![vec![b"".to_vec(), b"".to_vec()]]
    );
    assert_eq!(
        assemble(vec![new_cell("a"), line(), line(), new_cell("")]),
        vec![vec![b"a".to_vec()], vec![]]
    );
}

#[test]
fn invalid_cell_fails_alone() {
    let mut source = ChunkSource::new(b"ok,\xff\xfe,fine\nnext\n".to_vec());
    let lines = reader_with(3).run(&mut source);
    assert_eq!(lines.len(), 2);
    assert_eq!(lines[0][0], Ok("ok".to_string()));
    assert_eq!(lines[0][1], Err(DecodeError::Encoding));
    assert_eq!(lines[0][2], Ok("fine".to_string()));
    assert_eq!(lines[1], vec![Ok("next".to_string())]);
}

#[test]
fn builder_hands_out_a_record_at_each_end_of_record() {
    let new_cell = |text: &str| YieldEvent::NewCell(text.as_bytes().to_vec());
    let mut builder = RecordBuilder::new();
    assert_eq!(builder.push(new_cell("a")), None);
    assert_eq!(builder.push(new_cell("")), None);
    assert_eq!(
        builder.push(YieldEvent::NewLine),
        Some(vec![b"a".to_vec(), b"".to_vec()])
    );
    assert_eq!(builder.push(YieldEvent::NewLine), Some(vec![]));
    assert_eq!(builder.push(new_cell("")), None);
    assert_eq!(builder.finish(), None);

    let mut builder = RecordBuilder::new();
    assert_eq!(builder.push(new_cell("x")), None);
    assert_eq!(builder.finish(), Some(vec![b"x".to_vec()]));
    assert_eq!(RecordBuilder::new().finish(), None);
}
