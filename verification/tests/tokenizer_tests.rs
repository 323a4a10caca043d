use prettier::logger::{LogLevel, Logger};
use prettier::tokenizer::Tokenizer;

fn scan(bytes: &[u8]) -> (Vec<prettier::token::Token>, usize, Logger) {
    let mut logger = Logger::new(LogLevel::All);
    let mut tokenizer = Tokenizer::new(bytes.to_vec());
    let (tokens, lines) = tokenizer.tokenize(&mut logger);
    (tokens, lines, logger)
}

#[test]
fn empty_input_yields_no_tokens_and_line_one() {
    let (tokens, lines, logger) = scan(b"");
    assert_eq!(tokens.len(), 0);
    assert_eq!(lines, 1);
    assert_eq!(logger.len(), 0);
}

#[test]
fn partition_concatenation_reconstructs_input() {
    let input = b"let x = 41;\nprint(x + 1) \t ok";
    let (tokens, _, logger) = scan(input);
    assert_eq!(logger.len(), 0);
    let mut rebuilt = String::new();
    let mut last_end: Option<usize> = None;
    for t in &tokens {
        rebuilt.push_str(t.as_str());
        let (b, e) = t.range;
        assert!(b <= e);
        if let Some(prev) = last_end {
            assert!(prev < b, "ranges must be strictly increasing");
        }
        last_end = Some(e);
    }
    assert_eq!(rebuilt.as_bytes(), input);
}

#[test]
fn line_count_is_newline_tokens_plus_one() {
    let (tokens, lines, _) = scan(b"a \nb \n \n");
    let nextlines = tokens.iter().filter(|t| t.color == "nextline").count();
    assert_eq!(lines, nextlines + 1);
    assert_eq!(lines, 4);
}

#[test]
fn newline_tokens_are_precolored() {
    let (tokens, _, _) = scan(b" \n");
    assert_eq!(tokens.len(), 2);
    assert_eq!(tokens[0].as_str(), " ");
    assert!(!tokens[0].colored());
    assert_eq!(tokens[1].as_str(), "\n");
    assert!(tokens[1].colored());
    assert_eq!(tokens[1].color, "nextline");
}

#[test]
fn operator_bytes_merge_into_one_token() {
    let (tokens, _, _) = scan(b"+=*(){}");
    assert_eq!(tokens.len(), 1);
    assert_eq!(tokens[0].as_str(), "+=*(){}");
    assert_eq!(tokens[0].range, (0, 6));
}

#[test]
fn blanks_merge_and_stop_before_newline() {
    let (tokens, lines, _) = scan(b" \t\r\nx");
    assert_eq!(tokens.len(), 3);
    assert_eq!(tokens[0].as_str(), " \t\r");
    assert_eq!(tokens[1].as_str(), "\n");
    assert_eq!(tokens[2].as_str(), "x");
    assert_eq!(lines, 2);
}

#[test]
fn quotes_are_single_byte_tokens() {
    let (tokens, _, _) = scan(b"''\"");
    assert_eq!(tokens.len(), 3);
    assert_eq!(tokens[0].as_str(), "'");
    assert_eq!(tokens[1].as_str(), "'");
    assert_eq!(tokens[2].as_str(), "\"");
}

#[test]
fn other_run_absorbs_newline_and_quote_bytes() {
    // a run of "other" bytes only stops at an operator or a blank, so it
    // swallows the newline and the quote; no newline token is emitted
    let (tokens, lines, _) = scan(b"ab\ncd'e f");
    assert_eq!(tokens.len(), 3);
    assert_eq!(tokens[0].as_str(), "ab\ncd'e");
    assert_eq!(tokens[1].as_str(), " ");
    assert_eq!(tokens[2].as_str(), "f");
    assert_eq!(lines, 1);
}

#[test]
fn multibyte_text_decodes_into_one_token() {
    let input = "héllo wörld".as_bytes();
    let (tokens, _, logger) = scan(input);
    assert_eq!(logger.len(), 0);
    assert_eq!(tokens.len(), 3);
    assert_eq!(tokens[0].as_str(), "héllo");
    assert_eq!(tokens[2].as_str(), "wörld");
}

#[test]
fn decode_failure_drops_run_and_logs_error_with_note() {
    let input = b"hi \xff\xfe mo";
    let (tokens, _, logger) = scan(input);
    let texts: Vec<&str> = tokens.iter().map(|t| t.as_str()).collect();
    assert_eq!(texts, vec!["hi", " ", " ", "mo"]);
    assert_eq!(logger.len(), 2);
    let entries = logger.entries();
    assert_eq!(entries[0].level(), 2);
    assert_eq!(entries[1].level(), 2);
    assert_eq!(entries[0].message().as_str(), "UTF8 Err: Unexpected UTF8 Char.");
    // valid portions still partition their own ranges
    assert_eq!(tokens[0].range, (0, 1));
    assert_eq!(tokens[1].range, (2, 2));
    assert_eq!(tokens[2].range, (5, 5));
    assert_eq!(tokens[3].range, (6, 7));
}
