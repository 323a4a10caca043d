use prettier::highlighting::Highlighter;
use prettier::language_pattern::{LangHighlighter, LangPatterns, PatternBeginEnd, PatternRegex};
use prettier::logger::{LogLevel, Logger};
use prettier::token::Token;
use prettier::tokenizer::Tokenizer;

fn scan(bytes: &[u8]) -> Vec<Token> {
    let mut logger = Logger::new(LogLevel::All);
    let mut tokenizer = Tokenizer::new(bytes.to_vec());
    tokenizer.tokenize(&mut logger).0
}

fn angle_region_grammar(include_first: bool, include_end: bool) -> LangPatterns {
    LangPatterns::new(
        vec![("angle".to_string(), "literal_string".to_string())],
        vec![],
        vec![PatternBeginEnd {
            name: "angle".to_string(),
            begin: "<".to_string(),
            end: ">".to_string(),
            include_first,
            include_end,
        }],
    )
}

fn colors(tokens: &[Token]) -> Vec<String> {
    tokens.iter().map(|t| t.color.clone()).collect()
}

#[test]
fn region_lifecycle_inclusive_boundaries() {
    let tokens = scan(b"<x>");
    assert_eq!(tokens.len(), 3);
    let mut logger = Logger::new(LogLevel::All);
    let lh = LangHighlighter::new(angle_region_grammar(true, true));
    let mut h = Highlighter::new(tokens, lh);
    let out = h.color(&mut logger);
    assert_eq!(colors(&out), vec!["literal_string", "literal_string", "literal_string"]);
    // the region closed: a later token is not colored by it
    let tokens2 = scan(b"<x> y");
    let lh2 = LangHighlighter::new(angle_region_grammar(true, true));
    let mut h2 = Highlighter::new(tokens2, lh2);
    let out2 = h2.color(&mut logger);
    assert_eq!(out2[4].color, "unknown");
}

#[test]
fn region_exclusive_boundaries() {
    let tokens = scan(b"<x>");
    let mut logger = Logger::new(LogLevel::All);
    let lh = LangHighlighter::new(angle_region_grammar(false, false));
    let mut h = Highlighter::new(tokens, lh);
    let out = h.color(&mut logger);
    assert_eq!(colors(&out), vec!["unknown", "literal_string", "unknown"]);
    assert_eq!(logger.len(), 0);
}

#[test]
fn unterminated_region_colors_rest_without_error() {
    let tokens = scan(b"<x y z");
    let mut logger = Logger::new(LogLevel::All);
    let lh = LangHighlighter::new(angle_region_grammar(true, true));
    let mut h = Highlighter::new(tokens, lh);
    let out = h.color(&mut logger);
    for t in &out {
        assert_eq!(t.color, "literal_string");
    }
    assert_eq!(logger.len(), 0);
}

#[test]
fn ambiguity_first_declared_rule_wins_and_one_warning() {
    let grammar = LangPatterns::new(
        vec![
            ("first".to_string(), "keyword".to_string()),
            ("second".to_string(), "type".to_string()),
        ],
        vec![
            PatternRegex { name: "first".to_string(), regex: "^a".to_string() },
            PatternRegex { name: "second".to_string(), regex: "bc".to_string() },
        ],
        vec![],
    );
    let tokens = scan(b"abc");
    assert_eq!(tokens.len(), 1);
    let mut logger = Logger::new(LogLevel::All);
    let mut h = Highlighter::new(tokens, LangHighlighter::new(grammar));
    let out = h.color(&mut logger);
    assert_eq!(out[0].color, "keyword");
    let entries = logger.entries();
    assert_eq!(entries.len(), 2);
    assert_eq!(entries[0].level(), 1);
    assert_eq!(
        entries[0].message().as_str(),
        "There are more than 1 patterns can match the token `abc`."
    );
    assert_eq!(entries[1].message().as_str(), "Matched patterns: first, second");
}

#[test]
fn unmapped_rule_name_falls_back_to_itself() {
    let grammar = LangPatterns::new(
        vec![],
        vec![PatternRegex { name: "digits".to_string(), regex: "^[0-9]+$".to_string() }],
        vec![],
    );
    let tokens = scan(b"123");
    let mut logger = Logger::new(LogLevel::All);
    let mut h = Highlighter::new(tokens, LangHighlighter::new(grammar));
    let out = h.color(&mut logger);
    assert_eq!(out[0].color, "digits");
    assert_eq!(logger.len(), 0);
}

#[test]
fn precolored_tokens_pass_through_unchanged() {
    // the newline token is precolored by the lexer; a rule that would match
    // anything must not touch it
    let grammar = LangPatterns::new(
        vec![("all".to_string(), "keyword".to_string())],
        vec![PatternRegex { name: "all".to_string(), regex: "".to_string() }],
        vec![],
    );
    let tokens = scan(b"a \n");
    let mut logger = Logger::new(LogLevel::All);
    let mut h = Highlighter::new(tokens, LangHighlighter::new(grammar));
    let out = h.color(&mut logger);
    assert_eq!(out[0].color, "keyword");
    assert_eq!(out[1].color, "keyword");
    assert_eq!(out[2].color, "nextline");
    assert_eq!(out[2].as_str(), "\n");
    assert_eq!(out[2].range, (2, 2));
}

#[test]
fn highlighting_is_deterministic() {
    let input = b"fn main() { '<' }";
    let grammar = || {
        LangPatterns::new(
            vec![("kw".to_string(), "keyword".to_string())],
            vec![
                PatternRegex { name: "kw".to_string(), regex: "^fn$".to_string() },
                PatternRegex { name: "kw2".to_string(), regex: "f".to_string() },
            ],
            vec![PatternBeginEnd {
                name: "q".to_string(),
                begin: "^'$".to_string(),
                end: "^'$".to_string(),
                include_first: true,
                include_end: true,
            }],
        )
    };
    let mut logger1 = Logger::new(LogLevel::All);
    let mut h1 = Highlighter::new(scan(input), LangHighlighter::new(grammar()));
    let out1 = h1.color(&mut logger1);
    let mut logger2 = Logger::new(LogLevel::All);
    let mut h2 = Highlighter::new(scan(input), LangHighlighter::new(grammar()));
    let out2 = h2.color(&mut logger2);
    assert_eq!(out1.len(), out2.len());
    for (a, b) in out1.iter().zip(out2.iter()) {
        assert_eq!(a.as_str(), b.as_str());
        assert_eq!(a.color, b.color);
        assert_eq!(a.range, b.range);
    }
    assert_eq!(logger1.len(), logger2.len());
}

#[test]
fn ambiguous_begin_patterns_warn_and_first_opens() {
    let grammar = LangPatterns::new(
        vec![("r1".to_string(), "keyword".to_string()), ("r2".to_string(), "type".to_string())],
        vec![],
        vec![
            PatternBeginEnd {
                name: "r1".to_string(),
                begin: "<".to_string(),
                end: ">".to_string(),
                include_first: true,
                include_end: true,
            },
            PatternBeginEnd {
                name: "r2".to_string(),
                begin: "<".to_string(),
                end: "}".to_string(),
                include_first: true,
                include_end: true,
            },
        ],
    );
    let tokens = scan(b"<x>");
    let mut logger = Logger::new(LogLevel::All);
    let mut h = Highlighter::new(tokens, LangHighlighter::new(grammar));
    let out = h.color(&mut logger);
    assert_eq!(out[0].color, "keyword");
    assert_eq!(out[1].color, "keyword");
    assert_eq!(out[2].color, "keyword");
    let entries = logger.entries();
    assert_eq!(entries.len(), 2);
    assert_eq!(
        entries[0].message().as_str(),
        "There are more than 1 begin patterns can match the token `<`."
    );
}

#[test]
fn validate_accepts_good_and_rejects_bad_patterns() {
    let good = LangPatterns::new(
        vec![],
        vec![PatternRegex { name: "n".to_string(), regex: "^[a-z]+$".to_string() }],
        vec![],
    );
    let mut lh = LangHighlighter::new(good);
    assert!(lh.validate());
    let bad = LangPatterns::new(
        vec![],
        vec![PatternRegex { name: "n".to_string(), regex: "(".to_string() }],
        vec![],
    );
    let mut lh2 = LangHighlighter::new(bad);
    assert!(!lh2.validate());
}

#[test]
fn regex_matching_reaches_the_real_engine() {
    let grammar = LangPatterns::new(
        vec![],
        vec![PatternRegex { name: "digits".to_string(), regex: "^[0-9]+$".to_string() }],
        vec![],
    );
    let mut lh = LangHighlighter::new(grammar);
    assert_eq!(lh.patterns("123"), vec!["digits".to_string()]);
    assert!(lh.patterns("12a").is_empty());
    assert!(lh.patterns("").is_empty());
    // cached second use answers the same
    assert_eq!(lh.patterns("456"), vec!["digits".to_string()]);
}

#[test]
fn try_getcolor_and_fallback() {
    let grammar = LangPatterns::new(
        vec![("angle".to_string(), "literal_string".to_string())],
        vec![],
        vec![],
    );
    let lh = LangHighlighter::new(grammar);
    assert_eq!(lh.try_getcolor(&"angle".to_string()), Some(&"literal_string".to_string()));
    assert_eq!(lh.try_getcolor(&"other".to_string()), None);
    assert_eq!(lh.getcolor_or_tag(&"angle".to_string()), "literal_string");
    assert_eq!(lh.getcolor_or_tag(&"other".to_string()), "other");
}

#[test]
fn closing_token_excluded_from_region_can_open_another() {
    // a token that closes a region with include_end = false is evaluated
    // again from the scanning state: a begin pattern may claim it at once
    let grammar = LangPatterns::new(
        vec![("ra".to_string(), "keyword".to_string()), ("rb".to_string(), "type".to_string())],
        vec![],
        vec![
            PatternBeginEnd {
                name: "ra".to_string(),
                begin: "^a$".to_string(),
                end: "^b$".to_string(),
                include_first: true,
                include_end: false,
            },
            PatternBeginEnd {
                name: "rb".to_string(),
                begin: "^b$".to_string(),
                end: "^c$".to_string(),
                include_first: true,
                include_end: true,
            },
        ],
    );
    let tokens = scan(b"a b c");
    let mut logger = Logger::new(LogLevel::All);
    let mut h = Highlighter::new(tokens, LangHighlighter::new(grammar));
    let out = h.color(&mut logger);
    assert_eq!(colors(&out), vec!["keyword", "keyword", "type", "type", "type"]);
}

