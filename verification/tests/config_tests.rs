use prettier::config::{Arguments, Config};
use prettier::logger::{Log, LogLevel, Logger, NoteFor};
use prettier::token::Token;

fn args(words: &[&str]) -> Vec<String> {
    words.iter().map(|w| w.to_string()).collect()
}

#[test]
fn plain_arguments_are_file_paths_with_default_level() {
    let a = Arguments::from_args(args(&["prog", "a.rs", "b.py"])).unwrap();
    assert_eq!(a.file_paths, vec!["a.rs".to_string(), "b.py".to_string()]);
    assert_eq!(a.log_level.level(), 2);
}

#[test]
fn log_level_words_and_digits_select_levels() {
    let a = Arguments::from_args(args(&["prog", "--log-level", "all", "f"])).unwrap();
    assert_eq!(a.log_level.level(), 0);
    assert_eq!(a.file_paths, vec!["f".to_string()]);
    let b = Arguments::from_args(args(&["prog", "--log-level", "1"])).unwrap();
    assert_eq!(b.log_level.level(), 1);
    let c = Arguments::from_args(args(&["prog", "--log-level", "never"])).unwrap();
    assert_eq!(c.log_level.level(), 3);
    let d = Arguments::from_args(args(&["prog", "--log-level", "3"])).unwrap();
    assert_eq!(d.log_level.level(), 3);
}

#[test]
fn unknown_level_word_keeps_current_level() {
    let a = Arguments::from_args(args(&["prog", "--log-level", "loud", "f"])).unwrap();
    assert_eq!(a.log_level.level(), 2);
    assert_eq!(a.file_paths, vec!["f".to_string()]);
}

#[test]
fn trailing_log_level_flag_is_an_error() {
    let e = match Arguments::from_args(args(&["prog", "f", "--log-level"])) {
        Err(m) => m,
        Ok(_) => panic!("expected an error"),
    };
    assert_eq!(e, "Expect log level after `--log-level`.");
}

#[test]
fn default_config_palette() {
    let c = Config::from_file("prettier.config.json".to_string());
    assert_eq!(c.color_map.len(), 9);
    assert_eq!(c.color_map[0], ("title".to_string(), (255, 107, 107)));
    assert_eq!(c.color_map[6], ("type".to_string(), (255, 107, 255)));
    assert_eq!(c.color_map[8], ("note".to_string(), (155, 155, 155)));
}

#[test]
fn logger_appends_in_order_with_levels() {
    let mut l = Logger::new(LogLevel::Warn);
    assert_eq!(l.len(), 0);
    l.info("i".to_string());
    l.warn("w".to_string());
    l.error("e".to_string());
    l.note("n".to_string(), NoteFor::Warn);
    assert_eq!(l.len(), 4);
    let entries = l.entries();
    assert_eq!(entries[0].level(), 0);
    assert_eq!(entries[1].level(), 1);
    assert_eq!(entries[2].level(), 2);
    assert_eq!(entries[3].level(), 1);
    assert!(matches!(entries[3], Log::Note(_, NoteFor::Warn)));
    assert_eq!(entries[2].message().as_str(), "e");
}

#[test]
fn token_construction_and_coloring() {
    let mut t = Token::new("abc".to_string(), (3, 5));
    assert_eq!(t.as_str(), "abc");
    assert_eq!(t.range, (3, 5));
    assert!(!t.colored());
    assert_eq!(t.color, "unknown");
    t.color("keyword".to_string());
    assert!(t.colored());
    assert_eq!(t.color, "keyword");
}
