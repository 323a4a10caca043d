//! Run configuration: the parsed command-line shape (file paths and the
//! chosen log level) and the default terminal color palette.

use crate::logger::LogLevel;
use vstd::prelude::*;

verus! {

/// The message returned when the log-level flag has no value after it.
pub open spec fn missing_level_message() -> Seq<char> {
    "Expect log level after `--log-level`."@
}

/// The mathematical value of parsed arguments.
pub struct ArgsView {
    pub file_paths: Seq<Seq<char>>,
    pub log_level: LogLevel,
}

/// The level a log-level word selects; an unrecognized word keeps the
/// current level.
pub open spec fn level_of_word(w: Seq<char>, current: LogLevel) -> LogLevel {
    if w == "0"@ || w == "all"@ {
        LogLevel::All
    } else if w == "1"@ || w == "warn"@ {
        LogLevel::Warn
    } else if w == "2"@ || w == "error"@ {
        LogLevel::Error
    } else if w == "3"@ || w == "never"@ {
        LogLevel::Never
    } else {
        current
    }
}

/// The argument scan from position `i`: every word that is not the
/// log-level flag is a file path; the flag consumes the following word as
/// a level and fails when none follows.
pub open spec fn parse_args_from(
    args: Seq<Seq<char>>,
    i: int,
    files: Seq<Seq<char>>,
    level: LogLevel,
) -> Result<ArgsView, Seq<char>>
    decreases args.len() - i,
    when 0 <= i
{
    if i >= args.len() {
        Ok(ArgsView { file_paths: files, log_level: level })
    } else if args[i] == "--log-level"@ {
        if i + 1 >= args.len() {
            Err(missing_level_message())
        } else {
            parse_args_from(args, i + 2, files, level_of_word(args[i + 1], level))
        }
    } else {
        parse_args_from(args, i + 1, files.push(args[i]), level)
    }
}

/// The files to process and the log level chosen on the command line.
pub struct Arguments {
    pub file_paths: Vec<String>,
    pub log_level: LogLevel,
}

impl Arguments {
    /// Parses a full argument vector (the leading program name is
    /// skipped). The default level is `Error`; the scan fails exactly when
    /// the log-level flag ends the vector.
    pub fn from_args(args: Vec<String>) -> (r: Result<Arguments, String>)
        ensures
            ({
                let p = parse_args_from(
                    args.deep_view(),
                    1,
                    Seq::<Seq<char>>::empty(),
                    LogLevel::Error,
                );
                match r {
                    Ok(a) => p == Ok::<ArgsView, Seq<char>>(
                        ArgsView {
                            file_paths: a.file_paths.deep_view(),
                            log_level: a.log_level,
                        },
                    ),
                    Err(m) => p == Err::<ArgsView, Seq<char>>(m@),
                }
            }),
    {
        let ghost dv = args.deep_view();
        let mut log_level = LogLevel::Error;
        let mut file_paths: Vec<String> = Vec::new();
        let mut curr: usize = 1;
        proof {
            assert(file_paths.deep_view() =~= Seq::<Seq<char>>::empty());
        }
        while curr < args.len()
            invariant
                1 <= curr,
                dv == args.deep_view(),
                dv.len() == args@.len(),
                parse_args_from(dv, 1, Seq::<Seq<char>>::empty(), LogLevel::Error)
                    == parse_args_from(dv, curr as int, file_paths.deep_view(), log_level),
            decreases dv.len() - curr,
        {
            proof {
                assert(dv[curr as int] == args@[curr as int]@);
            }
            if args[curr] == "--log-level".to_owned() {
                curr += 1;
                if curr >= args.len() {
                    return Err("Expect log level after `--log-level`.".to_owned());
                }
                proof {
                    assert(dv[curr as int] == args@[curr as int]@);
                }
                let w = &args[curr];
                if *w == "0".to_owned() || *w == "all".to_owned() {
                    log_level = LogLevel::All;
                } else if *w == "1".to_owned() || *w == "warn".to_owned() {
                    log_level = LogLevel::Warn;
                } else if *w == "2".to_owned() || *w == "error".to_owned() {
                    log_level = LogLevel::Error;
                } else if *w == "3".to_owned() || *w == "never".to_owned() {
                    log_level = LogLevel::Never;
                }
            } else {
                let ghost f0 = file_paths.deep_view();
                file_paths.push(args[curr].clone());
                proof {
                    assert(file_paths.deep_view() =~= f0.push(dv[curr as int]));
                }
            }
            curr += 1;
        }
        Ok(Arguments { file_paths, log_level })
    }
}

/// The default palette: the color identifier of each built-in tag, as an
/// RGB triple.
pub open spec fn default_color_map() -> Seq<(Seq<char>, (u8, u8, u8))> {
    seq![
        ("title"@, (255u8, 107u8, 107u8)),
        ("file_path"@, (107u8, 107u8, 255u8)),
        ("keyword"@, (255u8, 107u8, 107u8)),
        ("literal_string"@, (107u8, 255u8, 107u8)),
        ("literal_number"@, (255u8, 255u8, 107u8)),
        ("literal_boolean"@, (107u8, 255u8, 255u8)),
        ("type"@, (255u8, 107u8, 255u8)),
        ("nextline"@, (155u8, 155u8, 155u8)),
        ("note"@, (155u8, 155u8, 155u8)),
    ]
}

/// The render-side configuration: the palette mapping color identifiers to
/// RGB triples.
pub struct Config {
    pub color_map: Vec<(String, (u8, u8, u8))>,
}

impl Config {
    /// The built-in default palette; the path argument names the intended
    /// configuration file, which this default ignores.
    pub fn from_file(path: String) -> (r: Config)
        ensures
            r.color_map@.len() == default_color_map().len(),
            forall|k: int|
                0 <= k < r.color_map@.len() ==> (#[trigger] r.color_map@[k]).0@
                    == default_color_map()[k].0 && r.color_map@[k].1 == default_color_map()[k].1,
    {
        let _ = path;
        let mut color_map: Vec<(String, (u8, u8, u8))> = Vec::new();
        color_map.push(("title".to_owned(), (255, 107, 107)));
        color_map.push(("file_path".to_owned(), (107, 107, 255)));
        color_map.push(("keyword".to_owned(), (255, 107, 107)));
        color_map.push(("literal_string".to_owned(), (107, 255, 107)));
        color_map.push(("literal_number".to_owned(), (255, 255, 107)));
        color_map.push(("literal_boolean".to_owned(), (107, 255, 255)));
        color_map.push(("type".to_owned(), (255, 107, 255)));
        color_map.push(("nextline".to_owned(), (155, 155, 155)));
        color_map.push(("note".to_owned(), (155, 155, 155)));
        Config { color_map }
    }
}

} // verus!
