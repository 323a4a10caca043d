//! An append-only diagnostics sink with four severities: informational,
//! note (tagged with the severity it annotates), warning and error. The core
//! only ever appends to it; rendering is the caller's business.

use vstd::prelude::*;

verus! {

/// The least severity a caller wants rendered.
#[derive(Copy, Clone, PartialEq, Eq, Structural)]
pub enum LogLevel {
    Never,
    Error,
    Warn,
    All,
}

impl LogLevel {
    /// The numeric rank of this level: entries of a lower rank are skipped
    /// when rendering.
    pub fn level(&self) -> (r: i32)
        ensures
            r == self.level_spec(),
    {
        match self {
            LogLevel::All => 0,
            LogLevel::Warn => 1,
            LogLevel::Error => 2,
            LogLevel::Never => 3,
        }
    }

    pub open spec fn level_spec(self) -> int {
        match self {
            LogLevel::All => 0,
            LogLevel::Warn => 1,
            LogLevel::Error => 2,
            LogLevel::Never => 3,
        }
    }
}

/// Which severity a note annotates.
#[derive(Copy, Clone, PartialEq, Eq, Structural)]
pub enum NoteFor {
    Info,
    Warn,
    Error,
}

/// One diagnostic entry.
pub enum Log {
    Info(String),
    Note(String, NoteFor),
    Warn(String),
    Error(String),
}

/// The mathematical value of one diagnostic entry.
pub enum LogView {
    Info(Seq<char>),
    Note(Seq<char>, NoteFor),
    Warn(Seq<char>),
    Error(Seq<char>),
}

impl View for Log {
    type V = LogView;

    open spec fn view(&self) -> LogView {
        match self {
            Log::Info(m) => LogView::Info(m@),
            Log::Note(m, f) => LogView::Note(m@, *f),
            Log::Warn(m) => LogView::Warn(m@),
            Log::Error(m) => LogView::Error(m@),
        }
    }
}

impl DeepView for Log {
    type V = LogView;

    open spec fn deep_view(&self) -> LogView {
        self.view()
    }
}

impl Log {
    /// The rank of the entry: a note ranks with the severity it annotates.
    pub fn level(&self) -> (r: i32)
        ensures
            r == self@.level_spec(),
    {
        match self {
            Log::Info(_) => 0,
            Log::Warn(_) => 1,
            Log::Error(_) => 2,
            Log::Note(_, n_for) => match n_for {
                NoteFor::Info => 0,
                NoteFor::Warn => 1,
                NoteFor::Error => 2,
            },
        }
    }

    /// The entry's message text.
    pub fn message(&self) -> (r: &String)
        ensures
            r@ == self@.message_spec(),
    {
        match self {
            Log::Info(m) => m,
            Log::Note(m, _) => m,
            Log::Warn(m) => m,
            Log::Error(m) => m,
        }
    }
}

impl LogView {
    pub open spec fn level_spec(self) -> int {
        match self {
            LogView::Info(_) => 0,
            LogView::Warn(_) => 1,
            LogView::Error(_) => 2,
            LogView::Note(_, n_for) => match n_for {
                NoteFor::Info => 0,
                NoteFor::Warn => 1,
                NoteFor::Error => 2,
            },
        }
    }

    pub open spec fn message_spec(self) -> Seq<char> {
        match self {
            LogView::Info(m) => m,
            LogView::Note(m, _) => m,
            LogView::Warn(m) => m,
            LogView::Error(m) => m,
        }
    }

    pub open spec fn is_warn(self) -> bool {
        self is Warn
    }

    pub open spec fn is_error(self) -> bool {
        self is Error
    }
}

/// The diagnostics sink: an ordered list of entries and the level below
/// which a renderer is asked to stay silent.
pub struct Logger {
    pub logs: Vec<Log>,
    pub log_level: LogLevel,
}

impl Logger {
    pub fn new(log_level: LogLevel) -> (r: Logger)
        ensures
            r.logs.deep_view() == Seq::<LogView>::empty(),
            r.log_level == log_level,
    {
        Logger { logs: Vec::new(), log_level }
    }

    pub fn info(&mut self, msg: String)
        ensures
            final(self).logs.deep_view() == old(self).logs.deep_view().push(LogView::Info(msg@)),
            final(self).log_level == old(self).log_level,
    {
        self.logs.push(Log::Info(msg));
    }

    pub fn note(&mut self, msg: String, n_for: NoteFor)
        ensures
            final(self).logs.deep_view() == old(self).logs.deep_view().push(
                LogView::Note(msg@, n_for),
            ),
            final(self).log_level == old(self).log_level,
    {
        self.logs.push(Log::Note(msg, n_for));
    }

    pub fn warn(&mut self, msg: String)
        ensures
            final(self).logs.deep_view() == old(self).logs.deep_view().push(LogView::Warn(msg@)),
            final(self).log_level == old(self).log_level,
    {
        self.logs.push(Log::Warn(msg));
    }

    pub fn error(&mut self, msg: String)
        ensures
            final(self).logs.deep_view() == old(self).logs.deep_view().push(LogView::Error(msg@)),
            final(self).log_level == old(self).log_level,
    {
        self.logs.push(Log::Error(msg));
    }

    pub fn len(&self) -> (r: usize)
        ensures
            r == self.logs.deep_view().len(),
    {
        self.logs.len()
    }

    /// The recorded entries, oldest first.
    pub fn entries(&self) -> (r: &Vec<Log>)
        ensures
            r.deep_view() == self.logs.deep_view(),
    {
        &self.logs
    }
}

} // verus!
