//! The byte-class lexical scanner: classifies each input byte as an
//! operator symbol, a blank, a newline, a quote symbol or anything else,
//! groups consecutive same-class bytes into tokens with byte-range
//! positions, and drops (with diagnostics) any run that does not decode.

use crate::logger::{LogView, Logger, NoteFor};
use crate::token::{unknown_color, Token, TokenView};
use vstd::prelude::*;
use vstd::utf8::{decode_utf8, encode_utf8, valid_utf8};

verus! {

/// The fixed set of punctuation and symbol bytes that form operator runs:
/// `+ - * / ~ ` ! @ # $ % ^ & ( ) = [ ] { } | ; : ? . , < > \`.
pub open spec fn is_operator_byte(b: u8) -> bool {
    ||| b == 43
    ||| b == 45
    ||| b == 42
    ||| b == 47
    ||| b == 126
    ||| b == 96
    ||| b == 33
    ||| b == 64
    ||| b == 35
    ||| b == 36
    ||| b == 37
    ||| b == 94
    ||| b == 38
    ||| b == 40
    ||| b == 41
    ||| b == 61
    ||| b == 91
    ||| b == 93
    ||| b == 123
    ||| b == 125
    ||| b == 124
    ||| b == 59
    ||| b == 58
    ||| b == 63
    ||| b == 46
    ||| b == 44
    ||| b == 60
    ||| b == 62
    ||| b == 92
}

/// Space (32), tab (9) and carriage return (13) form blank runs.
pub open spec fn is_blank_byte(b: u8) -> bool {
    b == 32 || b == 9 || b == 13
}

/// The line feed byte (10): always a one-byte token, never merged.
pub open spec fn is_newline_byte(b: u8) -> bool {
    b == 10
}

/// Single (39) and double (34) quotes: always one-byte tokens, never
/// merged, so the highlighter can treat each quote character as an
/// independent region delimiter candidate.
pub open spec fn is_quote_byte(b: u8) -> bool {
    b == 39 || b == 34
}

/// The classes of bytes that are grouped into multi-byte runs.
#[derive(Copy, Clone, PartialEq, Eq, Structural)]
pub enum RunClass {
    Operator,
    Blank,
    Other,
}

/// Whether a byte extends a run of the class. An `Other` run keeps going
/// while the next byte is neither an operator symbol nor a blank: it can
/// absorb newline and quote bytes.
pub open spec fn extends_run(c: RunClass, b: u8) -> bool {
    match c {
        RunClass::Operator => is_operator_byte(b),
        RunClass::Blank => is_blank_byte(b),
        RunClass::Other => !is_operator_byte(b) && !is_blank_byte(b),
    }
}

/// The run class a byte opens, for bytes that are not newlines or quotes.
pub open spec fn classify_byte(b: u8) -> RunClass {
    if is_operator_byte(b) {
        RunClass::Operator
    } else if is_blank_byte(b) {
        RunClass::Blank
    } else {
        RunClass::Other
    }
}

/// One past the last index of the run of class `c` that starts at `i`.
pub open spec fn run_end(bytes: Seq<u8>, i: int, c: RunClass) -> int
    decreases bytes.len() - i,
    when 0 <= i <= bytes.len()
{
    if i < bytes.len() && extends_run(c, bytes[i]) {
        run_end(bytes, i + 1, c)
    } else {
        i
    }
}

/// `run_end` stays within bounds, every byte before it extends the run and
/// the byte at it (when any) does not.
pub proof fn lemma_run_end_bounds(bytes: Seq<u8>, i: int, c: RunClass)
    requires
        0 <= i <= bytes.len(),
    ensures
        i <= run_end(bytes, i, c) <= bytes.len(),
        forall|m: int| i <= m < run_end(bytes, i, c) ==> extends_run(c, #[trigger] bytes[m]),
        run_end(bytes, i, c) < bytes.len() ==> !extends_run(c, bytes[run_end(bytes, i, c)]),
    decreases bytes.len() - i,
{
    if i < bytes.len() && extends_run(c, bytes[i]) {
        lemma_run_end_bounds(bytes, i + 1, c);
    }
}

/// `run_end` is the unique boundary: a stretch of extending bytes followed
/// by the end of input or a non-extending byte.
pub proof fn lemma_run_end_is(bytes: Seq<u8>, i: int, j: int, c: RunClass)
    requires
        0 <= i <= j <= bytes.len(),
        forall|m: int| i <= m < j ==> extends_run(c, #[trigger] bytes[m]),
        j == bytes.len() || !extends_run(c, bytes[j]),
    ensures
        run_end(bytes, i, c) == j,
    decreases j - i,
{
    if i < j {
        lemma_run_end_is(bytes, i + 1, j, c);
    }
}

/// The color tag of the structural newline token.
pub open spec fn nextline_color() -> Seq<char> {
    "nextline"@
}

/// The error recorded when a byte run does not decode.
pub open spec fn utf8_error_message() -> Seq<char> {
    "UTF8 Err: Unexpected UTF8 Char."@
}

/// The note recorded alongside that error.
pub open spec fn utf8_note_message() -> Seq<char> {
    "Raw Err: invalid UTF-8 byte run."@
}

/// What scanning emits from position `i` on: the tokens, the final line
/// count, the diagnostics, and the inclusive byte ranges of the runs that
/// were dropped because they do not decode.
pub struct LexResult {
    pub tokens: Seq<TokenView>,
    pub line: int,
    pub logs: Seq<LogView>,
    pub dropped: Seq<(int, int)>,
}

/// The structural newline token at position `i`, pre-colored `nextline`.
pub open spec fn newline_token(i: int) -> TokenView {
    TokenView { text: "\n"@, begin: i, end: i, color: nextline_color() }
}

/// The byte-class scan of `bytes` from position `i`, with the running line
/// count `line`. Newlines and quotes are one-byte tokens; operator, blank
/// and other runs extend greedily; a run that is not well-formed UTF-8 is
/// dropped with an error and a note.
pub open spec fn lex_from(bytes: Seq<u8>, i: int, line: int) -> LexResult
    decreases bytes.len() - i,
    when 0 <= i <= bytes.len()
    via lex_from_decreases
{
    if i >= bytes.len() {
        LexResult { tokens: Seq::empty(), line, logs: Seq::empty(), dropped: Seq::empty() }
    } else if is_newline_byte(bytes[i]) {
        let rest = lex_from(bytes, i + 1, line + 1);
        LexResult {
            tokens: seq![newline_token(i)] + rest.tokens,
            line: rest.line,
            logs: rest.logs,
            dropped: rest.dropped,
        }
    } else {
        let j = if is_quote_byte(bytes[i]) {
            i + 1
        } else {
            run_end(bytes, i + 1, classify_byte(bytes[i]))
        };
        let run = bytes.subrange(i, j);
        let rest = lex_from(bytes, j, line);
        if valid_utf8(run) {
            LexResult {
                tokens: seq![
                    TokenView { text: decode_utf8(run), begin: i, end: j - 1, color: unknown_color() },
                ] + rest.tokens,
                line: rest.line,
                logs: rest.logs,
                dropped: rest.dropped,
            }
        } else {
            LexResult {
                tokens: rest.tokens,
                line: rest.line,
                logs: seq![
                    LogView::Error(utf8_error_message()),
                    LogView::Note(utf8_note_message(), NoteFor::Error),
                ] + rest.logs,
                dropped: seq![(i, j - 1)] + rest.dropped,
            }
        }
    }
}

#[via_fn]
proof fn lex_from_decreases(bytes: Seq<u8>, i: int, line: int) {
    if 0 <= i < bytes.len() && !is_newline_byte(bytes[i]) && !is_quote_byte(bytes[i]) {
        lemma_run_end_bounds(bytes, i + 1, classify_byte(bytes[i]));
    }
}

/// Whether a byte extends a run of the class (executable form).
fn extends_class(c: RunClass, b: u8) -> (r: bool)
    ensures
        r == extends_run(c, b),
{
    match c {
        RunClass::Operator => is_operator(b),
        RunClass::Blank => is_blank(b),
        RunClass::Other => !is_operator(b) && !is_blank(b),
    }
}

fn is_operator(b: u8) -> (r: bool)
    ensures
        r == is_operator_byte(b),
{
    b == 43 || b == 45 || b == 42 || b == 47 || b == 126 || b == 96 || b == 33 || b
        == 64 || b == 35 || b == 36 || b == 37 || b == 94 || b == 38 || b == 40 || b
        == 41 || b == 61 || b == 91 || b == 93 || b == 123 || b == 125 || b == 124 || b
        == 59 || b == 58 || b == 63 || b == 46 || b == 44 || b == 60 || b == 62 || b
        == 92
}

fn is_blank(b: u8) -> (r: bool)
    ensures
        r == is_blank_byte(b),
{
    b == 32 || b == 9 || b == 13
}

fn is_quote(b: u8) -> (r: bool)
    ensures
        r == is_quote_byte(b),
{
    b == 39 || b == 34
}

/// The bytes of `v` in `[begin, end)`, as an owned vector.
fn copy_range(v: &Vec<u8>, begin: usize, end: usize) -> (r: Vec<u8>)
    requires
        begin <= end <= v@.len(),
    ensures
        r@ == v@.subrange(begin as int, end as int),
{
    let mut r: Vec<u8> = Vec::new();
    let mut k: usize = begin;
    while k < end
        invariant
            begin <= k <= end <= v@.len(),
            r@ == v@.subrange(begin as int, k as int),
        decreases end - k,
    {
        r.push(v[k]);
        k += 1;
        proof {
            assert(r@ =~= v@.subrange(begin as int, k as int));
        }
    }
    r
}

/// Relies on `String::from_utf8`: it returns the string whose characters
/// are the UTF-8 decoding of the bytes exactly when the bytes are
/// well-formed UTF-8, and refuses them otherwise.
#[verifier::external_body]
fn utf8_to_string(bytes: Vec<u8>) -> (r: Option<String>)
    ensures
        r is Some <==> valid_utf8(bytes@),
        r is Some ==> r.unwrap()@ == decode_utf8(bytes@),
{
    String::from_utf8(bytes).ok()
}

/// The byte-class scanner over one owned input buffer.
pub struct Tokenizer {
    pub bytes: Vec<u8>,
    pub curr: usize,
}

impl Tokenizer {
    /// A scanner at the start of the buffer.
    pub fn new(bytes: Vec<u8>) -> (r: Tokenizer)
        ensures
            r.bytes == bytes,
            r.curr == 0,
    {
        Tokenizer { bytes, curr: 0 }
    }

    /// Whether an unread byte remains.
    pub fn has_next(&self) -> (r: bool)
        ensures
            r == (self.curr < self.bytes@.len()),
    {
        self.curr < self.bytes.len()
    }

    /// Consumes and returns the next byte.
    pub fn next(&mut self) -> (r: u8)
        requires
            old(self).curr < old(self).bytes@.len(),
        ensures
            r == old(self).bytes@[old(self).curr as int],
            final(self).curr == old(self).curr + 1,
            final(self).bytes == old(self).bytes,
    {
        let b = self.bytes[self.curr];
        let n = self.bytes.len();
        proof {
            assert(self.curr < n);
        }
        self.curr = self.curr + 1;
        b
    }

    /// The next unread byte, without consuming it.
    pub fn peek(&self) -> (r: u8)
        requires
            self.curr < self.bytes@.len(),
        ensures
            r == self.bytes@[self.curr as int],
    {
        self.bytes[self.curr]
    }

    /// Skips the next unread byte.
    pub fn forward(&mut self)
        requires
            old(self).curr < old(self).bytes@.len(),
        ensures
            final(self).curr == old(self).curr + 1,
            final(self).bytes == old(self).bytes,
    {
        let n = self.bytes.len();
        proof {
            assert(self.curr < n);
        }
        self.curr = self.curr + 1;
    }

    /// Scans the rest of the buffer into tokens, appending a diagnostic
    /// pair for every byte run that does not decode, and returns the tokens
    /// together with the line count (one more than the number of newline
    /// tokens emitted).
    pub fn tokenize(&mut self, logger: &mut Logger) -> (r: (Vec<Token>, usize))
        requires
            old(self).curr <= old(self).bytes@.len(),
            old(self).bytes@.len() < usize::MAX,
        ensures
            ({
                let lx = lex_from(old(self).bytes@, old(self).curr as int, 1);
                &&& r.0.deep_view() == lx.tokens
                &&& r.1 as int == lx.line
                &&& final(logger).logs.deep_view() == old(logger).logs.deep_view() + lx.logs
                &&& final(logger).log_level == old(logger).log_level
                &&& final(self).bytes@ == old(self).bytes@
            }),
    {
        let ghost bs = self.bytes@;
        let ghost c0 = self.curr as int;
        let ghost base_logs = logger.logs.deep_view();
        let ghost full = lex_from(bs, c0, 1);
        let mut tokens: Vec<Token> = Vec::new();
        let mut line: usize = 1;
        let ghost mut emitted: Seq<LogView> = Seq::empty();
        proof {
            assert(full.tokens =~= tokens.deep_view() + full.tokens);
            assert(full.logs =~= emitted + full.logs);
        }
        while self.has_next()
            invariant
                self.bytes@ == bs,
                c0 <= self.curr as int <= bs.len(),
                bs.len() < usize::MAX,
                1 <= line as int <= 1 + self.curr as int,
                logger.logs.deep_view() == base_logs + emitted,
                logger.log_level == old(logger).log_level,
                full == lex_from(bs, c0, 1),
                full.tokens == tokens.deep_view() + lex_from(
                    bs,
                    self.curr as int,
                    line as int,
                ).tokens,
                full.line == lex_from(bs, self.curr as int, line as int).line,
                full.logs == emitted + lex_from(bs, self.curr as int, line as int).logs,
            decreases bs.len() - self.curr,
        {
            let ghost i = self.curr as int;
            let ghost line0 = line as int;
            let ghost rem = lex_from(bs, i, line0);
            let curr_b = self.next();
            if curr_b == 10 {
                let begin = self.curr - 1;
                let mut token = Token::new("\n".to_owned(), (begin, begin));
                token.color("nextline".to_owned());
                tokens.push(token);
                line += 1;
                proof {
                    let rest = lex_from(bs, i + 1, line0 + 1);
                    assert(rem.tokens == seq![newline_token(i)] + rest.tokens);
                    assert(tokens.deep_view() =~= tokens.deep_view().take(
                        tokens.deep_view().len() - 1,
                    ).push(newline_token(i)));
                    assert(full.tokens =~= tokens.deep_view() + rest.tokens);
                    assert(full.logs =~= emitted + rest.logs);
                }
            } else {
                // every remaining byte opens a run: quotes span one byte,
                // the other classes extend greedily
                let begin = self.curr - 1;
                let is_q = is_quote(curr_b);
                let ghost c = classify_byte(curr_b);
                if !is_q {
                    let cls = if is_operator(curr_b) {
                        RunClass::Operator
                    } else if is_blank(curr_b) {
                        RunClass::Blank
                    } else {
                        RunClass::Other
                    };
                    while self.has_next() && extends_class(cls, self.peek())
                        invariant
                            self.bytes@ == bs,
                            cls == c,
                            begin + 1 <= self.curr as int <= bs.len(),
                            forall|m: int|
                                begin + 1 <= m < self.curr as int ==> extends_run(
                                    c,
                                    #[trigger] bs[m],
                                ),
                        decreases bs.len() - self.curr,
                    {
                        self.forward();
                    }
                    proof {
                        lemma_run_end_is(bs, begin + 1, self.curr as int, c);
                    }
                }
                let end = self.curr;
                proof {
                    if is_q {
                        assert(end as int == i + 1);
                    } else {
                        assert(end as int == run_end(bs, i + 1, c));
                    }
                }
                let run = copy_range(&self.bytes, begin, end);
                let ghost runv = run@;
                proof {
                    assert(runv == bs.subrange(i, end as int));
                }
                match utf8_to_string(run) {
                    Some(token_string) => {
                        let token = Token::new(token_string, (begin, end - 1));
                        tokens.push(token);
                        proof {
                            let rest = lex_from(bs, end as int, line0);
                            assert(rem.tokens == seq![
                                TokenView {
                                    text: decode_utf8(runv),
                                    begin: i,
                                    end: end - 1,
                                    color: unknown_color(),
                                },
                            ] + rest.tokens);
                            assert(full.tokens =~= tokens.deep_view() + rest.tokens);
                            assert(full.logs =~= emitted + rest.logs);
                        }
                    },
                    None => {
                        logger.error("UTF8 Err: Unexpected UTF8 Char.".to_owned());
                        logger.note("Raw Err: invalid UTF-8 byte run.".to_owned(), NoteFor::Error);
                        proof {
                            let rest = lex_from(bs, end as int, line0);
                            emitted = emitted + seq![
                                LogView::Error(utf8_error_message()),
                                LogView::Note(utf8_note_message(), NoteFor::Error),
                            ];
                            assert(logger.logs.deep_view() =~= base_logs + emitted);
                            assert(full.logs =~= emitted + rest.logs);
                            assert(full.tokens =~= tokens.deep_view() + rest.tokens);
                        }
                    },
                }
            }
        }
        proof {
            let rem = lex_from(bs, self.curr as int, line as int);
            assert(rem.tokens =~= Seq::<TokenView>::empty());
            assert(rem.logs =~= Seq::<LogView>::empty());
            assert(rem.line == line as int);
            assert(full.tokens =~= tokens.deep_view());
            assert(full.logs =~= emitted);
        }
        (tokens, line)
    }
}

/// How many tokens carry the `nextline` tag.
pub open spec fn count_nextline_tokens(tokens: Seq<TokenView>) -> int
    decreases tokens.len(),
{
    if tokens.len() == 0 {
        0
    } else {
        (if tokens[0].color == nextline_color() {
            1int
        } else {
            0int
        }) + count_nextline_tokens(tokens.drop_first())
    }
}

/// The total number of bytes the tokens' inclusive ranges cover.
pub open spec fn tokens_span(tokens: Seq<TokenView>) -> int
    decreases tokens.len(),
{
    if tokens.len() == 0 {
        0
    } else {
        (tokens[0].end - tokens[0].begin + 1) + tokens_span(tokens.drop_first())
    }
}

/// The total number of bytes the dropped inclusive ranges cover.
pub open spec fn dropped_span(dropped: Seq<(int, int)>) -> int
    decreases dropped.len(),
{
    if dropped.len() == 0 {
        0
    } else {
        (dropped[0].1 - dropped[0].0 + 1) + dropped_span(dropped.drop_first())
    }
}

proof fn lemma_line_counting_from(bytes: Seq<u8>, i: int, line: int)
    requires
        0 <= i <= bytes.len(),
    ensures
        lex_from(bytes, i, line).line == line + count_nextline_tokens(lex_from(bytes, i, line).tokens),
    decreases bytes.len() - i,
{
    reveal_strlit("nextline");
    reveal_strlit("unknown");
    let lx = lex_from(bytes, i, line);
    if i >= bytes.len() {
    } else if is_newline_byte(bytes[i]) {
        lemma_line_counting_from(bytes, i + 1, line + 1);
        let rest = lex_from(bytes, i + 1, line + 1);
        assert(lx.tokens.drop_first() =~= rest.tokens);
        assert(lx.tokens[0] == newline_token(i));
    } else {
        let j = if is_quote_byte(bytes[i]) {
            i + 1
        } else {
            run_end(bytes, i + 1, classify_byte(bytes[i]))
        };
        lemma_run_end_bounds(bytes, i + 1, classify_byte(bytes[i]));
        lemma_line_counting_from(bytes, j, line);
        let rest = lex_from(bytes, j, line);
        let run = bytes.subrange(i, j);
        if valid_utf8(run) {
            assert(lx.tokens.drop_first() =~= rest.tokens);
            assert(lx.tokens[0].color == unknown_color());
            assert(unknown_color() != nextline_color());
        } else {
            assert(lx.tokens =~= rest.tokens);
        }
    }
}

/// Law: for every input, the number of `nextline`-tagged tokens plus one
/// equals the returned line count.
pub proof fn lemma_line_counting(bytes: Seq<u8>)
    ensures
        lex_from(bytes, 0, 1).line == 1 + count_nextline_tokens(lex_from(bytes, 0, 1).tokens),
{
    lemma_line_counting_from(bytes, 0, 1);
}

/// The partition shape of a scan from position `i`: token ranges are
/// in-bounds, strictly increasing and pairwise disjoint, each token's text
/// re-encodes to exactly the bytes of its range, dropped ranges are
/// in-bounds, strictly increasing and disjoint from every token range, and
/// together the token and dropped ranges cover every byte from `i` on.
pub open spec fn lex_partitioned(bytes: Seq<u8>, i: int, lx: LexResult) -> bool {
    &&& forall|k: int|
        0 <= k < lx.tokens.len() ==> i <= (#[trigger] lx.tokens[k]).begin <= lx.tokens[k].end
            < bytes.len()
    &&& forall|k: int|
        0 <= k < lx.tokens.len() ==> encode_utf8((#[trigger] lx.tokens[k]).text) == bytes.subrange(
            lx.tokens[k].begin,
            lx.tokens[k].end + 1,
        )
    &&& forall|k: int, l: int|
        0 <= k < l < lx.tokens.len() ==> (#[trigger] lx.tokens[k]).end < (
        #[trigger] lx.tokens[l]).begin
    &&& forall|k: int|
        0 <= k < lx.dropped.len() ==> i <= (#[trigger] lx.dropped[k]).0 <= lx.dropped[k].1
            < bytes.len()
    &&& forall|k: int, l: int|
        0 <= k < l < lx.dropped.len() ==> (#[trigger] lx.dropped[k]).1 < (
        #[trigger] lx.dropped[l]).0
    &&& forall|k: int, l: int|
        0 <= k < lx.tokens.len() && 0 <= l < lx.dropped.len() ==> (#[trigger] lx.tokens[k]).end < (
        #[trigger] lx.dropped[l]).0 || lx.dropped[l].1 < lx.tokens[k].begin
    &&& tokens_span(lx.tokens) + dropped_span(lx.dropped) == bytes.len() - i
}

/// Law: every scan partitions its input — the concatenation of the token
/// texts, in order, re-encodes to the original bytes outside the dropped
/// invalid runs, and the token ranges are disjoint and monotonically
/// increasing.
pub proof fn lemma_tokenize_partition(bytes: Seq<u8>, i: int, line: int)
    requires
        0 <= i <= bytes.len(),
    ensures
        lex_partitioned(bytes, i, lex_from(bytes, i, line)),
    decreases bytes.len() - i,
{
    let lx = lex_from(bytes, i, line);
    if i >= bytes.len() {
    } else if is_newline_byte(bytes[i]) {
        lemma_tokenize_partition(bytes, i + 1, line + 1);
        let rest = lex_from(bytes, i + 1, line + 1);
        assert(lx.tokens.drop_first() =~= rest.tokens);
        assert(lx.tokens[0] == newline_token(i));
        assert(encode_utf8("\n"@) =~= bytes.subrange(i, i + 1)) by {
            reveal_strlit("\n");
            assert("\n"@ =~= seq!['\n']);
            vstd::utf8::is_ascii_chars_encode_utf8("\n"@);
            assert(encode_utf8("\n"@)[0] == 10);
        }
    } else {
        let c = classify_byte(bytes[i]);
        let j = if is_quote_byte(bytes[i]) {
            i + 1
        } else {
            run_end(bytes, i + 1, c)
        };
        lemma_run_end_bounds(bytes, i + 1, c);
        lemma_tokenize_partition(bytes, j, line);
        let rest = lex_from(bytes, j, line);
        let run = bytes.subrange(i, j);
        if valid_utf8(run) {
            assert(lx.tokens.drop_first() =~= rest.tokens);
            assert(lx.dropped =~= rest.dropped);
            assert(encode_utf8(decode_utf8(run)) == run) by {
                vstd::utf8::decode_utf8_encode_utf8(run);
            }
        } else {
            assert(lx.tokens =~= rest.tokens);
            assert(lx.dropped.drop_first() =~= rest.dropped);
        }
    }
}

} // verus!
