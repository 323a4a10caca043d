//! The highlighter: a single-pass pattern-matching state machine that
//! assigns every token a color tag. It is either scanning, or inside the
//! one open region; ambiguous matches are resolved first-declared-wins and
//! recorded as a warning with a note listing the candidates.

use crate::language_pattern::{
    matching_begin_rules, matching_rule_names, pattern_matches, resolve_color, GrammarView,
    LangHighlighter, RegionView, RuleView,
};
use crate::logger::{LogView, Logger, NoteFor};
use crate::token::{unknown_color, Token, TokenView};
use vstd::prelude::*;
use vstd::string::StringExecFns;

verus! {

/// The token as recolored by the highlighter.
pub open spec fn with_color(t: TokenView, color: Seq<char>) -> TokenView {
    TokenView { color, ..t }
}

/// The color an open region paints: its rule name resolved through the
/// color map.
pub open spec fn region_color(g: GrammarView, r: int) -> Seq<char> {
    resolve_color(g.color_map, g.regions[r].name)
}

/// The warning recorded when several begin patterns match one token.
pub open spec fn ambiguous_begin_warning(text: Seq<char>) -> Seq<char> {
    "There are more than 1 begin patterns can match the token `"@ + text + "`."@
}

/// The warning recorded when several standalone patterns match one token.
pub open spec fn ambiguous_pattern_warning(text: Seq<char>) -> Seq<char> {
    "There are more than 1 patterns can match the token `"@ + text + "`."@
}

/// The rule names joined with a comma and a space.
pub open spec fn joined_names(names: Seq<Seq<char>>) -> Seq<char>
    decreases names.len(),
{
    if names.len() == 0 {
        Seq::empty()
    } else if names.len() == 1 {
        names[0]
    } else {
        joined_names(names.drop_last()) + ", "@ + names.last()
    }
}

/// The note listing all candidate rules of an ambiguous match.
pub open spec fn matched_note(names: Seq<Seq<char>>) -> Seq<char> {
    "Matched patterns: "@ + joined_names(names)
}

/// What one token's step produces: the colored token, the state afterwards
/// (`None` scanning, `Some(r)` inside region `r`), and the diagnostics.
pub struct StepResult {
    pub token: TokenView,
    pub state: Option<int>,
    pub logs: Seq<LogView>,
}

/// What a whole pass produces.
pub struct RunResult {
    pub tokens: Seq<TokenView>,
    pub state: Option<int>,
    pub logs: Seq<LogView>,
}

/// Standalone evaluation: the first matching rule's tag colors the token;
/// more than one match adds a warning and a note; no match leaves the token
/// as it came.
pub open spec fn hl_standalone(g: GrammarView, t: TokenView) -> (TokenView, Seq<LogView>) {
    let m = matching_rule_names(g.standalone, t.text);
    if m.len() == 0 {
        (t, Seq::empty())
    } else {
        let logs: Seq<LogView> = if m.len() > 1 {
            seq![
                LogView::Warn(ambiguous_pattern_warning(t.text)),
                LogView::Note(matched_note(m), NoteFor::Warn),
            ]
        } else {
            Seq::empty()
        };
        ((with_color(t, resolve_color(g.color_map, m[0]))), logs)
    }
}

/// Scanning evaluation: every begin pattern is tried in declaration order;
/// the first match opens its region (warning plus note when ambiguous) and
/// colors the token only when the rule includes its opening delimiter,
/// otherwise — and when no begin pattern matches — the token falls through
/// to standalone evaluation.
pub open spec fn hl_scan(g: GrammarView, t: TokenView) -> StepResult {
    let mb = matching_begin_rules(g.regions, t.text);
    if mb.len() > 0 {
        let begin_logs: Seq<LogView> = if mb.len() > 1 {
            seq![
                LogView::Warn(ambiguous_begin_warning(t.text)),
                LogView::Note(
                    matched_note(mb.map_values(|p: (Seq<char>, int)| p.0)),
                    NoteFor::Warn,
                ),
            ]
        } else {
            Seq::empty()
        };
        let r = mb[0].1;
        if g.regions[r].include_first {
            StepResult {
                token: with_color(t, resolve_color(g.color_map, mb[0].0)),
                state: Some(r),
                logs: begin_logs,
            }
        } else {
            let (t2, logs2) = hl_standalone(g, t);
            StepResult { token: t2, state: Some(r), logs: begin_logs + logs2 }
        }
    } else {
        let (t2, logs2) = hl_standalone(g, t);
        StepResult { token: t2, state: None, logs: logs2 }
    }
}

/// One token's transition. A token that already carries a resolved color
/// passes through untouched. Inside a region, a token that does not match
/// the end pattern takes the region's color; one that matches it closes the
/// region, taking the region's color only when the rule includes its
/// closing delimiter and otherwise re-entering the scan for this same
/// token.
pub open spec fn hl_step(g: GrammarView, st: Option<int>, t: TokenView) -> StepResult {
    if t.color != unknown_color() {
        StepResult { token: t, state: st, logs: Seq::empty() }
    } else {
        match st {
            Some(r) => {
                if pattern_matches(g.regions[r].end, t.text) {
                    if g.regions[r].include_end {
                        StepResult {
                            token: with_color(t, region_color(g, r)),
                            state: None,
                            logs: Seq::empty(),
                        }
                    } else {
                        hl_scan(g, t)
                    }
                } else {
                    StepResult {
                        token: with_color(t, region_color(g, r)),
                        state: Some(r),
                        logs: Seq::empty(),
                    }
                }
            },
            None => hl_scan(g, t),
        }
    }
}

/// The whole pass, from the given state over the tokens in order.
pub open spec fn hl_run(g: GrammarView, st: Option<int>, toks: Seq<TokenView>) -> RunResult
    decreases toks.len(),
{
    if toks.len() == 0 {
        RunResult { tokens: Seq::empty(), state: st, logs: Seq::empty() }
    } else {
        let prev = hl_run(g, st, toks.drop_last());
        let s = hl_step(g, prev.state, toks.last());
        RunResult { tokens: prev.tokens.push(s.token), state: s.state, logs: prev.logs + s.logs }
    }
}

/// Every matched begin pair holds the index of a region rule whose begin
/// pattern matches the text, together with that rule's name.
pub proof fn lemma_matching_begin_rules(regions: Seq<RegionView>, text: Seq<char>)
    ensures
        forall|k: int|
            0 <= k < matching_begin_rules(regions, text).len() ==> {
                let p = #[trigger] matching_begin_rules(regions, text)[k];
                &&& 0 <= p.1 < regions.len()
                &&& p.0 == regions[p.1].name
                &&& pattern_matches(regions[p.1].begin, text)
            },
    decreases regions.len(),
{
    if regions.len() > 0 {
        lemma_matching_begin_rules(regions.drop_last(), text);
        assert forall|k: int|
            0 <= k < matching_begin_rules(regions, text).len() implies {
            let p = #[trigger] matching_begin_rules(regions, text)[k];
            &&& 0 <= p.1 < regions.len()
            &&& p.0 == regions[p.1].name
            &&& pattern_matches(regions[p.1].begin, text)
        } by {
            let mb = matching_begin_rules(regions, text);
            let rest = matching_begin_rules(regions.drop_last(), text);
            if k < rest.len() {
                assert(rest[k].1 < regions.drop_last().len());
                assert(regions.drop_last()[rest[k].1] == regions[rest[k].1]);
            }
        }
    }
}

fn begin_warn_message(token: &str) -> (r: String)
    ensures
        r@ == ambiguous_begin_warning(token@),
{
    let mut m = "There are more than 1 begin patterns can match the token `".to_owned();
    m.append(token);
    m.append("`.");
    m
}

fn pattern_warn_message(token: &str) -> (r: String)
    ensures
        r@ == ambiguous_pattern_warning(token@),
{
    let mut m = "There are more than 1 patterns can match the token `".to_owned();
    m.append(token);
    m.append("`.");
    m
}

fn note_message_names(names: &Vec<String>) -> (r: String)
    ensures
        r@ == matched_note(names.deep_view()),
{
    let ghost dv = names.deep_view();
    let mut m = "Matched patterns: ".to_owned();
    if names.len() > 0 {
        m.append(names[0].as_str());
        proof {
            assert(dv.take(1) =~= seq![dv[0]]);
        }
        let mut k: usize = 1;
        while k < names.len()
            invariant
                1 <= k <= dv.len(),
                dv.len() == names@.len(),
                dv == names.deep_view(),
                m@ == "Matched patterns: "@ + joined_names(dv.take(k as int)),
            decreases dv.len() - k,
        {
            m.append(", ");
            m.append(names[k].as_str());
            proof {
                assert(dv.take(k + 1).drop_last() =~= dv.take(k as int));
                assert(dv.take(k + 1).last() == dv[k as int]);
                assert(m@ =~= "Matched patterns: "@ + joined_names(dv.take(k + 1)));
            }
            k += 1;
        }
        proof {
            assert(dv.take(dv.len() as int) =~= dv);
        }
    } else {
        proof {
            assert(joined_names(dv) == Seq::<char>::empty());
            assert(m@ =~= "Matched patterns: "@ + joined_names(dv));
        }
    }
    m
}

fn note_message_begins(pairs: &Vec<(String, usize)>) -> (r: String)
    ensures
        r@ == matched_note(Seq::new(pairs@.len() as nat, |k: int| pairs@[k].0@)),
{
    let ghost dv = Seq::new(pairs@.len() as nat, |k: int| pairs@[k].0@);
    let mut m = "Matched patterns: ".to_owned();
    if pairs.len() > 0 {
        m.append(pairs[0].0.as_str());
        proof {
            assert(dv.take(1) =~= seq![dv[0]]);
        }
        let mut k: usize = 1;
        while k < pairs.len()
            invariant
                1 <= k <= dv.len(),
                dv.len() == pairs@.len(),
                dv == Seq::new(pairs@.len() as nat, |j: int| pairs@[j].0@),
                m@ == "Matched patterns: "@ + joined_names(dv.take(k as int)),
            decreases dv.len() - k,
        {
            m.append(", ");
            m.append(pairs[k].0.as_str());
            proof {
                assert(dv.take(k + 1).drop_last() =~= dv.take(k as int));
                assert(dv.take(k + 1).last() == dv[k as int]);
                assert(m@ =~= "Matched patterns: "@ + joined_names(dv.take(k + 1)));
            }
            k += 1;
        }
        proof {
            assert(dv.take(dv.len() as int) =~= dv);
        }
    } else {
        proof {
            assert(joined_names(dv) == Seq::<char>::empty());
            assert(m@ =~= "Matched patterns: "@ + joined_names(dv));
        }
    }
    m
}

/// The stateful single-pass highlighter over one token sequence.
pub struct Highlighter {
    pub tokens: Vec<Token>,
    pub highlighter: LangHighlighter,
}

impl Highlighter {
    pub fn new(tokens: Vec<Token>, highlighter: LangHighlighter) -> (r: Highlighter)
        ensures
            r.tokens.deep_view() == tokens.deep_view(),
            r.highlighter@ == highlighter@,
    {
        Highlighter { tokens, highlighter }
    }

    /// Colors every token: the result has the same length and order as the
    /// input, every already-colored token passes through unchanged, and the
    /// ambiguity diagnostics are appended to the logger in encounter order.
    pub fn color(&mut self, logger: &mut Logger) -> (r: Vec<Token>)
        ensures
            ({
                let run = hl_run(
                    old(self).highlighter@,
                    None::<int>,
                    old(self).tokens.deep_view(),
                );
                &&& r.deep_view() == run.tokens
                &&& final(logger).logs.deep_view() == old(logger).logs.deep_view() + run.logs
                &&& final(logger).log_level == old(logger).log_level
                &&& final(self).highlighter@ == old(self).highlighter@
                &&& final(self).tokens.deep_view() == old(self).tokens.deep_view()
            }),
    {
        let ghost g = self.highlighter@;
        let ghost toks = self.tokens.deep_view();
        let ghost base_logs = logger.logs.deep_view();
        let mut out: Vec<Token> = Vec::new();
        let mut begin_color: Option<String> = None;
        let mut begin_id: usize = 0;
        let ghost mut emitted: Seq<LogView> = Seq::empty();
        let mut i: usize = 0;
        proof {
            assert(toks.take(0) =~= Seq::<TokenView>::empty());
        }
        while i < self.tokens.len()
            invariant
                self.highlighter@ == g,
                self.tokens.deep_view() == toks,
                toks.len() == self.tokens@.len(),
                i <= toks.len(),
                logger.logs.deep_view() == base_logs + emitted,
                logger.log_level == old(logger).log_level,
                ({
                    let run = hl_run(g, None::<int>, toks.take(i as int));
                    &&& out.deep_view() == run.tokens
                    &&& emitted == run.logs
                    &&& (begin_color matches Some(c) ==> run.state == Some(begin_id as int)
                        && (begin_id as int) < g.regions.len() && c@ == g.regions[
                        begin_id as int
                    ].name)
                    &&& (begin_color is None ==> run.state is None)
                }),
            decreases toks.len() - i,
        {
            let token = self.tokens[i].clone();
            let ghost t = toks[i as int];
            let ghost st0 = hl_run(g, None::<int>, toks.take(i as int)).state;
            let ghost step = hl_step(g, st0, t);
            proof {
                assert(t == self.tokens@[i as int]@);
                assert(toks.take(i + 1).drop_last() =~= toks.take(i as int));
                assert(toks.take(i + 1).last() == t);
            }
            let mut handled = false;
            if token.colored() {
                out.push(token);
                handled = true;
                proof {
                    assert(step.token == t);
                    assert(step.logs =~= Seq::<LogView>::empty());
                }
            } else {
                let mut in_region = false;
                match &begin_color {
                    Some(begin_c) => {
                        in_region = true;
                        let matched = self.highlighter.end_pattern(token.as_str(), begin_id);
                        if matched {
                            if self.highlighter.include_end(begin_id) {
                                let mut colored_token = token;
                                let c = self.highlighter.getcolor_or_tag(begin_c);
                                colored_token.color(c);
                                out.push(colored_token);
                                begin_color = None;
                                handled = true;
                            } else {
                                begin_color = None;
                            }
                        } else {
                            let mut colored_token = token.clone();
                            let c = self.highlighter.getcolor_or_tag(begin_c);
                            colored_token.color(c);
                            out.push(colored_token);
                            handled = true;
                        }
                    },
                    None => {},
                }
                if !handled {
                    // scanning: try every begin pattern in declaration order
                    let token = self.tokens[i].clone();
                    proof {
                        lemma_matching_begin_rules(g.regions, t.text);
                    }
                    let matched_b = self.highlighter.begin_patterns(token.as_str());
                    if matched_b.len() > 0 {
                        if matched_b.len() > 1 {
                            logger.warn(begin_warn_message(token.as_str()));
                            logger.note(note_message_begins(&matched_b), NoteFor::Warn);
                            proof {
                                let mb = matching_begin_rules(g.regions, t.text);
                                assert(Seq::new(matched_b@.len() as nat, |k: int| matched_b@[k].0@)
                                    =~= mb.map_values(|p: (Seq<char>, int)| p.0));
                                emitted = emitted + seq![
                                    LogView::Warn(ambiguous_begin_warning(t.text)),
                                    LogView::Note(
                                        matched_note(mb.map_values(|p: (Seq<char>, int)| p.0)),
                                        NoteFor::Warn,
                                    ),
                                ];
                                assert(logger.logs.deep_view() =~= base_logs + emitted);
                            }
                        }
                        begin_color = Some(matched_b[0].0.clone());
                        begin_id = matched_b[0].1;
                        if self.highlighter.include_first(begin_id) {
                            let mut colored_token = token;
                            let c = self.highlighter.getcolor_or_tag(
                                begin_color.as_ref().unwrap(),
                            );
                            colored_token.color(c);
                            out.push(colored_token);
                            handled = true;
                        }
                    }
                    if !handled {
                        // standalone rules, first declared wins
                        let token = self.tokens[i].clone();
                        let matched = self.highlighter.patterns(token.as_str());
                        if matched.len() == 0 {
                            out.push(token);
                        } else {
                            if matched.len() > 1 {
                                logger.warn(pattern_warn_message(token.as_str()));
                                logger.note(note_message_names(&matched), NoteFor::Warn);
                                proof {
                                    let m = matching_rule_names(g.standalone, t.text);
                                    emitted = emitted + seq![
                                        LogView::Warn(ambiguous_pattern_warning(t.text)),
                                        LogView::Note(matched_note(m), NoteFor::Warn),
                                    ];
                                    assert(logger.logs.deep_view() =~= base_logs + emitted);
                                }
                            }
                            let mut colored_token = token;
                            let c = self.highlighter.getcolor_or_tag(&matched[0]);
                            colored_token.color(c);
                            out.push(colored_token);
                        }
                        handled = true;
                    }
                }
            }
            proof {
                let run0 = hl_run(g, None::<int>, toks.take(i as int));
                let run1 = hl_run(g, None::<int>, toks.take(i + 1));
                assert(run1.tokens == run0.tokens.push(step.token));
                assert(run1.logs == run0.logs + step.logs);
                assert(run1.state == step.state);
                assert(out.deep_view() =~= run1.tokens);
                assert(emitted =~= run1.logs);
            }
            i += 1;
        }
        proof {
            assert(toks.take(i as int) =~= toks);
        }
        out
    }
}

/// The pass emits exactly one output token per input token.
pub proof fn lemma_hl_run_len(g: GrammarView, st: Option<int>, toks: Seq<TokenView>)
    ensures
        hl_run(g, st, toks).tokens.len() == toks.len(),
    decreases toks.len(),
{
    if toks.len() > 0 {
        lemma_hl_run_len(g, st, toks.drop_last());
    }
}

/// Law (idempotence of already-colored tokens): a token that enters the
/// highlighter with a resolved color is returned unchanged — text, range
/// and color identical — whatever the grammar and the surrounding tokens.
pub proof fn lemma_colored_token_unchanged(
    g: GrammarView,
    st: Option<int>,
    toks: Seq<TokenView>,
    k: int,
)
    requires
        0 <= k < toks.len(),
        toks[k].color != unknown_color(),
    ensures
        hl_run(g, st, toks).tokens.len() == toks.len(),
        hl_run(g, st, toks).tokens[k] == toks[k],
    decreases toks.len(),
{
    lemma_hl_run_len(g, st, toks);
    let prev = hl_run(g, st, toks.drop_last());
    lemma_hl_run_len(g, st, toks.drop_last());
    if k < toks.len() - 1 {
        lemma_colored_token_unchanged(g, st, toks.drop_last(), k);
    }
}

/// Law (determinism): the pass is a function of the grammar, the starting
/// state and the token sequence alone — two runs over equal inputs give
/// equal colored output and equal diagnostics.
pub proof fn lemma_highlight_deterministic(
    g1: GrammarView,
    g2: GrammarView,
    st1: Option<int>,
    st2: Option<int>,
    t1: Seq<TokenView>,
    t2: Seq<TokenView>,
)
    requires
        g1 == g2,
        st1 == st2,
        t1 == t2,
    ensures
        hl_run(g1, st1, t1) == hl_run(g2, st2, t2),
{
}

/// A rule that matches puts its name into the match list.
proof fn lemma_matching_rule_names_nonempty(rules: Seq<RuleView>, text: Seq<char>, j: int)
    requires
        0 <= j < rules.len(),
        pattern_matches(rules[j].regex, text),
    ensures
        matching_rule_names(rules, text).len() >= 1,
    decreases rules.len(),
{
    if j < rules.len() - 1 {
        lemma_matching_rule_names_nonempty(rules.drop_last(), text, j);
    }
}

/// Two distinct matching rules give at least two entries.
proof fn lemma_matching_rule_names_two(rules: Seq<RuleView>, text: Seq<char>, j: int, l: int)
    requires
        0 <= j < l < rules.len(),
        pattern_matches(rules[j].regex, text),
        pattern_matches(rules[l].regex, text),
    ensures
        matching_rule_names(rules, text).len() >= 2,
    decreases rules.len(),
{
    if l < rules.len() - 1 {
        lemma_matching_rule_names_two(rules.drop_last(), text, j, l);
    } else {
        lemma_matching_rule_names_nonempty(rules.drop_last(), text, j);
    }
}

/// The first entry of the match list is the first matching rule's name.
proof fn lemma_matching_rule_names_first(rules: Seq<RuleView>, text: Seq<char>, j: int)
    requires
        0 <= j < rules.len(),
        pattern_matches(rules[j].regex, text),
        forall|l: int| 0 <= l < j ==> !pattern_matches((#[trigger] rules[l]).regex, text),
    ensures
        matching_rule_names(rules, text).len() >= 1,
        matching_rule_names(rules, text)[0] == rules[j].name,
    decreases rules.len(),
{
    if j < rules.len() - 1 {
        lemma_matching_rule_names_first(rules.drop_last(), text, j);
    } else {
        if matching_rule_names(rules.drop_last(), text).len() > 0 {
            lemma_matching_rule_names_all_match(rules.drop_last(), text);
            assert(false);
        }
    }
}

/// A non-empty match list means some rule matched.
proof fn lemma_matching_rule_names_all_match(rules: Seq<RuleView>, text: Seq<char>)
    requires
        matching_rule_names(rules, text).len() > 0,
    ensures
        exists|l: int|
            0 <= l < rules.len() && pattern_matches((#[trigger] rules[l]).regex, text),
    decreases rules.len(),
{
    if rules.len() > 0 {
        if pattern_matches(rules.last().regex, text) {
            assert(pattern_matches((rules[rules.len() - 1]).regex, text));
        } else {
            lemma_matching_rule_names_all_match(rules.drop_last(), text);
            let l = choose|l: int|
                0 <= l < rules.drop_last().len() && pattern_matches(
                    (#[trigger] rules.drop_last()[l]).regex,
                    text,
                );
            assert(pattern_matches((rules[l]).regex, text));
        }
    }
}

/// The first entry of the begin-match list names the first region rule
/// whose begin pattern matches.
proof fn lemma_matching_begin_first(regions: Seq<RegionView>, text: Seq<char>, r: int)
    requires
        0 <= r < regions.len(),
        pattern_matches(regions[r].begin, text),
        forall|l: int| 0 <= l < r ==> !pattern_matches((#[trigger] regions[l]).begin, text),
    ensures
        matching_begin_rules(regions, text).len() >= 1,
        matching_begin_rules(regions, text)[0] == (regions[r].name, r),
    decreases regions.len(),
{
    if r < regions.len() - 1 {
        lemma_matching_begin_first(regions.drop_last(), text, r);
    } else {
        lemma_matching_begin_rules(regions.drop_last(), text);
        if matching_begin_rules(regions.drop_last(), text).len() > 0 {
            let p = matching_begin_rules(regions.drop_last(), text)[0];
            assert(pattern_matches(regions.drop_last()[p.1].begin, text));
            assert(regions.drop_last()[p.1] == regions[p.1]);
            assert(false);
        }
    }
}

/// Law (ambiguity tie-break): when two standalone rules both match an
/// uncolored token while scanning with no begin pattern matching, the rule
/// declared first decides the color, and exactly one ambiguity warning,
/// with one note, is recorded for that token.
pub proof fn lemma_first_match_wins(g: GrammarView, t: TokenView, j: int, l: int)
    requires
        t.color == unknown_color(),
        matching_begin_rules(g.regions, t.text).len() == 0,
        0 <= j < l < g.standalone.len(),
        pattern_matches(g.standalone[j].regex, t.text),
        pattern_matches(g.standalone[l].regex, t.text),
        forall|m: int| 0 <= m < j ==> !pattern_matches((#[trigger] g.standalone[m]).regex, t.text),
    ensures
        hl_step(g, None::<int>, t).token == with_color(
            t,
            resolve_color(g.color_map, g.standalone[j].name),
        ),
        hl_step(g, None::<int>, t).logs == seq![
            LogView::Warn(ambiguous_pattern_warning(t.text)),
            LogView::Note(matched_note(matching_rule_names(g.standalone, t.text)), NoteFor::Warn),
        ],
{
    lemma_matching_rule_names_first(g.standalone, t.text, j);
    lemma_matching_rule_names_two(g.standalone, t.text, j, l);
}

/// Law (region lifecycle): a region rule that includes both delimiters
/// colors the opening token, every token inside, and the closing token
/// with its tag, and the machine is scanning again afterwards.
pub proof fn lemma_region_lifecycle(
    g: GrammarView,
    t0: TokenView,
    t1: TokenView,
    t2: TokenView,
    r: int,
)
    requires
        0 <= r < g.regions.len(),
        g.regions[r].include_first,
        g.regions[r].include_end,
        t0.color == unknown_color(),
        t1.color == unknown_color(),
        t2.color == unknown_color(),
        pattern_matches(g.regions[r].begin, t0.text),
        forall|l: int| 0 <= l < r ==> !pattern_matches((#[trigger] g.regions[l]).begin, t0.text),
        !pattern_matches(g.regions[r].end, t1.text),
        pattern_matches(g.regions[r].end, t2.text),
    ensures
        ({
            let run = hl_run(g, None::<int>, seq![t0, t1, t2]);
            &&& run.tokens == seq![
                with_color(t0, region_color(g, r)),
                with_color(t1, region_color(g, r)),
                with_color(t2, region_color(g, r)),
            ]
            &&& run.state is None
        }),
{
    reveal_with_fuel(hl_run, 5);
    lemma_matching_begin_first(g.regions, t0.text, r);
    let toks = seq![t0, t1, t2];
    assert(toks.drop_last() =~= seq![t0, t1]);
    assert(seq![t0, t1].drop_last() =~= seq![t0]);
    assert(seq![t0].drop_last() =~= Seq::<TokenView>::empty());
    let run = hl_run(g, None::<int>, toks);
    assert(run.tokens =~= seq![
        with_color(t0, region_color(g, r)),
        with_color(t1, region_color(g, r)),
        with_color(t2, region_color(g, r)),
    ]);
}

/// Law (region exclusive boundaries): a region rule that includes neither
/// delimiter leaves the opening and closing tokens to standalone or
/// default evaluation and colors only the tokens inside; the closing token
/// must open no region of its own for the machine to be scanning again.
pub proof fn lemma_region_exclusive_boundaries(
    g: GrammarView,
    t0: TokenView,
    t1: TokenView,
    t2: TokenView,
    r: int,
)
    requires
        0 <= r < g.regions.len(),
        !g.regions[r].include_first,
        !g.regions[r].include_end,
        t0.color == unknown_color(),
        t1.color == unknown_color(),
        t2.color == unknown_color(),
        pattern_matches(g.regions[r].begin, t0.text),
        forall|l: int| 0 <= l < r ==> !pattern_matches((#[trigger] g.regions[l]).begin, t0.text),
        !pattern_matches(g.regions[r].end, t1.text),
        pattern_matches(g.regions[r].end, t2.text),
        matching_begin_rules(g.regions, t2.text).len() == 0,
    ensures
        ({
            let run = hl_run(g, None::<int>, seq![t0, t1, t2]);
            &&& run.tokens == seq![
                hl_standalone(g, t0).0,
                with_color(t1, region_color(g, r)),
                hl_standalone(g, t2).0,
            ]
            &&& run.state is None
        }),
{
    reveal_with_fuel(hl_run, 5);
    lemma_matching_begin_first(g.regions, t0.text, r);
    let toks = seq![t0, t1, t2];
    assert(toks.drop_last() =~= seq![t0, t1]);
    assert(seq![t0, t1].drop_last() =~= seq![t0]);
    assert(seq![t0].drop_last() =~= Seq::<TokenView>::empty());
    let run = hl_run(g, None::<int>, toks);
    assert(run.tokens =~= seq![
        hl_standalone(g, t0).0,
        with_color(t1, region_color(g, r)),
        hl_standalone(g, t2).0,
    ]);
}

/// Law (unterminated region): a region opened but never closed colors
/// every remaining uncolored token with the region's tag, records no
/// diagnostic, and the run ends without error, still inside the region.
pub proof fn lemma_unterminated_region(g: GrammarView, r: int, toks: Seq<TokenView>)
    requires
        0 <= r < g.regions.len(),
        forall|k: int| 0 <= k < toks.len() ==> (#[trigger] toks[k]).color == unknown_color(),
        forall|k: int|
            0 <= k < toks.len() ==> !pattern_matches(g.regions[r].end, (#[trigger] toks[k]).text),
    ensures
        ({
            let run = hl_run(g, Some(r), toks);
            &&& run.tokens.len() == toks.len()
            &&& forall|k: int|
                0 <= k < toks.len() ==> run.tokens[k] == with_color(
                    (#[trigger] toks[k]),
                    region_color(g, r),
                )
            &&& run.state == Some(r)
            &&& run.logs == Seq::<LogView>::empty()
        }),
    decreases toks.len(),
{
    if toks.len() > 0 {
        let n = toks.len() - 1;
        assert(toks[n as int].color == unknown_color());
        assert(!pattern_matches(g.regions[r].end, toks[n as int].text));
        assert(toks.last() == toks[n as int]);
        assert forall|k: int| 0 <= k < toks.drop_last().len() implies (#[trigger] toks.drop_last()[k])
            == toks[k] by {}
        lemma_unterminated_region(g, r, toks.drop_last());
        let run = hl_run(g, Some(r), toks);
        let prev = hl_run(g, Some(r), toks.drop_last());
        assert(run.logs =~= Seq::<LogView>::empty());
        assert forall|k: int| 0 <= k < toks.len() implies run.tokens[k] == with_color(
            (#[trigger] toks[k]),
            region_color(g, r),
        ) by {
            let s = hl_step(g, prev.state, toks.last());
            assert(prev.tokens.len() == n as int);
            if k < toks.len() - 1 {
                assert(run.tokens[k] == prev.tokens[k]);
                assert(prev.tokens[k] == with_color(toks.drop_last()[k], region_color(g, r)));
            } else {
                assert(prev.state == Some(r));
                assert(s.token == with_color(toks[n as int], region_color(g, r)));
                assert(run.tokens[k] == s.token);
            }
        }
    }
}

} // verus!
