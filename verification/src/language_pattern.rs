//! The grammar model: a color map from tag names to color identifiers, an
//! ordered list of named standalone regex rules, and an ordered list of named
//! begin/end region rules. Pattern evaluation goes through a lazily populated
//! cache of compiled patterns, keyed by the pattern text.

use std::collections::HashMap;
use vstd::prelude::*;

verus! {

/// Whether the pattern text compiles as a regular expression. What
/// `regex::Regex::new` accepts depends on the pattern text alone.
pub uninterp spec fn regex_ok(pattern: Seq<char>) -> bool;

/// Whether the regular expression given by the pattern text matches anywhere
/// in the text. What `regex::Regex::is_match` returns depends on the pattern
/// text and the searched text alone.
pub uninterp spec fn regex_match(pattern: Seq<char>, text: Seq<char>) -> bool;

/// How a rule pattern decides a token: a pattern that does not compile
/// matches nothing.
pub open spec fn pattern_matches(pattern: Seq<char>, text: Seq<char>) -> bool {
    regex_ok(pattern) && regex_match(pattern, text)
}

#[verifier::external_type_specification]
#[verifier::external_body]
pub struct ExRegex(regex::Regex);

/// The lazily populated compiled-pattern cache, keyed by pattern text. The
/// field is private: every entry was put there by `is_match` below, so each
/// entry holds the compiled form of exactly its key.
pub struct RegexCache {
    map: HashMap<String, regex::Regex>,
}

impl RegexCache {
    pub fn new() -> (r: RegexCache) {
        RegexCache { map: HashMap::new() }
    }

    /// Relies on `regex::Regex::new` and `regex::Regex::is_match`: whether a
    /// pattern compiles is a function of the pattern text alone, and whether
    /// a compiled pattern matches a text is a function of the pattern text
    /// and the searched text alone. The map memoizes compilation only: an
    /// entry is inserted exactly when its key compiled.
    #[verifier::external_body]
    fn is_match(&mut self, pattern: &str, text: &str) -> (r: Option<bool>)
        ensures
            r is Some <==> regex_ok(pattern@),
            r is Some ==> r.unwrap() == regex_match(pattern@, text@),
    {
        match self.map.get(pattern) {
            Some(re) => Some(re.is_match(text)),
            None => match regex::Regex::new(pattern) {
                Ok(re) => {
                    let m = re.is_match(text);
                    self.map.insert(pattern.to_string(), re);
                    Some(m)
                },
                Err(_) => None,
            },
        }
    }
}

/// A named standalone rule: the rule's tag and the pattern that selects the
/// tokens it colors.
pub struct PatternRegex {
    pub name: String,
    pub regex: String,
}

/// The mathematical value of a standalone rule.
pub struct RuleView {
    pub name: Seq<char>,
    pub regex: Seq<char>,
}

impl View for PatternRegex {
    type V = RuleView;

    open spec fn view(&self) -> RuleView {
        RuleView { name: self.name@, regex: self.regex@ }
    }
}

impl DeepView for PatternRegex {
    type V = RuleView;

    open spec fn deep_view(&self) -> RuleView {
        self.view()
    }
}

/// A named region rule: the patterns that open and close the region, and
/// whether the opening and closing delimiter tokens take the region's tag.
pub struct PatternBeginEnd {
    pub name: String,
    pub begin: String,
    pub end: String,
    pub include_first: bool,
    pub include_end: bool,
}

/// The mathematical value of a region rule.
pub struct RegionView {
    pub name: Seq<char>,
    pub begin: Seq<char>,
    pub end: Seq<char>,
    pub include_first: bool,
    pub include_end: bool,
}

impl View for PatternBeginEnd {
    type V = RegionView;

    open spec fn view(&self) -> RegionView {
        RegionView {
            name: self.name@,
            begin: self.begin@,
            end: self.end@,
            include_first: self.include_first,
            include_end: self.include_end,
        }
    }
}

impl DeepView for PatternBeginEnd {
    type V = RegionView;

    open spec fn deep_view(&self) -> RegionView {
        self.view()
    }
}

/// A language's highlighting rules, built once per run by an external
/// loader and immutable afterwards.
pub struct LangPatterns {
    pub color_map: Vec<(String, String)>,
    pub pattern_regex: Vec<PatternRegex>,
    pub pattern_begin_end: Vec<PatternBeginEnd>,
}

/// The mathematical value of a grammar.
pub struct GrammarView {
    pub color_map: Seq<(Seq<char>, Seq<char>)>,
    pub standalone: Seq<RuleView>,
    pub regions: Seq<RegionView>,
}

impl GrammarView {
    /// Every pattern of the grammar compiles.
    pub open spec fn wf(self) -> bool {
        &&& forall|i: int| 0 <= i < self.standalone.len() ==> regex_ok(#[trigger] self.standalone[i].regex)
        &&& forall|i: int|
            0 <= i < self.regions.len() ==> regex_ok(#[trigger] self.regions[i].begin) && regex_ok(
                self.regions[i].end,
            )
    }
}

impl View for LangPatterns {
    type V = GrammarView;

    open spec fn view(&self) -> GrammarView {
        GrammarView {
            color_map: self.color_map.deep_view(),
            standalone: self.pattern_regex.deep_view(),
            regions: self.pattern_begin_end.deep_view(),
        }
    }
}

impl LangPatterns {
    /// A grammar from its parts: the tag-to-identifier map, the standalone
    /// rules in declaration order, and the region rules in declaration order.
    pub fn new(
        color_map: Vec<(String, String)>,
        pattern_regex: Vec<PatternRegex>,
        pattern_begin_end: Vec<PatternBeginEnd>,
    ) -> (r: LangPatterns)
        ensures
            r@ == (GrammarView {
                color_map: color_map.deep_view(),
                standalone: pattern_regex.deep_view(),
                regions: pattern_begin_end.deep_view(),
            }),
    {
        LangPatterns { color_map, pattern_regex, pattern_begin_end }
    }
}

/// Whether the color map has an entry for the tag.
pub open spec fn has_color(cm: Seq<(Seq<char>, Seq<char>)>, tag: Seq<char>) -> bool
    decreases cm.len(),
{
    cm.len() != 0 && (cm[0].0 == tag || has_color(cm.drop_first(), tag))
}

/// The two-step resolution of a tag to a color identifier: the first entry
/// of the color map for the tag, or the tag text itself when the map has
/// none.
pub open spec fn resolve_color(cm: Seq<(Seq<char>, Seq<char>)>, tag: Seq<char>) -> Seq<char>
    decreases cm.len(),
{
    if cm.len() == 0 {
        tag
    } else if cm[0].0 == tag {
        cm[0].1
    } else {
        resolve_color(cm.drop_first(), tag)
    }
}

/// The names of the standalone rules whose patterns match the text, in
/// declaration order.
pub open spec fn matching_rule_names(rules: Seq<RuleView>, text: Seq<char>) -> Seq<Seq<char>>
    decreases rules.len(),
{
    if rules.len() == 0 {
        Seq::empty()
    } else {
        let rest = matching_rule_names(rules.drop_last(), text);
        if pattern_matches(rules.last().regex, text) {
            rest.push(rules.last().name)
        } else {
            rest
        }
    }
}

/// The names and indices of the region rules whose begin patterns match the
/// text, in declaration order.
pub open spec fn matching_begin_rules(regions: Seq<RegionView>, text: Seq<char>) -> Seq<
    (Seq<char>, int),
>
    decreases regions.len(),
{
    if regions.len() == 0 {
        Seq::empty()
    } else {
        let rest = matching_begin_rules(regions.drop_last(), text);
        if pattern_matches(regions.last().begin, text) {
            rest.push((regions.last().name, regions.len() - 1))
        } else {
            rest
        }
    }
}

/// The grammar model with its lazily populated compiled-pattern cache. The
/// cache is a memoized derived structure: it never changes what the grammar
/// says.
pub struct LangHighlighter {
    pub regex_map: RegexCache,
    pub lang_patterns: LangPatterns,
}

impl View for LangHighlighter {
    type V = GrammarView;

    open spec fn view(&self) -> GrammarView {
        self.lang_patterns@
    }
}

impl LangHighlighter {
    /// Wraps a grammar with an empty pattern cache.
    pub fn new(lang_patterns: LangPatterns) -> (r: LangHighlighter)
        ensures
            r@ == lang_patterns@,
    {
        LangHighlighter { regex_map: RegexCache::new(), lang_patterns }
    }

    /// Whether every pattern of the grammar compiles; a grammar that fails
    /// this check is malformed and must be rejected before a run starts.
    pub fn validate(&mut self) -> (r: bool)
        ensures
            r == old(self)@.wf(),
            final(self)@ == old(self)@,
    {
        // `is_match` answers `None` exactly when its pattern does not
        // compile, so probing each pattern against the empty text checks
        // compilability
        let ghost g = self@;
        let mut ok = true;
        let mut i: usize = 0;
        while i < self.lang_patterns.pattern_regex.len()
            invariant
                self@ == g,
                0 <= i <= g.standalone.len(),
                ok == forall|k: int| 0 <= k < i ==> regex_ok(#[trigger] g.standalone[k].regex),
            decreases g.standalone.len() - i,
        {
            let pat = self.lang_patterns.pattern_regex[i].regex.clone();
            proof {
                assert(g.standalone[i as int] == self.lang_patterns.pattern_regex@[i as int].deep_view());
                assert(g.standalone[i as int].regex == pat@);
            }
            if self.regex_map.is_match(pat.as_str(), "").is_none() {
                ok = false;
            }
            i += 1;
        }
        let mut j: usize = 0;
        let mut regions_ok = true;
        while j < self.lang_patterns.pattern_begin_end.len()
            invariant
                self@ == g,
                0 <= j <= g.regions.len(),
                regions_ok == forall|k: int|
                    0 <= k < j ==> regex_ok(#[trigger] g.regions[k].begin) && regex_ok(
                        g.regions[k].end,
                    ),
            decreases g.regions.len() - j,
        {
            let begin = self.lang_patterns.pattern_begin_end[j].begin.clone();
            let end = self.lang_patterns.pattern_begin_end[j].end.clone();
            proof {
                assert(g.regions[j as int] == self.lang_patterns.pattern_begin_end@[j as int].deep_view());
                assert(g.regions[j as int].begin == begin@);
                assert(g.regions[j as int].end == end@);
            }
            let b_ok = self.regex_map.is_match(begin.as_str(), "").is_some();
            let e_ok = self.regex_map.is_match(end.as_str(), "").is_some();
            proof {
                assert(b_ok == regex_ok(g.regions[j as int].begin));
                assert(e_ok == regex_ok(g.regions[j as int].end));
            }
            let new_ok = regions_ok && b_ok && e_ok;
            proof {
                if new_ok {
                    assert forall|k: int|
                        0 <= k < j + 1 implies regex_ok(#[trigger] g.regions[k].begin) && regex_ok(
                        g.regions[k].end,
                    ) by {}
                } else if regions_ok {
                    assert(!(regex_ok(g.regions[j as int].begin) && regex_ok(
                        g.regions[j as int].end,
                    )));
                } else {
                    let k0 = choose|k: int|
                        0 <= k < j && !(regex_ok(#[trigger] g.regions[k].begin) && regex_ok(
                            g.regions[k].end,
                        ));
                    assert(!(regex_ok(g.regions[k0].begin) && regex_ok(g.regions[k0].end)));
                }
            }
            regions_ok = new_ok;
            j += 1;
        }
        ok && regions_ok
    }

    /// The color identifier recorded for the tag, when the color map has one.
    pub fn try_getcolor(&self, color: &String) -> (r: Option<&String>)
        ensures
            r is Some <==> has_color(self@.color_map, color@),
            r is Some ==> r.unwrap()@ == resolve_color(self@.color_map, color@),
    {
        let ghost cm = self@.color_map;
        proof {
            assert(cm.skip(0) =~= cm);
        }
        let mut i: usize = 0;
        while i < self.lang_patterns.color_map.len()
            invariant
                0 <= i <= cm.len(),
                cm == self@.color_map,
                self@.color_map.len() == self.lang_patterns.color_map.len(),
                has_color(cm, color@) == has_color(cm.skip(i as int), color@),
                resolve_color(cm, color@) == resolve_color(cm.skip(i as int), color@),
            decreases cm.len() - i,
        {
            proof {
                assert(cm[i as int] == self.lang_patterns.color_map@[i as int].deep_view());
                assert(cm.skip(i as int)[0] == cm[i as int]);
                assert(cm.skip(i as int).drop_first() =~= cm.skip(i + 1));
            }
            if self.lang_patterns.color_map[i].0 == *color {
                return Some(&self.lang_patterns.color_map[i].1);
            }
            i += 1;
        }
        proof {
            assert(cm.skip(i as int) =~= Seq::<(Seq<char>, Seq<char>)>::empty());
        }
        None
    }

    /// The tag resolved through the color map, falling back to the tag text
    /// itself when the map has no entry: resolution never fails.
    pub fn getcolor_or_tag(&self, color: &String) -> (r: String)
        ensures
            r@ == resolve_color(self@.color_map, color@),
    {
        match self.try_getcolor(color) {
            Some(c) => c.clone(),
            None => {
                proof {
                    lemma_resolve_color_fallback(self@.color_map, color@);
                }
                color.clone()
            },
        }
    }

    /// The names of the standalone rules matching the token, in declaration
    /// order.
    pub fn patterns(&mut self, token: &str) -> (r: Vec<String>)
        ensures
            r.deep_view() == matching_rule_names(old(self)@.standalone, token@),
            final(self)@ == old(self)@,
    {
        let ghost g = self@;
        let mut matched: Vec<String> = Vec::new();
        let mut i: usize = 0;
        while i < self.lang_patterns.pattern_regex.len()
            invariant
                self@ == g,
                0 <= i <= g.standalone.len(),
                matched.deep_view() == matching_rule_names(g.standalone.take(i as int), token@),
            decreases g.standalone.len() - i,
        {
            let pat = self.lang_patterns.pattern_regex[i].regex.clone();
            let name = self.lang_patterns.pattern_regex[i].name.clone();
            let m = self.regex_map.is_match(pat.as_str(), token);
            let is_m = match m {
                Some(b) => b,
                None => false,
            };
            proof {
                assert(g.standalone.take(i + 1).drop_last() =~= g.standalone.take(i as int));
                assert(g.standalone.take(i + 1).last() == g.standalone[i as int]);
            }
            if is_m {
                matched.push(name);
            }
            i += 1;
        }
        proof {
            assert(g.standalone.take(i as int) =~= g.standalone);
        }
        matched
    }

    /// The names and indices of the region rules whose begin patterns match
    /// the token, in declaration order.
    pub fn begin_patterns(&mut self, token: &str) -> (r: Vec<(String, usize)>)
        ensures
            ({
                let mb = matching_begin_rules(old(self)@.regions, token@);
                &&& r@.len() == mb.len()
                &&& forall|k: int|
                    0 <= k < mb.len() ==> (#[trigger] r@[k]).0@ == mb[k].0 && r@[k].1 as int
                        == mb[k].1
            }),
            final(self)@ == old(self)@,
    {
        let ghost g = self@;
        let mut matched: Vec<(String, usize)> = Vec::new();
        let mut i: usize = 0;
        while i < self.lang_patterns.pattern_begin_end.len()
            invariant
                self@ == g,
                0 <= i <= g.regions.len(),
                ({
                    let mb = matching_begin_rules(g.regions.take(i as int), token@);
                    &&& matched@.len() == mb.len()
                    &&& forall|k: int|
                        0 <= k < mb.len() ==> (#[trigger] matched@[k]).0@ == mb[k].0
                            && matched@[k].1 as int == mb[k].1
                }),
            decreases g.regions.len() - i,
        {
            let pat = self.lang_patterns.pattern_begin_end[i].begin.clone();
            let name = self.lang_patterns.pattern_begin_end[i].name.clone();
            let m = self.regex_map.is_match(pat.as_str(), token);
            let is_m = match m {
                Some(b) => b,
                None => false,
            };
            proof {
                assert(g.regions.take(i + 1).drop_last() =~= g.regions.take(i as int));
                assert(g.regions.take(i + 1).last() == g.regions[i as int]);
            }
            if is_m {
                matched.push((name, i));
            }
            i += 1;
        }
        proof {
            assert(g.regions.take(i as int) =~= g.regions);
        }
        matched
    }

    /// Whether the end pattern of the region rule at the index matches the
    /// token.
    pub fn end_pattern(&mut self, token: &str, pattern_id: usize) -> (r: bool)
        requires
            pattern_id < old(self)@.regions.len(),
        ensures
            r == pattern_matches(old(self)@.regions[pattern_id as int].end, token@),
            final(self)@ == old(self)@,
    {
        let pat = self.lang_patterns.pattern_begin_end[pattern_id].end.clone();
        let m = self.regex_map.is_match(pat.as_str(), token);
        match m {
            Some(b) => b,
            None => false,
        }
    }

    /// Whether the region rule at the index colors its opening delimiter.
    pub fn include_first(&self, pattern_id: usize) -> (r: bool)
        requires
            pattern_id < self@.regions.len(),
        ensures
            r == self@.regions[pattern_id as int].include_first,
    {
        self.lang_patterns.pattern_begin_end[pattern_id].include_first
    }

    /// Whether the region rule at the index colors its closing delimiter.
    pub fn include_end(&self, pattern_id: usize) -> (r: bool)
        requires
            pattern_id < self@.regions.len(),
        ensures
            r == self@.regions[pattern_id as int].include_end,
    {
        self.lang_patterns.pattern_begin_end[pattern_id].include_end
    }
}

/// A tag absent from the color map resolves to the tag text itself.
pub proof fn lemma_resolve_color_fallback(cm: Seq<(Seq<char>, Seq<char>)>, tag: Seq<char>)
    requires
        !has_color(cm, tag),
    ensures
        resolve_color(cm, tag) == tag,
    decreases cm.len(),
{
    if cm.len() != 0 {
        lemma_resolve_color_fallback(cm.drop_first(), tag);
    }
}

} // verus!
