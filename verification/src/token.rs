//! A token: a contiguous run of source bytes, its byte range in the input,
//! and the symbolic color tag it carries.

use vstd::prelude::*;

verus! {

/// The mathematical value of a token: its decoded text, its inclusive byte
/// range in the original input, and its color tag.
pub struct TokenView {
    pub text: Seq<char>,
    pub begin: int,
    pub end: int,
    pub color: Seq<char>,
}

/// The tag a freshly scanned token carries before the highlighter has
/// resolved a color for it.
pub open spec fn unknown_color() -> Seq<char> {
    "unknown"@
}

/// A contiguous run of source bytes with an inclusive byte range and a
/// symbolic color tag. A token starts out tagged `unknown`; the tag is set
/// at most once during a run.
pub struct Token {
    pub token: String,
    pub range: (usize, usize),
    pub color: String,
}

impl View for Token {
    type V = TokenView;

    open spec fn view(&self) -> TokenView {
        TokenView {
            text: self.token@,
            begin: self.range.0 as int,
            end: self.range.1 as int,
            color: self.color@,
        }
    }
}

impl DeepView for Token {
    type V = TokenView;

    open spec fn deep_view(&self) -> TokenView {
        self.view()
    }
}

impl Clone for Token {
    fn clone(&self) -> (r: Token)
        ensures
            r@ == self@,
    {
        Token { token: self.token.clone(), range: self.range, color: self.color.clone() }
    }
}

impl Token {
    /// A new token over the given text and byte range, not yet colored.
    pub fn new(token: String, range: (usize, usize)) -> (r: Token)
        ensures
            r@ == (TokenView {
                text: token@,
                begin: range.0 as int,
                end: range.1 as int,
                color: unknown_color(),
            }),
    {
        Token { token, range, color: "unknown".to_owned() }
    }

    /// Whether a color has already been resolved for this token.
    pub fn colored(&self) -> (r: bool)
        ensures
            r == (self@.color != unknown_color()),
    {
        !(self.color == "unknown".to_owned())
    }

    /// Sets the token's color tag.
    pub fn color(&mut self, color: String)
        ensures
            final(self)@ == (TokenView { color: color@, ..old(self)@ }),
    {
        self.color = color;
    }

    /// The token's text.
    pub fn as_str(&self) -> (r: &str)
        ensures
            r@ == self@.text,
    {
        self.token.as_str()
    }
}

} // verus!
