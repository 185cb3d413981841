//! The lexer: turns a stream of characters into a stream of tokens.
//!
//! It keeps no line or column information; tokens are plain values.

use vstd::prelude::*;
use vstd::string::StrSliceExecFns;
use vstd::string::StringExecFns;

verus! {

/// The mathematical model of a token: identifier text is a character sequence.
pub enum TokenView {
    /// Anything that is not recognized.
    Illegal,
    /// Produced when the input has ended (or on an embedded NUL character).
    EOF,
    /// A word: a variable name, a type name...
    Ident(Seq<char>),
    /// Left parenthesis.
    ParL,
    /// Right parenthesis.
    ParR,
    /// The ':' character.
    Colon,
    /// The ';' character.
    Semicolon,
    /// The ',' character.
    Comma,
    /// The only keyword of the language, the literal `tipo`.
    Type,
}

/// Token types that the language admits.
///
/// The lexer takes an input text and hands these out one at a time.
#[derive(Debug, PartialEq)]
pub enum Token {
    /// Anything that is not recognized.
    Illegal,
    /// Last token, when the input has ended.
    EOF,
    /// A word: a variable name, a type name...
    Ident(String),
    /// Left parenthesis.
    ParL,
    /// Right parenthesis.
    ParR,
    /// The ':' character.
    Colon,
    /// The ';' character.
    Semicolon,
    /// The ',' character.
    Comma,
    /// The only keyword of the language, the literal `tipo`.
    Type,
}

impl View for Token {
    type V = TokenView;

    open spec fn view(&self) -> TokenView {
        match self {
            Token::Illegal => TokenView::Illegal,
            Token::EOF => TokenView::EOF,
            Token::Ident(s) => TokenView::Ident(s@),
            Token::ParL => TokenView::ParL,
            Token::ParR => TokenView::ParR,
            Token::Colon => TokenView::Colon,
            Token::Semicolon => TokenView::Semicolon,
            Token::Comma => TokenView::Comma,
            Token::Type => TokenView::Type,
        }
    }
}

impl Clone for Token {
    fn clone(&self) -> (r: Self)
        ensures
            r == *self,
    {
        match self {
            Token::Illegal => Token::Illegal,
            Token::EOF => Token::EOF,
            Token::Ident(s) => Token::Ident(s.clone()),
            Token::ParL => Token::ParL,
            Token::ParR => Token::ParR,
            Token::Colon => Token::Colon,
            Token::Semicolon => Token::Semicolon,
            Token::Comma => Token::Comma,
            Token::Type => Token::Type,
        }
    }
}

/// What `char::is_whitespace` returns: Unicode's `White_Space` property,
/// a function of the character alone.
pub uninterp spec fn char_is_whitespace(c: char) -> bool;

/// What `char::is_alphabetic` returns: Unicode's `Alphabetic` property,
/// a function of the character alone.
pub uninterp spec fn char_is_alphabetic(c: char) -> bool;

/// Relies on `char::is_whitespace` from std: whether the character has
/// Unicode's `White_Space` property, a pure function of the character.
pub assume_specification[ char::is_whitespace ](c: char) -> (r: bool)
    ensures
        r == char_is_whitespace(c),
;

/// Relies on `char::is_alphabetic` from std: whether the character has
/// Unicode's `Alphabetic` property, a pure function of the character.
pub assume_specification[ char::is_alphabetic ](c: char) -> (r: bool)
    ensures
        r == char_is_alphabetic(c),
;

/// A decimal digit: exactly the characters '0' through '9'.
pub open spec fn is_dec_digit(c: char) -> bool {
    48 <= (c as u32) && (c as u32) <= 57
}

/// A character that may continue an identifier: alphabetic or a decimal digit.
pub open spec fn is_ident_char(c: char) -> bool {
    char_is_alphabetic(c) || is_dec_digit(c)
}

#[verifier::when_used_as_spec(is_dec_digit)]
fn dec_digit(c: char) -> (r: bool)
    ensures
        r == is_dec_digit(c),
{
    let u = c as u32;
    48 <= u && u <= 57
}

/// The characters of the single keyword of the language.
pub open spec fn type_keyword() -> Seq<char> {
    seq!['t', 'i', 'p', 'o']
}

/// How many whitespace characters the input starts with.
pub open spec fn ws_count(s: Seq<char>) -> nat
    decreases s.len(),
{
    if s.len() > 0 && char_is_whitespace(s[0]) {
        1 + ws_count(s.skip(1))
    } else {
        0
    }
}

/// How many identifier-continuation characters the input starts with.
pub open spec fn ident_tail_count(s: Seq<char>) -> nat
    decreases s.len(),
{
    if s.len() > 0 && is_ident_char(s[0]) {
        1 + ident_tail_count(s.skip(1))
    } else {
        0
    }
}

pub proof fn lemma_ws_count_le(s: Seq<char>)
    ensures
        ws_count(s) <= s.len(),
    decreases s.len(),
{
    if s.len() > 0 && char_is_whitespace(s[0]) {
        lemma_ws_count_le(s.skip(1));
    }
}

pub proof fn lemma_ident_tail_count_le(s: Seq<char>)
    ensures
        ident_tail_count(s) <= s.len(),
    decreases s.len(),
{
    if s.len() > 0 && is_ident_char(s[0]) {
        lemma_ident_tail_count_le(s.skip(1));
    }
}

/// One step of tokenization: the next token, and the input that remains after
/// it. Leading whitespace is skipped; an alphabetic character starts an
/// identifier, which is keyword-matched against `tipo`; an unrecognized
/// character is one `Illegal` token; an exhausted input or a NUL character
/// gives `EOF`.
pub open spec fn spec_next_token(s: Seq<char>) -> (TokenView, Seq<char>) {
    let t = s.skip(ws_count(s) as int);
    if t.len() == 0 {
        (TokenView::EOF, t)
    } else if t[0] == '(' {
        (TokenView::ParL, t.skip(1))
    } else if t[0] == ')' {
        (TokenView::ParR, t.skip(1))
    } else if t[0] == ':' {
        (TokenView::Colon, t.skip(1))
    } else if t[0] == ';' {
        (TokenView::Semicolon, t.skip(1))
    } else if t[0] == ',' {
        (TokenView::Comma, t.skip(1))
    } else if t[0] == '\0' {
        (TokenView::EOF, t.skip(1))
    } else if char_is_alphabetic(t[0]) {
        let l = (1 + ident_tail_count(t.skip(1))) as int;
        let word = t.take(l);
        if word == type_keyword() {
            (TokenView::Type, t.skip(l))
        } else {
            (TokenView::Ident(word), t.skip(l))
        }
    } else {
        (TokenView::Illegal, t.skip(1))
    }
}

pub proof fn lemma_next_token_consumes(s: Seq<char>)
    ensures
        spec_next_token(s).1.len() <= s.len(),
        spec_next_token(s).0 != TokenView::EOF ==> spec_next_token(s).1.len() < s.len(),
{
    lemma_ws_count_le(s);
    let t = s.skip(ws_count(s) as int);
    if t.len() > 0 {
        lemma_ident_tail_count_le(t.skip(1));
    }
}

/// The token sequence of a whole input: tokenization stops where `EOF`
/// would be produced, so `EOF` itself never appears in the sequence.
pub open spec fn spec_tokens(s: Seq<char>) -> Seq<TokenView>
    decreases s.len(),
{
    let step = spec_next_token(s);
    if step.0 == TokenView::EOF {
        Seq::empty()
    } else {
        proof {
            lemma_next_token_consumes(s);
        }
        seq![step.0] + spec_tokens(step.1)
    }
}

/// Law: a whitespace character in front of the input never changes the
/// token sequence; by induction, neither does any run of them.
pub proof fn lemma_leading_whitespace_ignored(c: char, s: Seq<char>)
    requires
        char_is_whitespace(c),
    ensures
        spec_tokens(seq![c] + s) == spec_tokens(s),
{
    let w = seq![c] + s;
    lemma_ws_count_le(s);
    assert(w[0] == c);
    assert(w.skip(1) =~= s);
    assert(ws_count(w) == 1 + ws_count(s));
    assert(w.skip(ws_count(w) as int) =~= s.skip(ws_count(s) as int));
    assert(spec_next_token(w) == spec_next_token(s));
}

/// Law: an empty input yields no tokens. (That a finite input yields a
/// finite sequence, and that the lexer terminates on it, is enforced by the
/// `decreases` measures on `spec_tokens` and on the executable functions.)
pub proof fn lemma_no_tokens_for_empty_input()
    ensures
        spec_tokens(Seq::<char>::empty()) =~= Seq::<TokenView>::empty(),
{
    let s = Seq::<char>::empty();
    assert(ws_count(s) == 0);
    assert(s.skip(0) =~= s);
}

/// The lexer, also known as tokenizer, transforms the input text into tokens.
///
/// Its view is the input that has not been consumed yet, as a character
/// sequence. The lexer is single-pass: to iterate again, build a new one.
pub struct Lexer<'a> {
    input: &'a str,
    pos: usize,
    len: usize,
}

impl View for Lexer<'_> {
    type V = Seq<char>;

    closed spec fn view(&self) -> Seq<char> {
        self.input@.skip(self.pos as int)
    }
}

impl<'a> Lexer<'a> {
    /// Internal consistency: the cached length is the character length of the
    /// input, and the position never passes the end.
    pub closed spec fn wf(&self) -> bool {
        self.pos <= self.len && self.len == self.input@.len()
    }

    /// Create a new lexer over the given source text.
    pub fn new(input: &'a str) -> (r: Lexer<'a>)
        ensures
            r.wf(),
            r@ == input@,
    {
        let len = input.unicode_len();
        let r = Lexer { input, pos: 0, len };
        proof {
            assert(r@ =~= input@);
        }
        r
    }

    /// The next char in the input; does *not* advance the lexer.
    fn peek_char(&self) -> (r: Option<char>)
        requires
            self.wf(),
        ensures
            match r {
                Some(c) => self@.len() > 0 && c == self@[0],
                None => self@.len() == 0,
            },
    {
        if self.pos < self.len {
            let c = self.input.get_char(self.pos);
            proof {
                assert(self@[0] == self.input@[self.pos as int]);
            }
            Some(c)
        } else {
            None
        }
    }

    /// The next char in the input; advances the lexer past it.
    fn read_char(&mut self) -> (r: Option<char>)
        requires
            old(self).wf(),
        ensures
            final(self).wf(),
            final(self).input == old(self).input,
            match r {
                Some(c) => old(self)@.len() > 0 && c == old(self)@[0] && final(self)@ == old(
                    self,
                )@.skip(1) && final(self).pos == old(self).pos + 1,
                None => old(self)@.len() == 0 && final(self)@ == old(self)@ && final(self).pos
                    == old(self).pos,
            },
    {
        if self.pos < self.len {
            let c = self.input.get_char(self.pos);
            self.pos = self.pos + 1;
            proof {
                assert(c == old(self)@[0]);
                assert(self@ =~= old(self)@.skip(1));
            }
            Some(c)
        } else {
            None
        }
    }

    /// Advances the lexer by one char.
    fn consume_char(&mut self)
        requires
            old(self).wf(),
        ensures
            final(self).wf(),
            final(self).input == old(self).input,
            old(self)@.len() > 0 ==> final(self)@ == old(self)@.skip(1),
            old(self)@.len() == 0 ==> final(self)@ == old(self)@,
    {
        let _ = self.read_char();
    }

    /// Advance the lexer past the run of whitespace it is standing on.
    fn consume_whitespace(&mut self)
        requires
            old(self).wf(),
        ensures
            final(self).wf(),
            final(self).input == old(self).input,
            final(self)@ == old(self)@.skip(ws_count(old(self)@) as int),
    {
        loop
            invariant
                self.wf(),
                self.input == old(self).input,
                old(self)@.skip(ws_count(old(self)@) as int) == self@.skip(ws_count(self@) as int),
                self@.len() <= old(self)@.len(),
                self.pos + self@.len() == self.len,
            ensures
                self.wf(),
                self.input == old(self).input,
                ws_count(self@) == 0,
                old(self)@.skip(ws_count(old(self)@) as int) == self@,
            decreases self@.len(),
        {
            proof {
                lemma_ws_count_le(self@);
            }
            match self.peek_char() {
                Some(c) => {
                    if c.is_whitespace() {
                        let ghost prev = self@;
                        self.consume_char();
                        proof {
                            assert(ws_count(prev) == 1 + ws_count(prev.skip(1)));
                            assert(self@ == prev.skip(1));
                        }
                    } else {
                        proof {
                            assert(ws_count(self@) == 0);
                            assert(self@.skip(0) =~= self@);
                        }
                        break;
                    }
                },
                None => {
                    proof {
                        assert(ws_count(self@) == 0);
                        assert(self@.skip(0) =~= self@);
                    }
                    break;
                },
            }
        }
    }

    /// After an alphabetic char was found and consumed, keep reading chars to
    /// build an identifier. Finally, look if it was the keyword.
    fn read_identifier(&mut self, first: char) -> (r: Token)
        requires
            old(self).wf(),
            old(self).pos >= 1,
            old(self).input@[old(self).pos - 1] == first,
        ensures
            final(self).wf(),
            final(self).input == old(self).input,
            final(self)@ == old(self)@.skip(ident_tail_count(old(self)@) as int),
            ({
                let word = seq![first] + old(self)@.take(ident_tail_count(old(self)@) as int);
                r@ == if word == type_keyword() {
                    TokenView::Type
                } else {
                    TokenView::Ident(word)
                }
            }),
    {
        let start = self.pos - 1;
        loop
            invariant
                self.wf(),
                self.input == old(self).input,
                old(self).pos <= self.pos,
                ident_tail_count(old(self)@) == (self.pos - old(self).pos) + ident_tail_count(
                    self@,
                ),
            ensures
                self.wf(),
                self.input == old(self).input,
                old(self).pos <= self.pos,
                ident_tail_count(old(self)@) == self.pos - old(self).pos,
            decreases self@.len(),
        {
            match self.peek_char() {
                Some(c) => {
                    if c.is_alphabetic() || dec_digit(c) {
                        let ghost prev = self@;
                        self.consume_char();
                        proof {
                            assert(is_ident_char(prev[0]));
                            assert(ident_tail_count(prev) == 1 + ident_tail_count(prev.skip(1)));
                        }
                    } else {
                        proof {
                            assert(!is_ident_char(self@[0]));
                            assert(ident_tail_count(self@) == 0);
                        }
                        break;
                    }
                },
                None => {
                    proof {
                        assert(ident_tail_count(self@) == 0);
                    }
                    break;
                },
            }
        }
        let word = self.input.substring_char(start, self.pos);
        proof {
            let k = ident_tail_count(old(self)@) as int;
            assert(word@ =~= seq![first] + old(self)@.take(k));
            assert(self@ =~= old(self)@.skip(k));
        }
        if is_type_keyword_str(word) {
            Token::Type
        } else {
            Token::Ident(String::from_str(word))
        }
    }

    /// The basis for iteration: matches the characters to tokens.
    fn next_token(&mut self) -> (r: Token)
        requires
            old(self).wf(),
        ensures
            final(self).wf(),
            r@ == spec_next_token(old(self)@).0,
            final(self)@ == spec_next_token(old(self)@).1,
    {
        proof {
            lemma_ws_count_le(old(self)@);
        }
        self.consume_whitespace();
        let ghost pre = *self;
        let ghost t = self@;
        match self.read_char() {
            None => Token::EOF,
            Some(c) => {
                if c == '(' {
                    Token::ParL
                } else if c == ')' {
                    Token::ParR
                } else if c == ':' {
                    Token::Colon
                } else if c == ';' {
                    Token::Semicolon
                } else if c == ',' {
                    Token::Comma
                } else if c == '\0' {
                    Token::EOF
                } else if c.is_alphabetic() {
                    proof {
                        assert(t == pre.input@.skip(pre.pos as int));
                        assert(c == t[0]);
                        assert(t[0] == pre.input@[pre.pos as int]);
                        assert(self.pos == pre.pos + 1);
                        assert(self.input@[self.pos - 1] == c);
                    }
                    let tok = self.read_identifier(c);
                    proof {
                        lemma_ident_tail_count_le(t.skip(1));
                        let k = ident_tail_count(t.skip(1)) as int;
                        assert(seq![c] + t.skip(1).take(k) =~= t.take(1 + k));
                        assert(t.skip(1).skip(k) =~= t.skip(1 + k));
                    }
                    tok
                } else {
                    Token::Illegal
                }
            },
        }
    }

    /// The next token of the input, or `None` when the input is exhausted:
    /// `EOF` is never surfaced to the consumer. In either case what remains
    /// is exactly what one tokenization step leaves behind, so on an
    /// exhausted input every later call keeps returning `None`.
    pub fn next(&mut self) -> (r: Option<Token>)
        requires
            old(self).wf(),
        ensures
            final(self).wf(),
            final(self)@ == spec_next_token(old(self)@).1,
            match r {
                Some(t) => spec_tokens(old(self)@) == seq![t@] + spec_tokens(final(self)@)
                    && final(self)@.len() < old(self)@.len(),
                None => spec_tokens(old(self)@) == Seq::<TokenView>::empty(),
            },
    {
        proof {
            lemma_next_token_consumes(old(self)@);
        }
        let t = self.next_token();
        match t {
            Token::EOF => None,
            x => Some(x),
        }
    }
}

/// The keyword test on a string slice, by characters.
fn is_type_keyword_str(s: &str) -> (r: bool)
    ensures
        r == (s@ == type_keyword()),
{
    if s.unicode_len() == 4 {
        let r = s.get_char(0) == 't' && s.get_char(1) == 'i' && s.get_char(2) == 'p' && s.get_char(
            3,
        ) == 'o';
        proof {
            if r {
                assert(s@ =~= type_keyword());
            }
        }
        r
    } else {
        false
    }
}

} // verus!
