//! The parser: turns the token stream into top-level AST nodes, one per
//! statement attempt, with per-statement error recovery.
//!
//! Grammar:
//!
//! ```text
//! program    := statement*
//! statement  := "tipo" Identifier "(" parameters? ")" ";"
//! parameters := parameter ("," parameter)* ","?      // trailing comma allowed
//! parameter  := Identifier ":" Identifier
//! ```

use vstd::prelude::*;
use crate::lexer::Lexer;
use crate::lexer::Token;
use crate::lexer::TokenView;
use crate::lexer::spec_tokens;

verus! {

/// The mathematical model of an AST node. A definition's parameter list is
/// modelled one level deep: in every node the parser produces, the elements
/// of that list are `Parameter` nodes.
pub enum AstView {
    TypeDefinition(Seq<char>, Seq<AstView>),
    Parameter(Seq<char>, Seq<char>),
    Unexpected(TokenView),
    Empty,
}

/// An AST node: a parsed `tipo Name(...);` statement, one `name: Type` entry
/// of its parameter list, or a marker recording the token at which a
/// statement attempt failed.
#[derive(Debug, PartialEq)]
pub enum Ast {
    TypeDefinition(String, Vec<Ast>),
    Parameter(String, String),
    Unexpected(Token),
    Empty,
}

/// The view of a node standing inside a parameter list. Parameter lists hold
/// `Parameter` nodes only, so a nested definition's own list is not modelled.
pub open spec fn ast_item_view(a: Ast) -> AstView {
    match a {
        Ast::TypeDefinition(n, _) => AstView::TypeDefinition(n@, Seq::empty()),
        Ast::Parameter(x, t) => AstView::Parameter(x@, t@),
        Ast::Unexpected(tok) => AstView::Unexpected(tok@),
        Ast::Empty => AstView::Empty,
    }
}

impl View for Ast {
    type V = AstView;

    open spec fn view(&self) -> AstView {
        match self {
            Ast::TypeDefinition(n, ps) => AstView::TypeDefinition(
                n@,
                ps@.map_values(|a: Ast| ast_item_view(a)),
            ),
            Ast::Parameter(x, t) => AstView::Parameter(x@, t@),
            Ast::Unexpected(tok) => AstView::Unexpected(tok@),
            Ast::Empty => AstView::Empty,
        }
    }
}

/// One parameter: `Identifier ":" Identifier`. Returns the parsed node or the
/// offending token (`EOF` when the input ran out), and the tokens that remain;
/// every token looked at is consumed, also on failure.
pub open spec fn spec_parse_parameter(toks: Seq<TokenView>) -> (Result<AstView, TokenView>, Seq<
    TokenView,
>) {
    if toks.len() == 0 {
        (Err(TokenView::EOF), toks)
    } else {
        match toks[0] {
            TokenView::Ident(name) => {
                if toks.len() == 1 {
                    (Err(TokenView::EOF), toks.skip(1))
                } else {
                    match toks[1] {
                        TokenView::Colon => {
                            if toks.len() == 2 {
                                (Err(TokenView::EOF), toks.skip(2))
                            } else {
                                match toks[2] {
                                    TokenView::Ident(tname) => (
                                        Ok(AstView::Parameter(name, tname)),
                                        toks.skip(3),
                                    ),
                                    x => (Err(x), toks.skip(3)),
                                }
                            }
                        },
                        x => (Err(x), toks.skip(2)),
                    }
                }
            },
            x => (Err(x), toks.skip(1)),
        }
    }
}

/// A parameter list: parameters separated by commas, with a trailing comma
/// tolerated when a right parenthesis follows it. The closing parenthesis is
/// peeked at, never consumed.
pub open spec fn spec_parse_parameters(toks: Seq<TokenView>) -> (Result<Seq<AstView>, TokenView>, Seq<
    TokenView,
>)
    decreases toks.len(),
{
    let step = spec_parse_parameter(toks);
    match step.0 {
        Err(t) => (Err(t), step.1),
        Ok(p) => {
            let rest = step.1;
            if rest.len() > 0 && rest[0] == TokenView::Comma {
                let after = rest.skip(1);
                if after.len() > 0 && after[0] == TokenView::ParR {
                    (Ok(seq![p]), after)
                } else {
                    proof {
                        lemma_parse_parameter_consumes(toks);
                    }
                    let tail = spec_parse_parameters(after);
                    match tail.0 {
                        Ok(ps) => (Ok(seq![p] + ps), tail.1),
                        Err(t) => (Err(t), tail.1),
                    }
                }
            } else {
                (Ok(seq![p]), rest)
            }
        },
    }
}

/// A whole statement: `"tipo" Identifier "(" parameters ")" ";"`. Fails with
/// the first token that does not fit, or with `EOF` where the input ran out.
pub open spec fn spec_parse_definition(toks: Seq<TokenView>) -> (Result<AstView, TokenView>, Seq<
    TokenView,
>) {
    if toks.len() == 0 {
        (Err(TokenView::EOF), toks)
    } else if toks[0] != TokenView::Type {
        (Err(toks[0]), toks.skip(1))
    } else if toks.len() == 1 {
        (Err(TokenView::EOF), toks.skip(1))
    } else {
        match toks[1] {
            TokenView::Ident(name) => {
                if toks.len() == 2 {
                    (Err(TokenView::EOF), toks.skip(2))
                } else if toks[2] != TokenView::ParL {
                    (Err(toks[2]), toks.skip(3))
                } else {
                    let step = spec_parse_parameters(toks.skip(3));
                    match step.0 {
                        Err(t) => (Err(t), step.1),
                        Ok(ps) => {
                            let rest = step.1;
                            if rest.len() == 0 {
                                (Err(TokenView::EOF), rest)
                            } else if rest[0] != TokenView::ParR {
                                (Err(rest[0]), rest.skip(1))
                            } else if rest.len() == 1 {
                                (Err(TokenView::EOF), rest.skip(1))
                            } else if rest[1] != TokenView::Semicolon {
                                (Err(rest[1]), rest.skip(2))
                            } else {
                                (Ok(AstView::TypeDefinition(name, ps)), rest.skip(2))
                            }
                        },
                    }
                }
            },
            x => (Err(x), toks.skip(2)),
        }
    }
}

/// Resynchronization: the tokens that remain after discarding everything up
/// to and including the next semicolon, or the whole input if none is left.
pub open spec fn spec_resync(toks: Seq<TokenView>) -> Seq<TokenView>
    decreases toks.len(),
{
    if toks.len() == 0 {
        toks
    } else if toks[0] == TokenView::Semicolon {
        toks.skip(1)
    } else {
        spec_resync(toks.skip(1))
    }
}

pub proof fn lemma_resync_le(toks: Seq<TokenView>)
    ensures
        spec_resync(toks).len() <= toks.len(),
    decreases toks.len(),
{
    if toks.len() > 0 && toks[0] != TokenView::Semicolon {
        lemma_resync_le(toks.skip(1));
    }
}

pub proof fn lemma_parse_parameter_consumes(toks: Seq<TokenView>)
    ensures
        spec_parse_parameter(toks).1.len() <= toks.len(),
        spec_parse_parameter(toks).0 is Ok ==> spec_parse_parameter(toks).1 == toks.skip(3)
            && toks.len() >= 3,
        spec_parse_parameter(toks).0 != Err::<AstView, TokenView>(TokenView::EOF)
            ==> spec_parse_parameter(toks).1.len() < toks.len(),
        toks.len() > 0 ==> spec_parse_parameter(toks).1.len() < toks.len(),
{
}

pub proof fn lemma_parse_parameters_consumes(toks: Seq<TokenView>)
    ensures
        spec_parse_parameters(toks).1.len() <= toks.len(),
        spec_parse_parameters(toks).0 != Err::<Seq<AstView>, TokenView>(TokenView::EOF)
            ==> spec_parse_parameters(toks).1.len() < toks.len(),
        toks.len() > 0 ==> spec_parse_parameters(toks).1.len() < toks.len(),
    decreases toks.len(),
{
    lemma_parse_parameter_consumes(toks);
    let step = spec_parse_parameter(toks);
    if step.0 is Ok {
        let rest = step.1;
        if rest.len() > 0 && rest[0] == TokenView::Comma {
            let after = rest.skip(1);
            if !(after.len() > 0 && after[0] == TokenView::ParR) {
                lemma_parse_parameters_consumes(after);
            }
        }
    }
}

/// In a successful parameter-list parse every node is a `Parameter`.
pub proof fn lemma_parse_parameters_shape(toks: Seq<TokenView>)
    ensures
        spec_parse_parameters(toks).0 matches Ok(ps) ==> forall|i: int|
            0 <= i < ps.len() ==> (#[trigger] ps[i]) is Parameter,
    decreases toks.len(),
{
    lemma_parse_parameter_consumes(toks);
    let step = spec_parse_parameter(toks);
    if step.0 is Ok {
        let rest = step.1;
        if rest.len() > 0 && rest[0] == TokenView::Comma {
            let after = rest.skip(1);
            if !(after.len() > 0 && after[0] == TokenView::ParR) {
                lemma_parse_parameters_shape(after);
            }
        }
    }
}

pub proof fn lemma_parse_definition_consumes(toks: Seq<TokenView>)
    ensures
        spec_parse_definition(toks).1.len() <= toks.len(),
        spec_parse_definition(toks).0 != Err::<AstView, TokenView>(TokenView::EOF)
            ==> spec_parse_definition(toks).1.len() < toks.len(),
        toks.len() > 0 ==> spec_parse_definition(toks).1.len() < toks.len(),
{
    if toks.len() >= 2 && toks[0] == TokenView::Type && toks[1] is Ident && toks.len() > 2
        && toks[2] == TokenView::ParL {
        lemma_parse_parameters_consumes(toks.skip(3));
    }
}

/// The node sequence of a whole program: one node per statement attempt. The
/// sequence ends precisely when an attempt is made with no tokens left. A
/// successful attempt yields its definition; any failed one, also one that
/// ran out of input midway (its marker carries `EOF`), yields its
/// `Unexpected` marker and resynchronizes past the next semicolon, or to the
/// end of the input.
pub open spec fn spec_parse_program(toks: Seq<TokenView>) -> Seq<AstView>
    decreases toks.len(),
{
    if toks.len() == 0 {
        Seq::empty()
    } else {
        let step = spec_parse_definition(toks);
        proof {
            lemma_parse_definition_consumes(toks);
            lemma_resync_le(step.1);
        }
        match step.0 {
            Ok(node) => seq![node] + spec_parse_program(step.1),
            Err(t) => seq![AstView::Unexpected(t)] + spec_parse_program(spec_resync(step.1)),
        }
    }
}

/// Law: every node a program parse produces is a `TypeDefinition` or an
/// `Unexpected` marker; a bare `Parameter` never stands at top level.
pub proof fn lemma_parse_program_shape(toks: Seq<TokenView>)
    ensures
        forall|i: int|
            0 <= i < spec_parse_program(toks).len() ==> (#[trigger] spec_parse_program(toks)[i])
                is TypeDefinition || spec_parse_program(toks)[i] is Unexpected,
    decreases toks.len(),
{
    if toks.len() > 0 {
        let step = spec_parse_definition(toks);
        lemma_parse_definition_consumes(toks);
        lemma_resync_le(step.1);
        match step.0 {
            Ok(node) => {
                lemma_parse_program_shape(step.1);
            },
            Err(t) => {
                lemma_parse_program_shape(spec_resync(step.1));
            },
        }
    }
}

/// The parser transforms the tokens of a lexer into AST nodes.
///
/// Its view is the sequence of token views it has not consumed yet. The
/// parser is single-pass: to iterate again, build a new one.
pub struct Parser {
    tokens: Vec<Token>,
    pos: usize,
}

impl View for Parser {
    type V = Seq<TokenView>;

    closed spec fn view(&self) -> Seq<TokenView> {
        self.tokens@.map_values(|t: Token| t@).skip(self.pos as int)
    }
}

impl Parser {
    /// Internal consistency: the position never passes the end.
    pub closed spec fn wf(&self) -> bool {
        self.pos <= self.tokens@.len()
    }

    /// Create a new parser over the tokens of the given lexer.
    pub fn new(tokens: Lexer<'_>) -> (r: Parser)
        requires
            tokens.wf(),
        ensures
            r.wf(),
            r@ == spec_tokens(tokens@),
    {
        let mut lx = tokens;
        let ghost orig = lx@;
        let mut v: Vec<Token> = Vec::new();
        loop
            invariant_except_break
                v@.map_values(|t: Token| t@) + spec_tokens(lx@) == spec_tokens(orig),
            invariant
                lx.wf(),
            ensures
                v@.map_values(|t: Token| t@) == spec_tokens(orig),
            decreases lx@.len(),
        {
            let ghost vs = v@.map_values(|t: Token| t@);
            match lx.next() {
                Some(t) => {
                    v.push(t);
                    proof {
                        assert(v@.map_values(|t: Token| t@) =~= vs.push(t@));
                        assert(vs.push(t@) + spec_tokens(lx@) =~= vs + (seq![t@] + spec_tokens(
                            lx@,
                        )));
                    }
                },
                None => {
                    proof {
                        assert(vs + Seq::<TokenView>::empty() =~= vs);
                    }
                    break;
                },
            }
        }
        let r = Parser { tokens: v, pos: 0 };
        proof {
            assert(r@ =~= spec_tokens(orig));
        }
        r
    }

    /// The next token of the input; does *not* advance the parser.
    fn peek_token(&self) -> (r: Option<&Token>)
        requires
            self.wf(),
        ensures
            match r {
                Some(t) => self@.len() > 0 && t@ == self@[0],
                None => self@.len() == 0,
            },
    {
        if self.pos < self.tokens.len() {
            Some(&self.tokens[self.pos])
        } else {
            None
        }
    }

    /// The next token of the input; advances the parser past it.
    pub fn read_token(&mut self) -> (r: Option<Token>)
        requires
            old(self).wf(),
        ensures
            final(self).wf(),
            match r {
                Some(t) => old(self)@.len() > 0 && t@ == old(self)@[0] && final(self)@ == old(
                    self,
                )@.skip(1),
                None => old(self)@.len() == 0 && final(self)@ == old(self)@,
            },
    {
        if self.pos < self.tokens.len() {
            let t = self.tokens[self.pos].clone();
            self.pos = self.pos + 1;
            proof {
                assert(final(self)@ =~= old(self)@.skip(1));
            }
            Some(t)
        } else {
            None
        }
    }

    /// Advances the parser by one token.
    fn consume_token(&mut self)
        requires
            old(self).wf(),
        ensures
            final(self).wf(),
            old(self)@.len() > 0 ==> final(self)@ == old(self)@.skip(1),
            old(self)@.len() == 0 ==> final(self)@ == old(self)@,
    {
        let _ = self.read_token();
    }

    /// Advances the parser until a semicolon is found, consuming it; stops at
    /// the end of the input if no semicolon is left.
    pub fn advance_until_semicolon(&mut self)
        requires
            old(self).wf(),
        ensures
            final(self).wf(),
            final(self)@ == spec_resync(old(self)@),
    {
        loop
            invariant_except_break
                spec_resync(old(self)@) == spec_resync(self@),
            invariant
                self.wf(),
            ensures
                self.wf(),
                self@ == spec_resync(old(self)@),
            decreases self@.len(),
        {
            let ghost prev = self@;
            match self.read_token() {
                None => {
                    proof {
                        assert(spec_resync(prev) == prev);
                    }
                    break;
                },
                Some(t) => {
                    match t {
                        Token::Semicolon => {
                            proof {
                                assert(prev[0] == TokenView::Semicolon);
                                assert(spec_resync(prev) == prev.skip(1));
                            }
                            break;
                        },
                        _ => {},
                    }
                },
            }
        }
    }

    /// Matches a parameter: `Identifier ":" Identifier`. Returns the node, or
    /// the token that was misplaced (thus unexpected).
    pub fn parse_parameter(&mut self) -> (r: Result<Ast, Token>)
        requires
            old(self).wf(),
        ensures
            final(self).wf(),
            final(self)@ == spec_parse_parameter(old(self)@).1,
            match r {
                Ok(a) => spec_parse_parameter(old(self)@).0 == Ok::<AstView, TokenView>(a@),
                Err(t) => spec_parse_parameter(old(self)@).0 == Err::<AstView, TokenView>(t@),
            },
    {
        let ghost toks = self@;
        match self.read_token() {
            None => Err(Token::EOF),
            Some(t0) => match t0 {
                Token::Ident(name) => {
                    match self.read_token() {
                        None => Err(Token::EOF),
                        Some(t1) => {
                            proof {
                                assert(toks.skip(1)[0] == toks[1]);
                                assert(self@ =~= toks.skip(2));
                            }
                            match t1 {
                                Token::Colon => {
                                    match self.read_token() {
                                        None => Err(Token::EOF),
                                        Some(t2) => {
                                            proof {
                                                assert(toks.skip(2)[0] == toks[2]);
                                                assert(self@ =~= toks.skip(3));
                                            }
                                            match t2 {
                                                Token::Ident(tname) => Ok(
                                                    Ast::Parameter(name, tname),
                                                ),
                                                x => Err(x),
                                            }
                                        },
                                    }
                                },
                                x => Err(x),
                            }
                        },
                    }
                },
                x => Err(x),
            },
        }
    }

    /// Matches a series of parameters, separated by commas. Fails with the
    /// unexpected token, or with `EOF` when the tokens ran out.
    pub fn parse_parameters(&mut self) -> (r: Result<Vec<Ast>, Token>)
        requires
            old(self).wf(),
        ensures
            final(self).wf(),
            final(self)@ == spec_parse_parameters(old(self)@).1,
            match r {
                Ok(v) => spec_parse_parameters(old(self)@).0 == Ok::<Seq<AstView>, TokenView>(
                    v@.map_values(|a: Ast| a@),
                ),
                Err(t) => spec_parse_parameters(old(self)@).0 == Err::<Seq<AstView>, TokenView>(
                    t@,
                ),
            },
        decreases old(self)@.len(),
    {
        let ghost toks = self@;
        let p = match self.parse_parameter() {
            Ok(p) => p,
            Err(t) => {
                return Err(t);
            },
        };
        proof {
            lemma_parse_parameter_consumes(toks);
        }
        let has_comma = match self.peek_token() {
            Some(t) => match t {
                Token::Comma => true,
                _ => false,
            },
            None => false,
        };
        if has_comma {
            let ghost rest = self@;
            self.consume_token();
            let at_parr = match self.peek_token() {
                Some(t) => match t {
                    Token::ParR => true,
                    _ => false,
                },
                None => false,
            };
            if at_parr {
                let mut v: Vec<Ast> = Vec::new();
                v.push(p);
                proof {
                    assert(v@.map_values(|a: Ast| a@) =~= seq![p@]);
                }
                Ok(v)
            } else {
                proof {
                    assert(self@ =~= toks.skip(3).skip(1));
                }
                match self.parse_parameters() {
                    Ok(mut ps) => {
                        let ghost tail = ps@.map_values(|a: Ast| a@);
                        ps.insert(0, p);
                        proof {
                            assert(ps@.map_values(|a: Ast| a@) =~= seq![p@] + tail);
                        }
                        Ok(ps)
                    },
                    Err(t) => Err(t),
                }
            }
        } else {
            let mut v: Vec<Ast> = Vec::new();
            v.push(p);
            proof {
                assert(v@.map_values(|a: Ast| a@) =~= seq![p@]);
            }
            Ok(v)
        }
    }

    /// Matches an entire type definition, from the `tipo` keyword to the
    /// semicolon. Returns the definition if everything went well; otherwise
    /// the token that was misplaced (thus unexpected).
    pub fn parse_definition(&mut self) -> (r: Result<Ast, Token>)
        requires
            old(self).wf(),
        ensures
            final(self).wf(),
            final(self)@ == spec_parse_definition(old(self)@).1,
            match r {
                Ok(a) => spec_parse_definition(old(self)@).0 == Ok::<AstView, TokenView>(a@),
                Err(t) => spec_parse_definition(old(self)@).0 == Err::<AstView, TokenView>(t@),
            },
    {
        let ghost toks = self@;
        match self.read_token() {
            None => {
                return Err(Token::EOF);
            },
            Some(t) => match t {
                Token::Type => {},
                x => {
                    return Err(x);
                },
            },
        }
        let name = match self.read_token() {
            None => {
                return Err(Token::EOF);
            },
            Some(t) => {
                proof {
                    assert(toks.skip(1)[0] == toks[1]);
                    assert(self@ =~= toks.skip(2));
                }
                match t {
                    Token::Ident(name) => name,
                    x => {
                        return Err(x);
                    },
                }
            },
        };
        match self.read_token() {
            None => {
                return Err(Token::EOF);
            },
            Some(t) => {
                proof {
                    assert(toks.skip(2)[0] == toks[2]);
                    assert(self@ =~= toks.skip(3));
                }
                match t {
                    Token::ParL => {},
                    x => {
                        return Err(x);
                    },
                }
            },
        }
        let ghost ptoks = self@;
        let parameters = match self.parse_parameters() {
            Ok(parameters) => parameters,
            Err(token) => {
                return Err(token);
            },
        };
        let ghost rest = self@;
        match self.read_token() {
            None => {
                return Err(Token::EOF);
            },
            Some(t) => match t {
                Token::ParR => {},
                x => {
                    return Err(x);
                },
            },
        }
        match self.read_token() {
            None => {
                return Err(Token::EOF);
            },
            Some(t) => {
                proof {
                    assert(rest.skip(1)[0] == rest[1]);
                    assert(self@ =~= rest.skip(2));
                }
                match t {
                    Token::Semicolon => {},
                    x => {
                        return Err(x);
                    },
                }
            },
        }
        let node = Ast::TypeDefinition(name, parameters);
        proof {
            lemma_parse_parameters_shape(ptoks);
            let ps = spec_parse_parameters(ptoks).0->Ok_0;
            assert(parameters@.map_values(|a: Ast| ast_item_view(a)) =~= parameters@.map_values(
                |a: Ast| a@,
            )) by {
                assert forall|i: int| 0 <= i < parameters@.len() implies ast_item_view(
                    parameters@[i],
                ) == parameters@[i]@ by {
                    assert(parameters@.map_values(|a: Ast| a@)[i] == parameters@[i]@);
                    assert(ps[i] is Parameter);
                }
            }
        }
        Ok(node)
    }

    /// The next AST node of the input, or `None` precisely when no token is
    /// left to start a statement with. Any failed attempt, also one that ran
    /// out of input midway, yields its `Unexpected` marker after
    /// resynchronizing past the next semicolon, or to the end of the input.
    pub fn next(&mut self) -> (r: Option<Ast>)
        requires
            old(self).wf(),
        ensures
            final(self).wf(),
            match r {
                Some(a) => spec_parse_program(old(self)@) == seq![a@] + spec_parse_program(
                    final(self)@,
                ) && final(self)@.len() < old(self)@.len(),
                None => old(self)@.len() == 0 && final(self)@ == old(self)@
                    && spec_parse_program(old(self)@) == Seq::<AstView>::empty(),
            },
    {
        let ghost toks = self@;
        proof {
            lemma_parse_definition_consumes(toks);
        }
        let at_end = match self.peek_token() {
            None => true,
            Some(_) => false,
        };
        if at_end {
            return None;
        }
        match self.parse_definition() {
            Ok(ast) => Some(ast),
            Err(token) => {
                proof {
                    lemma_resync_le(self@);
                }
                self.advance_until_semicolon();
                Some(Ast::Unexpected(token))
            },
        }
    }
}

} // verus!


