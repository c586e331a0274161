//! The parser: a recursive-descent, single-token-lookahead consumer of the
//! token stream that produces AST nodes one top-level construct at a time.
//!
//! Every parse failure is an explicit, inspectable error value; no failure
//! ever aborts the process, and no lexical error is swallowed. A leading
//! token that is lexically valid but has no parse rule yet is reported as an
//! unsupported construct, so grammar growth can be tracked by which
//! constructs still return that error.
//!
//! Each rule is specified by a function over the token sequence (and the
//! pending lexical error position) that gives both its result and how many
//! tokens it consumes; the executable methods are proved to follow them.

use vstd::prelude::*;

use crate::ast::{Expr, ExprModel, Node, NodeModel, Program, Stmt, StmtModel};
use crate::lex::{spec_lex, LexError};
use crate::stream::TokenStream;
use crate::token::{Token, TokenModel};

verus! {

/// The category the parser required at a grammar position.
#[derive(Debug, Clone, Copy, PartialEq, Eq, Structural)]
pub enum Expected {
    Ident,
    Assign,
    Expression,
}

/// A parse failure, always returned as a value, never a process abort.
#[derive(Debug, PartialEq, Eq)]
pub enum ParseError {
    /// The tokenizer found a lexeme matching no rule; the payload carries
    /// its position. Never dropped or skipped.
    Lex(LexError),
    /// A token of the wrong kind stood where the grammar required another
    /// category: the category expected and the token found.
    UnexpectedToken { expected: Expected, found: Token },
    /// The token stream ended while a rule still required more tokens.
    UnexpectedEndOfInput { expected: Expected },
    /// The leading token is valid but denotes a construct with no parse
    /// rule yet; it carries the offending token.
    UnsupportedConstruct { found: Token },
}

/// The mathematical value of a `ParseError`.
pub ghost enum ParseErrorModel {
    Lex(int),
    UnexpectedToken(Expected, TokenModel),
    UnexpectedEndOfInput(Expected),
    UnsupportedConstruct(TokenModel),
}

impl View for ParseError {
    type V = ParseErrorModel;

    open spec fn view(&self) -> ParseErrorModel {
        match self {
            ParseError::Lex(e) => ParseErrorModel::Lex(e.pos as int),
            ParseError::UnexpectedToken { expected, found } => ParseErrorModel::UnexpectedToken(
                *expected,
                found@,
            ),
            ParseError::UnexpectedEndOfInput { expected } => ParseErrorModel::UnexpectedEndOfInput(
                *expected,
            ),
            ParseError::UnsupportedConstruct { found } => ParseErrorModel::UnsupportedConstruct(
                found@,
            ),
        }
    }
}

/// The expression rule on a token sequence: consumes exactly one token and
/// maps a literal to its expression; any other token is an unexpected-token
/// error (consuming it), and end of input is either the pending lexical
/// error or an unexpected-end error. Returns the outcome and the number of
/// tokens consumed.
pub open spec fn spec_parse_expr(toks: Seq<TokenModel>, err: Option<int>) -> (Result<
    ExprModel,
    ParseErrorModel,
>, int) {
    if toks.len() == 0 {
        (
            match err {
                Some(p) => Err(ParseErrorModel::Lex(p)),
                None => Err(ParseErrorModel::UnexpectedEndOfInput(Expected::Expression)),
            },
            0,
        )
    } else {
        match toks[0] {
            TokenModel::Bool(b) => (Ok(ExprModel::Bool(b)), 1),
            TokenModel::Int(i) => (Ok(ExprModel::Int(i)), 1),
            TokenModel::Str(s) => (Ok(ExprModel::Str(s)), 1),
            t => (Err(ParseErrorModel::UnexpectedToken(Expected::Expression, t)), 1),
        }
    }
}

/// The variable-declaration rule on a token sequence: consumes the leading
/// declaration keyword (the dispatcher chose this rule by peeking at it),
/// requires an identifier, requires the assignment operator, parses one
/// expression, and consumes one trailing statement terminator when present
/// (its absence is tolerated). Returns the outcome and the number of tokens
/// consumed.
pub open spec fn spec_parse_var_decl(toks: Seq<TokenModel>, err: Option<int>) -> (Result<
    StmtModel,
    ParseErrorModel,
>, int) {
    if toks.len() == 0 {
        (
            match err {
                Some(p) => Err(ParseErrorModel::Lex(p)),
                None => Err(ParseErrorModel::UnexpectedEndOfInput(Expected::Ident)),
            },
            0,
        )
    } else if toks.len() == 1 {
        (
            match err {
                Some(p) => Err(ParseErrorModel::Lex(p)),
                None => Err(ParseErrorModel::UnexpectedEndOfInput(Expected::Ident)),
            },
            1,
        )
    } else if !(toks[1] is Ident) {
        (Err(ParseErrorModel::UnexpectedToken(Expected::Ident, toks[1])), 2)
    } else if toks.len() == 2 {
        (
            match err {
                Some(p) => Err(ParseErrorModel::Lex(p)),
                None => Err(ParseErrorModel::UnexpectedEndOfInput(Expected::Assign)),
            },
            2,
        )
    } else if !(toks[2] is Assign) {
        (Err(ParseErrorModel::UnexpectedToken(Expected::Assign, toks[2])), 2)
    } else {
        let name = toks[1]->Ident_0;
        let stepped = spec_parse_expr(toks.skip(3), err);
        match stepped.0 {
            Err(e) => (Err(e), 3 + stepped.1),
            Ok(value) => {
                let used = 3 + stepped.1;
                if used < toks.len() && toks[used] is StmtEnd {
                    (Ok(StmtModel::VarDecl(name, value)), used + 1)
                } else {
                    (Ok(StmtModel::VarDecl(name, value)), used)
                }
            },
        }
    }
}

/// What one request for the next top-level node yields: the clean end of
/// input, one node and the tokens it consumed, or a failure and the tokens
/// consumed before it.
pub ghost enum NodeStep {
    End,
    Node(NodeModel, int),
    Fail(ParseErrorModel, int),
}

/// Statement dispatch on a token sequence: nothing left is the clean end
/// (or the pending lexical error); a leading declaration keyword runs the
/// variable-declaration rule; any other leading token is an unsupported
/// construct, peeked at but not consumed.
pub open spec fn spec_next_node(toks: Seq<TokenModel>, err: Option<int>) -> NodeStep {
    if toks.len() == 0 {
        match err {
            Some(p) => NodeStep::Fail(ParseErrorModel::Lex(p), 0),
            None => NodeStep::End,
        }
    } else if toks[0] is VarDecl {
        let stepped = spec_parse_var_decl(toks, err);
        match stepped.0 {
            Ok(s) => NodeStep::Node(NodeModel::Stmt(s), stepped.1),
            Err(e) => NodeStep::Fail(e, stepped.1),
        }
    } else {
        NodeStep::Fail(ParseErrorModel::UnsupportedConstruct(toks[0]), 0)
    }
}

/// The program-level driver on a token sequence: top-level nodes collected
/// in order until the input is exhausted, or the first failure. A failure
/// stops the parse; the nodes before it are well defined but the outcome of
/// the whole text is the error.
pub open spec fn spec_parse_program(toks: Seq<TokenModel>, err: Option<int>) -> Result<
    Seq<NodeModel>,
    ParseErrorModel,
>
    decreases toks.len(),
    via spec_parse_program_decreases
{
    match spec_next_node(toks, err) {
        NodeStep::End => Ok(seq![]),
        NodeStep::Fail(e, n) => Err(e),
        NodeStep::Node(nd, n) => match spec_parse_program(toks.skip(n), err) {
            Ok(nds) => Ok(seq![nd] + nds),
            Err(e) => Err(e),
        },
    }
}

#[via_fn]
proof fn spec_parse_program_decreases(toks: Seq<TokenModel>, err: Option<int>) {
    match spec_next_node(toks, err) {
        NodeStep::Node(nd, n) => {
            assert(1 <= n <= toks.len());
        },
        _ => {},
    }
}

/// What parsing a whole source text yields: its tokens fed through the
/// program-level driver.
pub open spec fn spec_parse_source(s: Seq<char>) -> Result<Seq<NodeModel>, ParseErrorModel> {
    let lexed = spec_lex(s);
    spec_parse_program(lexed.0, lexed.1)
}

/// The recursive-descent parser: an owned token stream with one token of
/// lookahead, and no other state.
pub struct Parser {
    tokens: TokenStream,
}

impl Parser {
    /// The owned stream's scan position is in range.
    pub closed spec fn wf(&self) -> bool {
        self.tokens.wf()
    }

    /// The tokens the parser has not consumed yet.
    pub closed spec fn toks(&self) -> Seq<TokenModel> {
        self.tokens.toks()
    }

    /// The position of the lexical error behind the remaining tokens, if any.
    pub closed spec fn lex_err(&self) -> Option<int> {
        self.tokens.lex_err()
    }

    /// A fresh parser over `source_code` stands before all its tokens.
    pub fn new(source_code: &str) -> (p: Parser)
        ensures
            p.wf(),
            p.toks() == spec_lex(source_code@).0,
            p.lex_err() == spec_lex(source_code@).1,
    {
        let tokens = TokenStream::new(source_code);
        Parser { tokens }
    }

    /// The expression rule: consumes however many tokens one expression
    /// needs (today exactly one), returns that expression, and advances the
    /// stream exactly past what it consumed.
    pub fn parse_expr(&mut self) -> (r: Result<Expr, ParseError>)
        requires
            old(self).wf(),
        ensures
            final(self).wf(),
            final(self).lex_err() == old(self).lex_err(),
            ({
                let stepped = spec_parse_expr(old(self).toks(), old(self).lex_err());
                final(self).toks() == old(self).toks().skip(stepped.1) && (match stepped.0 {
                    Ok(e) => r matches Ok(expr) && expr@ == e,
                    Err(pe) => r matches Err(actual) && actual@ == pe,
                })
            }),
    {
        proof {
            assert(old(self).toks().skip(0) =~= old(self).toks());
        }
        match self.tokens.next() {
            None => Err(ParseError::UnexpectedEndOfInput { expected: Expected::Expression }),
            Some(Err(e)) => Err(ParseError::Lex(e)),
            Some(Ok(t)) => match t {
                Token::Bool(b) => Ok(Expr::Bool(b)),
                Token::Int(i) => Ok(Expr::Int(i)),
                Token::Str(s) => Ok(Expr::Str(s)),
                other => Err(
                    ParseError::UnexpectedToken { expected: Expected::Expression, found: other },
                ),
            },
        }
    }

    /// The variable-declaration rule: consumes the declaration keyword, an
    /// identifier, the assignment operator, one expression, and a trailing
    /// statement terminator when one follows; the terminator's absence is
    /// tolerated. Fails naming the category it required.
    pub fn parse_ngl_stmt(&mut self) -> (r: Result<Stmt, ParseError>)
        requires
            old(self).wf(),
        ensures
            final(self).wf(),
            final(self).lex_err() == old(self).lex_err(),
            ({
                let stepped = spec_parse_var_decl(old(self).toks(), old(self).lex_err());
                final(self).toks() == old(self).toks().skip(stepped.1) && (match stepped.0 {
                    Ok(s) => r matches Ok(stmt) && stmt@ == s,
                    Err(pe) => r matches Err(actual) && actual@ == pe,
                })
            }),
    {
        proof {
            assert(old(self).toks().skip(0) =~= old(self).toks());
        }
        let _ = self.tokens.next();
        let ident = match self.tokens.next() {
            None => {
                return Err(ParseError::UnexpectedEndOfInput { expected: Expected::Ident });
            },
            Some(Err(e)) => {
                return Err(ParseError::Lex(e));
            },
            Some(Ok(Token::Ident(name))) => name,
            Some(Ok(other)) => {
                return Err(
                    ParseError::UnexpectedToken { expected: Expected::Ident, found: other },
                );
            },
        };
        match self.tokens.peek() {
            None => {
                return Err(ParseError::UnexpectedEndOfInput { expected: Expected::Assign });
            },
            Some(Err(e)) => {
                return Err(ParseError::Lex(e));
            },
            Some(Ok(Token::Assign)) => {
                let _ = self.tokens.next();
            },
            Some(Ok(other)) => {
                return Err(
                    ParseError::UnexpectedToken { expected: Expected::Assign, found: other },
                );
            },
        }
        let value = match self.parse_expr() {
            Ok(e) => e,
            Err(pe) => {
                return Err(pe);
            },
        };
        match self.tokens.peek() {
            Some(Ok(Token::StmtEnd)) => {
                let _ = self.tokens.next();
            },
            _ => {},
        }
        Ok(Stmt::VarDecl(ident, value))
    }

    /// One top-level construct: `None` at the clean end of input, the next
    /// node, or the failure that stopped this construct — a lexical error,
    /// a syntax error, or an unsupported construct for a leading token that
    /// has no parse rule yet.
    pub fn next_node(&mut self) -> (r: Option<Result<Node, ParseError>>)
        requires
            old(self).wf(),
        ensures
            final(self).wf(),
            final(self).lex_err() == old(self).lex_err(),
            (match spec_next_node(old(self).toks(), old(self).lex_err()) {
                NodeStep::End => r is None && final(self).toks() == old(self).toks(),
                NodeStep::Node(nd, n) => (r matches Some(Ok(node)) && node@ == nd)
                    && final(self).toks() == old(self).toks().skip(n),
                NodeStep::Fail(pe, n) => (r matches Some(Err(actual)) && actual@ == pe)
                    && final(self).toks() == old(self).toks().skip(n),
            }),
    {
        proof {
            assert(old(self).toks().skip(0) =~= old(self).toks());
        }
        match self.tokens.peek() {
            None => None,
            Some(Err(e)) => Some(Err(ParseError::Lex(e))),
            Some(Ok(Token::VarDecl)) => match self.parse_ngl_stmt() {
                Ok(stmt) => Some(Ok(Node::Stmt(stmt))),
                Err(pe) => Some(Err(pe)),
            },
            Some(Ok(other)) => Some(Err(ParseError::UnsupportedConstruct { found: other })),
        }
    }

    /// The program-level driver: asks for top-level nodes until the stream
    /// is exhausted and collects them in order, or stops at the first
    /// failure and returns it.
    pub fn parse_program(&mut self) -> (r: Result<Program, ParseError>)
        requires
            old(self).wf(),
        ensures
            final(self).wf(),
            (match spec_parse_program(old(self).toks(), old(self).lex_err()) {
                Ok(nds) => r matches Ok(program) && program@ == nds,
                Err(pe) => r matches Err(actual) && actual@ == pe,
            }),
    {
        let ghost orig_toks = self.toks();
        let ghost orig_err = self.lex_err();
        let mut nodes: Vec<Node> = Vec::new();
        proof {
            assert(nodes.deep_view() =~= Seq::<NodeModel>::empty());
        }
        loop
            invariant
                self.wf(),
                orig_toks == old(self).toks(),
                orig_err == old(self).lex_err(),
                self.lex_err() == orig_err,
                (match spec_parse_program(self.toks(), self.lex_err()) {
                    Ok(nds) => spec_parse_program(orig_toks, orig_err) == Ok::<
                        Seq<NodeModel>,
                        ParseErrorModel,
                    >(nodes.deep_view() + nds),
                    Err(e) => spec_parse_program(orig_toks, orig_err) == Err::<
                        Seq<NodeModel>,
                        ParseErrorModel,
                    >(e),
                }),
            decreases self.toks().len(),
        {
            let ghost cur = self.toks();
            match self.next_node() {
                None => {
                    proof {
                        assert(nodes.deep_view() + Seq::<NodeModel>::empty()
                            =~= nodes.deep_view());
                    }
                    return Ok(Program(nodes));
                },
                Some(Err(pe)) => {
                    return Err(pe);
                },
                Some(Ok(node)) => {
                    let ghost old_nodes = nodes.deep_view();
                    nodes.push(node);
                    proof {
                        assert(nodes.deep_view() =~= old_nodes.push(node@));
                        match spec_parse_program(self.toks(), orig_err) {
                            Ok(nds) => {
                                assert(spec_parse_program(cur, orig_err) == Ok::<
                                    Seq<NodeModel>,
                                    ParseErrorModel,
                                >(seq![node@] + nds));
                                assert(old_nodes + (seq![node@] + nds) =~= nodes.deep_view()
                                    + nds);
                            },
                            Err(e) => {},
                        }
                    }
                },
            }
        }
    }
}

/// Parses a whole source text: its ordered top-level nodes as a `Program`,
/// or the first lexical or syntax error. Never aborts the process.
pub fn parse(source_code: &str) -> (r: Result<Program, ParseError>)
    ensures
        (match spec_parse_source(source_code@) {
            Ok(nds) => r matches Ok(program) && program@ == nds,
            Err(pe) => r matches Err(actual) && actual@ == pe,
        }),
{
    let mut parser = Parser::new(source_code);
    parser.parse_program()
}

} // verus!
