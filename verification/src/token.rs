//! The closed set of lexical kinds the tokenizer can produce, together with
//! the mathematical model of a token used by all contracts.

use vstd::prelude::*;

verus! {

/// A classified unit of lexical input: a kind plus, for literals and
/// identifiers, the payload carried by the lexeme.
#[derive(Debug, Clone, PartialEq, Eq)]
pub enum Token {
    /// An integer literal: one or more decimal digits.
    Int(i32),
    /// A boolean literal: the spelling `cap` is false, `nocap` is true.
    Bool(bool),
    /// A string literal: the exact text between a pair of matching quotes.
    Str(String),
    /// An identifier: a maximal run of letters and underscores that spells
    /// no reserved keyword.
    Ident(String),
    /// The assignment operator, spelled `be`.
    Assign,
    Plus,
    Minus,
    Asterisk,
    Slash,
    /// Spelled `felloff` or `<`.
    LessThan,
    /// Spelled `flexin`, `flex on` or `>`.
    GreaterThan,
    /// Spelled `do be`: one token, never two.
    Equal,
    /// Spelled `do not be`: one token, never three.
    NotEqual,
    Not,
    And,
    Or,
    Comma,
    /// The statement terminator, spelled `rn`.
    StmtEnd,
    /// The scope opener, spelled `lowkey`.
    ScopeStart,
    /// The scope closer, spelled `bet`.
    ScopeEnd,
    /// The variable-declaration keyword, spelled `ngl`.
    VarDecl,
    /// The function-declaration keyword, spelled `finna`.
    FnDecl,
    /// The conditional keyword, spelled `fr`.
    If,
    /// The alternative keyword, spelled `cope`.
    Else,
}

/// The mathematical value of a token: the same kinds as `Token`, with text
/// payloads abstracted to sequences of characters.
pub ghost enum TokenModel {
    Int(i32),
    Bool(bool),
    Str(Seq<char>),
    Ident(Seq<char>),
    Assign,
    Plus,
    Minus,
    Asterisk,
    Slash,
    LessThan,
    GreaterThan,
    Equal,
    NotEqual,
    Not,
    And,
    Or,
    Comma,
    StmtEnd,
    ScopeStart,
    ScopeEnd,
    VarDecl,
    FnDecl,
    If,
    Else,
}

impl View for Token {
    type V = TokenModel;

    open spec fn view(&self) -> TokenModel {
        match self {
            Token::Int(i) => TokenModel::Int(*i),
            Token::Bool(b) => TokenModel::Bool(*b),
            Token::Str(s) => TokenModel::Str(s@),
            Token::Ident(s) => TokenModel::Ident(s@),
            Token::Assign => TokenModel::Assign,
            Token::Plus => TokenModel::Plus,
            Token::Minus => TokenModel::Minus,
            Token::Asterisk => TokenModel::Asterisk,
            Token::Slash => TokenModel::Slash,
            Token::LessThan => TokenModel::LessThan,
            Token::GreaterThan => TokenModel::GreaterThan,
            Token::Equal => TokenModel::Equal,
            Token::NotEqual => TokenModel::NotEqual,
            Token::Not => TokenModel::Not,
            Token::And => TokenModel::And,
            Token::Or => TokenModel::Or,
            Token::Comma => TokenModel::Comma,
            Token::StmtEnd => TokenModel::StmtEnd,
            Token::ScopeStart => TokenModel::ScopeStart,
            Token::ScopeEnd => TokenModel::ScopeEnd,
            Token::VarDecl => TokenModel::VarDecl,
            Token::FnDecl => TokenModel::FnDecl,
            Token::If => TokenModel::If,
            Token::Else => TokenModel::Else,
        }
    }
}

impl DeepView for Token {
    type V = TokenModel;

    open spec fn deep_view(&self) -> TokenModel {
        self.view()
    }
}

} // verus!
