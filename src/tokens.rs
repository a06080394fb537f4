use vstd::prelude::*;

verus! {

/// An arithmetic operator.
#[derive(Clone, Copy, Debug, PartialEq, Eq, Structural)]
pub enum Operator {
    Add,
    Sub,
    Mul,
    Div,
}

/// The kind of bracket of a group delimiter.
#[derive(Clone, Copy, Debug, PartialEq, Eq, Structural)]
pub enum Delimiter {
    Parentheses,
    Braces,
    Brackets,
}

/// Whether a group delimiter opens or closes.
#[derive(Clone, Copy, Debug, PartialEq, Eq, Structural)]
pub enum Side {
    Left,
    Right,
}

/// A token of the source language.
///
/// A float literal is kept as the text of its decimal lexeme (`2.5`, `1.0`):
/// digits, one `.`, digits. Converting it to a binary float is left to the caller.
#[derive(Clone, Debug, PartialEq)]
pub enum Token {
    Dot,
    Comma,
    Arrow,
    Operator(Operator),
    Group(Delimiter, Side),
    LitStr(String),
    LitChar(char),
    LitInt(i64),
    LitFloat(String),
}

/// The mathematical model of a token.
pub enum TokenModel {
    Dot,
    Comma,
    Arrow,
    Operator(Operator),
    Group(Delimiter, Side),
    LitStr(Seq<char>),
    LitChar(char),
    LitInt(int),
    LitFloat(Seq<char>),
}

impl View for Token {
    type V = TokenModel;

    open spec fn view(&self) -> TokenModel {
        match self {
            Token::Dot => TokenModel::Dot,
            Token::Comma => TokenModel::Comma,
            Token::Arrow => TokenModel::Arrow,
            Token::Operator(op) => TokenModel::Operator(*op),
            Token::Group(d, s) => TokenModel::Group(*d, *s),
            Token::LitStr(s) => TokenModel::LitStr(s@),
            Token::LitChar(c) => TokenModel::LitChar(*c),
            Token::LitInt(v) => TokenModel::LitInt(*v as int),
            Token::LitFloat(s) => TokenModel::LitFloat(s@),
        }
    }
}

/// The models of a sequence of tokens, in order.
pub open spec fn tokens_view(ts: Seq<Token>) -> Seq<TokenModel> {
    ts.map_values(|t: Token| t@)
}

} // verus!
