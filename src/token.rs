use vstd::prelude::*;

verus! {

/// A binary arithmetic operator of a bracketed expression.
#[derive(Debug, Clone, Copy, PartialEq, Eq, Structural)]
pub enum Op {
    Add,
    Sub,
    Mul,
    Div,
}

/// One token of the source language, in source order.
#[derive(Debug, PartialEq, Eq)]
pub enum Token {
    BlockStart,
    BlockEnd,
    /// A field declaration of the given width in bits.
    Integer(u8),
    Label(String),
    /// The `:` between a field name and its value.
    Assign,
    Value(usize),
    /// A `!` directive.
    Command(String),
    Operation(Op),
    BracketOpen,
    BracketClose,
    /// The `;` statement terminator.
    EndLn,
    /// A reference `v$block.field` to the value of a field.
    PathSubst(String, String),
    ReptStart,
    ReptEnd,
}

/// The mathematical model of a token: strings become character sequences.
pub enum TokenV {
    BlockStart,
    BlockEnd,
    Integer(u8),
    Label(Seq<char>),
    Assign,
    Value(usize),
    Command(Seq<char>),
    Operation(Op),
    BracketOpen,
    BracketClose,
    EndLn,
    PathSubst(Seq<char>, Seq<char>),
    ReptStart,
    ReptEnd,
}

impl View for Token {
    type V = TokenV;

    open spec fn view(&self) -> TokenV {
        match self {
            Token::BlockStart => TokenV::BlockStart,
            Token::BlockEnd => TokenV::BlockEnd,
            Token::Integer(w) => TokenV::Integer(*w),
            Token::Label(s) => TokenV::Label(s@),
            Token::Assign => TokenV::Assign,
            Token::Value(v) => TokenV::Value(*v),
            Token::Command(s) => TokenV::Command(s@),
            Token::Operation(o) => TokenV::Operation(*o),
            Token::BracketOpen => TokenV::BracketOpen,
            Token::BracketClose => TokenV::BracketClose,
            Token::EndLn => TokenV::EndLn,
            Token::PathSubst(b, f) => TokenV::PathSubst(b@, f@),
            Token::ReptStart => TokenV::ReptStart,
            Token::ReptEnd => TokenV::ReptEnd,
        }
    }
}

/// The models of a sequence of tokens.
pub open spec fn tokens_view(ts: Seq<Token>) -> Seq<TokenV> {
    ts.map_values(|t: Token| t@)
}

} // verus!
