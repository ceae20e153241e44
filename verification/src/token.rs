//! Tokens of the source language.

use vstd::prelude::*;
use vstd::std_specs::cmp::PartialEqSpecImpl;

verus! {

/// One lexical unit of a source program.
#[derive(Debug)]
pub enum Token {
    Add,
    Sub,
    Div,
    Mul,
    Assign,
    Equals,
    NotEquals,
    NewLine,
    Gt,
    Gte,
    Lt,
    Lte,
    /// A variable or label name.
    Ident(String),
    /// An integer literal.
    Int(i32),
    /// A literal with a decimal point, kept as it was written.
    Float(String),
    /// A string literal, with its escapes resolved.
    StrLit(String),
    EndIf,
    EndWhile,
    Goto,
    If,
    Input,
    Label,
    Let,
    Print,
    Repeat,
    Then,
    While,
    /// Text that is no token of the language.
    Invalid(String),
}

/// The mathematical value of a [`Token`].
pub enum TokenView {
    Add,
    Sub,
    Div,
    Mul,
    Assign,
    Equals,
    NotEquals,
    NewLine,
    Gt,
    Gte,
    Lt,
    Lte,
    Ident(Seq<char>),
    Int(int),
    Float(Seq<char>),
    StrLit(Seq<char>),
    EndIf,
    EndWhile,
    Goto,
    If,
    Input,
    Label,
    Let,
    Print,
    Repeat,
    Then,
    While,
    Invalid(Seq<char>),
}

impl View for Token {
    type V = TokenView;

    open spec fn view(&self) -> TokenView {
        match self {
            Token::Add => TokenView::Add,
            Token::Sub => TokenView::Sub,
            Token::Div => TokenView::Div,
            Token::Mul => TokenView::Mul,
            Token::Assign => TokenView::Assign,
            Token::Equals => TokenView::Equals,
            Token::NotEquals => TokenView::NotEquals,
            Token::NewLine => TokenView::NewLine,
            Token::Gt => TokenView::Gt,
            Token::Gte => TokenView::Gte,
            Token::Lt => TokenView::Lt,
            Token::Lte => TokenView::Lte,
            Token::Ident(name) => TokenView::Ident(name@),
            Token::Int(value) => TokenView::Int(*value as int),
            Token::Float(text) => TokenView::Float(text@),
            Token::StrLit(text) => TokenView::StrLit(text@),
            Token::EndIf => TokenView::EndIf,
            Token::EndWhile => TokenView::EndWhile,
            Token::Goto => TokenView::Goto,
            Token::If => TokenView::If,
            Token::Input => TokenView::Input,
            Token::Label => TokenView::Label,
            Token::Let => TokenView::Let,
            Token::Print => TokenView::Print,
            Token::Repeat => TokenView::Repeat,
            Token::Then => TokenView::Then,
            Token::While => TokenView::While,
            Token::Invalid(text) => TokenView::Invalid(text@),
        }
    }
}

impl DeepView for Token {
    type V = TokenView;

    open spec fn deep_view(&self) -> TokenView {
        self.view()
    }
}

impl Clone for Token {
    fn clone(&self) -> (copy: Token)
        ensures
            copy == *self,
    {
        match self {
            Token::Add => Token::Add,
            Token::Sub => Token::Sub,
            Token::Div => Token::Div,
            Token::Mul => Token::Mul,
            Token::Assign => Token::Assign,
            Token::Equals => Token::Equals,
            Token::NotEquals => Token::NotEquals,
            Token::NewLine => Token::NewLine,
            Token::Gt => Token::Gt,
            Token::Gte => Token::Gte,
            Token::Lt => Token::Lt,
            Token::Lte => Token::Lte,
            Token::Ident(name) => Token::Ident(name.clone()),
            Token::Int(value) => Token::Int(*value),
            Token::Float(text) => Token::Float(text.clone()),
            Token::StrLit(text) => Token::StrLit(text.clone()),
            Token::EndIf => Token::EndIf,
            Token::EndWhile => Token::EndWhile,
            Token::Goto => Token::Goto,
            Token::If => Token::If,
            Token::Input => Token::Input,
            Token::Label => Token::Label,
            Token::Let => Token::Let,
            Token::Print => Token::Print,
            Token::Repeat => Token::Repeat,
            Token::Then => Token::Then,
            Token::While => Token::While,
            Token::Invalid(text) => Token::Invalid(text.clone()),
        }
    }
}

impl PartialEq for Token {
    fn eq(&self, other: &Token) -> (same: bool) {
        match (self, other) {
            (Token::Add, Token::Add) => true,
            (Token::Sub, Token::Sub) => true,
            (Token::Div, Token::Div) => true,
            (Token::Mul, Token::Mul) => true,
            (Token::Assign, Token::Assign) => true,
            (Token::Equals, Token::Equals) => true,
            (Token::NotEquals, Token::NotEquals) => true,
            (Token::NewLine, Token::NewLine) => true,
            (Token::Gt, Token::Gt) => true,
            (Token::Gte, Token::Gte) => true,
            (Token::Lt, Token::Lt) => true,
            (Token::Lte, Token::Lte) => true,
            (Token::Ident(a), Token::Ident(b)) => *a == *b,
            (Token::Int(a), Token::Int(b)) => *a == *b,
            (Token::Float(a), Token::Float(b)) => *a == *b,
            (Token::StrLit(a), Token::StrLit(b)) => *a == *b,
            (Token::EndIf, Token::EndIf) => true,
            (Token::EndWhile, Token::EndWhile) => true,
            (Token::Goto, Token::Goto) => true,
            (Token::If, Token::If) => true,
            (Token::Input, Token::Input) => true,
            (Token::Label, Token::Label) => true,
            (Token::Let, Token::Let) => true,
            (Token::Print, Token::Print) => true,
            (Token::Repeat, Token::Repeat) => true,
            (Token::Then, Token::Then) => true,
            (Token::While, Token::While) => true,
            (Token::Invalid(a), Token::Invalid(b)) => *a == *b,
            _ => false,
        }
    }
}

impl PartialEqSpecImpl for Token {
    open spec fn obeys_eq_spec() -> bool {
        true
    }

    open spec fn eq_spec(&self, other: &Token) -> bool {
        self@ == other@
    }
}

} // verus!
