//! Tokens of arithmetic expressions over market variables.
use vstd::prelude::*;

use crate::float_literal::{is_float_literal, is_float_literal_text};

verus! {

/// A token of an expression. A numeric literal keeps its text: the value it
/// stands for is the `f64` that this text parses to.
#[derive(Debug, Clone, PartialEq)]
pub enum Token {
    Plus,
    Minus,
    Multiply,
    Divide,
    Exponent,
    Number,
    LParen,
    RParen,
    Variable(String),
    Value(String),
}

/// The mathematical view of a token: strings seen as their characters.
pub enum TokenView {
    Plus,
    Minus,
    Multiply,
    Divide,
    Exponent,
    Number,
    LParen,
    RParen,
    Variable(Seq<char>),
    Value(Seq<char>),
}

impl View for Token {
    type V = TokenView;

    open spec fn view(&self) -> TokenView {
        match self {
            Token::Plus => TokenView::Plus,
            Token::Minus => TokenView::Minus,
            Token::Multiply => TokenView::Multiply,
            Token::Divide => TokenView::Divide,
            Token::Exponent => TokenView::Exponent,
            Token::Number => TokenView::Number,
            Token::LParen => TokenView::LParen,
            Token::RParen => TokenView::RParen,
            Token::Variable(s) => TokenView::Variable(s@),
            Token::Value(s) => TokenView::Value(s@),
        }
    }
}

impl TokenView {
    /// Right-associative: only exponentiation.
    pub open spec fn assoc_right(self) -> bool {
        self is Exponent
    }

    /// Left-associative: the four arithmetic operators.
    pub open spec fn assoc_left(self) -> bool {
        self is Multiply || self is Divide || self is Plus || self is Minus
    }

    /// Binding strength; 0 for everything that is not an operator.
    pub open spec fn prec(self) -> u64 {
        match self {
            TokenView::Plus | TokenView::Minus => 2,
            TokenView::Multiply | TokenView::Divide => 3,
            TokenView::Exponent => 4,
            _ => 0,
        }
    }

    pub open spec fn is_op(self) -> bool {
        self is Plus || self is Minus || self is Multiply || self is Divide || self is Exponent
    }

    pub open spec fn is_val(self) -> bool {
        self is Value || self is Variable
    }

    pub open spec fn is_lparen(self) -> bool {
        self is LParen
    }

    pub open spec fn is_rparen(self) -> bool {
        self is RParen
    }
}

/// The views of a sequence of tokens.
pub open spec fn token_views(ts: Seq<Token>) -> Seq<TokenView> {
    ts.map_values(|t: Token| t@)
}

/// The characters that stand alone as operator or parenthesis tokens.
pub open spec fn is_symbol_char(c: char) -> bool {
    c == '+' || c == '-' || c == '*' || c == '/' || c == '^' || c == '(' || c == ')'
}

/// The token that a symbol character stands for.
pub open spec fn symbol_token(c: char) -> TokenView {
    if c == '+' {
        TokenView::Plus
    } else if c == '-' {
        TokenView::Minus
    } else if c == '*' {
        TokenView::Multiply
    } else if c == '/' {
        TokenView::Divide
    } else if c == '^' {
        TokenView::Exponent
    } else if c == '(' {
        TokenView::LParen
    } else {
        TokenView::RParen
    }
}

/// The token that a piece of text stands for: an operator or parenthesis
/// for its one-character symbol, a value for text that parses as an `f64`,
/// and a variable otherwise.
pub open spec fn token_of(s: Seq<char>) -> TokenView {
    if s.len() == 1 && is_symbol_char(s[0]) {
        symbol_token(s[0])
    } else if is_float_literal(s) {
        TokenView::Value(s)
    } else {
        TokenView::Variable(s)
    }
}

/// The token for a symbol character, built without looking at any text.
pub fn symbol_to_token(c: char) -> (t: Token)
    requires
        is_symbol_char(c),
    ensures
        t@ == symbol_token(c),
{
    if c == '+' {
        Token::Plus
    } else if c == '-' {
        Token::Minus
    } else if c == '*' {
        Token::Multiply
    } else if c == '/' {
        Token::Divide
    } else if c == '^' {
        Token::Exponent
    } else if c == '(' {
        Token::LParen
    } else {
        Token::RParen
    }
}

/// Whether `c` is one of the operator and parenthesis symbols.
pub fn is_symbol(c: char) -> (r: bool)
    ensures
        r == is_symbol_char(c),
{
    c == '+' || c == '-' || c == '*' || c == '/' || c == '^' || c == '(' || c == ')'
}

impl Token {
    /// The token that `symbol` stands for.
    pub fn new(symbol: String) -> (t: Token)
        ensures
            t@ == token_of(symbol@),
    {
        let n = symbol.as_str().unicode_len();
        if n == 1 {
            let c = symbol.as_str().get_char(0);
            if is_symbol(c) {
                return symbol_to_token(c);
            }
        }
        if is_float_literal_text(symbol.as_str()) {
            Token::Value(symbol)
        } else {
            Token::Variable(symbol)
        }
    }

    /// A copy of this token.
    pub fn duplicate(&self) -> (t: Token)
        ensures
            t == *self,
    {
        match self {
            Token::Plus => Token::Plus,
            Token::Minus => Token::Minus,
            Token::Multiply => Token::Multiply,
            Token::Divide => Token::Divide,
            Token::Exponent => Token::Exponent,
            Token::Number => Token::Number,
            Token::LParen => Token::LParen,
            Token::RParen => Token::RParen,
            Token::Variable(s) => Token::Variable(s.clone()),
            Token::Value(s) => Token::Value(s.clone()),
        }
    }

    pub fn assoc_right(&self) -> (r: bool)
        ensures
            r == self@.assoc_right(),
    {
        match *self {
            Token::Exponent => true,
            _ => false,
        }
    }

    pub fn assoc_left(&self) -> (r: bool)
        ensures
            r == self@.assoc_left(),
    {
        match *self {
            Token::Multiply | Token::Divide | Token::Plus | Token::Minus => true,
            _ => false,
        }
    }

    pub fn prec(&self) -> (r: u64)
        ensures
            r == self@.prec(),
    {
        match *self {
            Token::Plus | Token::Minus => 2,
            Token::Multiply | Token::Divide => 3,
            Token::Exponent => 4,
            _ => 0,
        }
    }

    pub fn is_op(&self) -> (r: bool)
        ensures
            r == self@.is_op(),
    {
        match *self {
            Token::Plus | Token::Minus | Token::Multiply | Token::Divide | Token::Exponent => true,
            _ => false,
        }
    }

    pub fn is_val(&self) -> (r: bool)
        ensures
            r == self@.is_val(),
    {
        match *self {
            Token::Value(_) | Token::Variable(_) => true,
            _ => false,
        }
    }

    pub fn is_lparen(&self) -> (r: bool)
        ensures
            r == self@.is_lparen(),
    {
        match *self {
            Token::LParen => true,
            _ => false,
        }
    }

    pub fn is_rparen(&self) -> (r: bool)
        ensures
            r == self@.is_rparen(),
    {
        match *self {
            Token::RParen => true,
            _ => false,
        }
    }
}

} // verus!
