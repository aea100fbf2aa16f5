//! Token alphabet produced by the lexer and consumed by the parser.

use vstd::prelude::*;

verus! {

/// Specification-level mirror of [`Token`]: identifier and integer payloads
/// are modelled as `Seq<char>`.
pub enum TokenV {
    Illegal,
    Eof,
    Ident(Seq<char>),
    Int(Seq<char>),
    Plus,
    Minus,
    Asterisk,
    Slash,
    Bang,
    Assign,
    Eq,
    NotEq,
    Lt,
    Gt,
    Comma,
    SemiColon,
    LParen,
    RParen,
    LBrace,
    RBrace,
    Function,
    Let,
    Return,
    True,
    False,
    If,
    Else,
}

/// One classified token of source text.  `Ident` and `Int` carry the
/// characters they were read from.
#[derive(Debug, PartialEq, Eq)]
pub enum Token {
    Illegal,
    Eof,
    Ident(Vec<char>),
    Int(Vec<char>),
    Plus,
    Minus,
    Asterisk,
    Slash,
    Bang,
    Assign,
    Eq,
    NotEq,
    Lt,
    Gt,
    Comma,
    SemiColon,
    LParen,
    RParen,
    LBrace,
    RBrace,
    Function,
    Let,
    Return,
    True,
    False,
    If,
    Else,
}

impl View for Token {
    type V = TokenV;

    open spec fn view(&self) -> TokenV {
        match self {
            Token::Illegal => TokenV::Illegal,
            Token::Eof => TokenV::Eof,
            Token::Ident(l) => TokenV::Ident(l@),
            Token::Int(l) => TokenV::Int(l@),
            Token::Plus => TokenV::Plus,
            Token::Minus => TokenV::Minus,
            Token::Asterisk => TokenV::Asterisk,
            Token::Slash => TokenV::Slash,
            Token::Bang => TokenV::Bang,
            Token::Assign => TokenV::Assign,
            Token::Eq => TokenV::Eq,
            Token::NotEq => TokenV::NotEq,
            Token::Lt => TokenV::Lt,
            Token::Gt => TokenV::Gt,
            Token::Comma => TokenV::Comma,
            Token::SemiColon => TokenV::SemiColon,
            Token::LParen => TokenV::LParen,
            Token::RParen => TokenV::RParen,
            Token::LBrace => TokenV::LBrace,
            Token::RBrace => TokenV::RBrace,
            Token::Function => TokenV::Function,
            Token::Let => TokenV::Let,
            Token::Return => TokenV::Return,
            Token::True => TokenV::True,
            Token::False => TokenV::False,
            Token::If => TokenV::If,
            Token::Else => TokenV::Else,
        }
    }
}

/// The characters of the keyword `fn`.
pub open spec fn kw_fn() -> Seq<char> {
    seq!['f', 'n']
}

/// The characters of the keyword `let`.
pub open spec fn kw_let() -> Seq<char> {
    seq!['l', 'e', 't']
}

/// The characters of the keyword `return`.
pub open spec fn kw_return() -> Seq<char> {
    seq!['r', 'e', 't', 'u', 'r', 'n']
}

/// The characters of the keyword `true`.
pub open spec fn kw_true() -> Seq<char> {
    seq!['t', 'r', 'u', 'e']
}

/// The characters of the keyword `false`.
pub open spec fn kw_false() -> Seq<char> {
    seq!['f', 'a', 'l', 's', 'e']
}

/// The characters of the keyword `if`.
pub open spec fn kw_if() -> Seq<char> {
    seq!['i', 'f']
}

/// The characters of the keyword `else`.
pub open spec fn kw_else() -> Seq<char> {
    seq!['e', 'l', 's', 'e']
}

/// Which keyword token, if any, a run of letters denotes.
pub open spec fn spec_lookup_keyword(s: Seq<char>) -> Option<TokenV> {
    if s == kw_fn() {
        Some(TokenV::Function)
    } else if s == kw_let() {
        Some(TokenV::Let)
    } else if s == kw_return() {
        Some(TokenV::Return)
    } else if s == kw_true() {
        Some(TokenV::True)
    } else if s == kw_false() {
        Some(TokenV::False)
    } else if s == kw_if() {
        Some(TokenV::If)
    } else if s == kw_else() {
        Some(TokenV::Else)
    } else {
        None
    }
}

/// True when the two character vectors hold the same characters.
pub fn chars_eq(a: &Vec<char>, b: &Vec<char>) -> (r: bool)
    ensures
        r == (a@ == b@),
{
    if a.len() != b.len() {
        proof {
            assert(a@ != b@);
        }
        return false;
    }
    let n = a.len();
    let mut i: usize = 0;
    while i < n
        invariant
            n == a.len() == b.len(),
            i <= n,
            forall|j: int| 0 <= j < i ==> a@[j] == b@[j],
        decreases n - i,
    {
        if a[i] != b[i] {
            proof {
                assert(a@ != b@);
            }
            return false;
        }
        i += 1;
    }
    proof {
        assert(a@ =~= b@);
    }
    true
}

impl Token {
    /// Recognises the keywords `fn let return true false if else`; any other
    /// run of letters is an identifier.
    pub fn lookup_keyword(literal: &Vec<char>) -> (r: Option<Self>)
        ensures
            match r {
                Some(t) => spec_lookup_keyword(literal@) == Some(t@),
                None => spec_lookup_keyword(literal@) is None,
            },
    {
        let w_fn: Vec<char> = vec!['f', 'n'];
        let w_let: Vec<char> = vec!['l', 'e', 't'];
        let w_return: Vec<char> = vec!['r', 'e', 't', 'u', 'r', 'n'];
        let w_true: Vec<char> = vec!['t', 'r', 'u', 'e'];
        let w_false: Vec<char> = vec!['f', 'a', 'l', 's', 'e'];
        let w_if: Vec<char> = vec!['i', 'f'];
        let w_else: Vec<char> = vec!['e', 'l', 's', 'e'];
        if chars_eq(literal, &w_fn) {
            Some(Token::Function)
        } else if chars_eq(literal, &w_let) {
            Some(Token::Let)
        } else if chars_eq(literal, &w_return) {
            Some(Token::Return)
        } else if chars_eq(literal, &w_true) {
            Some(Token::True)
        } else if chars_eq(literal, &w_false) {
            Some(Token::False)
        } else if chars_eq(literal, &w_if) {
            Some(Token::If)
        } else if chars_eq(literal, &w_else) {
            Some(Token::Else)
        } else {
            None
        }
    }
}

/// Copies a vector of characters.
pub fn clone_chars(v: &Vec<char>) -> (r: Vec<char>)
    ensures
        r@ == v@,
{
    let mut out: Vec<char> = Vec::new();
    let mut i: usize = 0;
    while i < v.len()
        invariant
            i <= v.len(),
            out@ == v@.subrange(0, i as int),
        decreases v.len() - i,
    {
        out.push(v[i]);
        i += 1;
    }
    proof {
        assert(out@ =~= v@);
    }
    out
}

/// Copies a token, payload included.
pub fn clone_token(t: &Token) -> (r: Token)
    ensures
        r@ == t@,
{
    match t {
        Token::Illegal => Token::Illegal,
        Token::Eof => Token::Eof,
        Token::Ident(l) => Token::Ident(clone_chars(l)),
        Token::Int(l) => Token::Int(clone_chars(l)),
        Token::Plus => Token::Plus,
        Token::Minus => Token::Minus,
        Token::Asterisk => Token::Asterisk,
        Token::Slash => Token::Slash,
        Token::Bang => Token::Bang,
        Token::Assign => Token::Assign,
        Token::Eq => Token::Eq,
        Token::NotEq => Token::NotEq,
        Token::Lt => Token::Lt,
        Token::Gt => Token::Gt,
        Token::Comma => Token::Comma,
        Token::SemiColon => Token::SemiColon,
        Token::LParen => Token::LParen,
        Token::RParen => Token::RParen,
        Token::LBrace => Token::LBrace,
        Token::RBrace => Token::RBrace,
        Token::Function => Token::Function,
        Token::Let => Token::Let,
        Token::Return => Token::Return,
        Token::True => Token::True,
        Token::False => Token::False,
        Token::If => Token::If,
        Token::Else => Token::Else,
    }
}

/// The token views of a token sequence, element by element.
pub open spec fn toks_view(ts: Seq<Token>) -> Seq<TokenV> {
    Seq::new(ts.len(), |i: int| ts[i]@)
}

pub proof fn lemma_toks_view_len(ts: Seq<Token>)
    ensures
        toks_view(ts).len() == ts.len(),
{
}

pub proof fn lemma_toks_view_index(ts: Seq<Token>, i: int)
    requires
        0 <= i < ts.len(),
    ensures
        toks_view(ts)[i] == ts[i]@,
{
}

/// True when the two tokens are the same symbol with the same payload.
pub fn token_eq(a: &Token, b: &Token) -> (r: bool)
    ensures
        r == (a@ == b@),
{
    match (a, b) {
        (Token::Illegal, Token::Illegal) => true,
        (Token::Eof, Token::Eof) => true,
        (Token::Ident(x), Token::Ident(y)) => chars_eq(x, y),
        (Token::Int(x), Token::Int(y)) => chars_eq(x, y),
        (Token::Plus, Token::Plus) => true,
        (Token::Minus, Token::Minus) => true,
        (Token::Asterisk, Token::Asterisk) => true,
        (Token::Slash, Token::Slash) => true,
        (Token::Bang, Token::Bang) => true,
        (Token::Assign, Token::Assign) => true,
        (Token::Eq, Token::Eq) => true,
        (Token::NotEq, Token::NotEq) => true,
        (Token::Lt, Token::Lt) => true,
        (Token::Gt, Token::Gt) => true,
        (Token::Comma, Token::Comma) => true,
        (Token::SemiColon, Token::SemiColon) => true,
        (Token::LParen, Token::LParen) => true,
        (Token::RParen, Token::RParen) => true,
        (Token::LBrace, Token::LBrace) => true,
        (Token::RBrace, Token::RBrace) => true,
        (Token::Function, Token::Function) => true,
        (Token::Let, Token::Let) => true,
        (Token::Return, Token::Return) => true,
        (Token::True, Token::True) => true,
        (Token::False, Token::False) => true,
        (Token::If, Token::If) => true,
        (Token::Else, Token::Else) => true,
        _ => false,
    }
}

} // verus!
