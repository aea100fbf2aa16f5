//! Lexer: turns source text into the token sequence the parser consumes.
//!
//! The tokens produced are specified by [`spec_lex`], a pure function over
//! the character sequence; [`lex`] is proved to return exactly those
//! tokens.

use vstd::prelude::*;
use vstd::string::StrSliceExecFns;
use crate::token::{Token, TokenV, spec_lookup_keyword, toks_view, lemma_toks_view_len,
    lemma_toks_view_index};

verus! {

/// True for the letter characters of identifiers: ASCII letters and `_`.
pub open spec fn spec_is_letter(c: char) -> bool {
    ('a' <= c && c <= 'z') || ('A' <= c && c <= 'Z') || (c == '_')
}

/// True for the decimal digit characters.
pub open spec fn spec_is_digit(c: char) -> bool {
    '0' <= c && c <= '9'
}

/// True for the whitespace characters the lexer skips.
pub open spec fn spec_is_whitespace(c: char) -> bool {
    (c == ' ') || (c == '\t') || (c == '\n') || (c == '\r')
}

/// The first index at or after `pos` holding a non-letter, or the end.
pub open spec fn letters_end(s: Seq<char>, pos: nat) -> nat
    decreases s.len() - pos,
{
    if pos < s.len() && spec_is_letter(s[pos as int]) {
        letters_end(s, pos + 1)
    } else {
        pos
    }
}

/// The first index at or after `pos` holding a non-digit, or the end.
pub open spec fn digits_end(s: Seq<char>, pos: nat) -> nat
    decreases s.len() - pos,
{
    if pos < s.len() && spec_is_digit(s[pos as int]) {
        digits_end(s, pos + 1)
    } else {
        pos
    }
}

/// The first index at or after `pos` holding a non-whitespace character, or
/// the end.
pub open spec fn spec_skip_ws(s: Seq<char>, pos: nat) -> nat
    decreases s.len() - pos,
{
    if pos < s.len() && spec_is_whitespace(s[pos as int]) {
        spec_skip_ws(s, pos + 1)
    } else {
        pos
    }
}

/// The token starting at position `pos` (which must hold a non-whitespace
/// character), and the position just after it.
pub open spec fn spec_token_at(s: Seq<char>, pos: nat) -> (TokenV, nat) {
    let c = s[pos as int];
    if c == '+' {
        (TokenV::Plus, pos + 1)
    } else if c == '-' {
        (TokenV::Minus, pos + 1)
    } else if c == '*' {
        (TokenV::Asterisk, pos + 1)
    } else if c == '/' {
        (TokenV::Slash, pos + 1)
    } else if c == '!' {
        if pos + 1 < s.len() && s[pos + 1int] == '=' {
            (TokenV::NotEq, pos + 2)
        } else {
            (TokenV::Bang, pos + 1)
        }
    } else if c == '=' {
        if pos + 1 < s.len() && s[pos + 1int] == '=' {
            (TokenV::Eq, pos + 2)
        } else {
            (TokenV::Assign, pos + 1)
        }
    } else if c == ',' {
        (TokenV::Comma, pos + 1)
    } else if c == ';' {
        (TokenV::SemiColon, pos + 1)
    } else if c == '<' {
        (TokenV::Lt, pos + 1)
    } else if c == '>' {
        (TokenV::Gt, pos + 1)
    } else if c == '(' {
        (TokenV::LParen, pos + 1)
    } else if c == ')' {
        (TokenV::RParen, pos + 1)
    } else if c == '{' {
        (TokenV::LBrace, pos + 1)
    } else if c == '}' {
        (TokenV::RBrace, pos + 1)
    } else if spec_is_letter(c) {
        let e = letters_end(s, pos);
        let lit = s.subrange(pos as int, e as int);
        match spec_lookup_keyword(lit) {
            Some(t) => (t, e),
            None => (TokenV::Ident(lit), e),
        }
    } else if spec_is_digit(c) {
        let e = digits_end(s, pos);
        (TokenV::Int(s.subrange(pos as int, e as int)), e)
    } else {
        (TokenV::Illegal, pos + 1)
    }
}

/// All tokens from position `pos` to the end of the input, whitespace
/// skipped; the terminating end-marker is not part of the sequence.
pub open spec fn spec_lex_at(s: Seq<char>, pos: nat) -> Seq<TokenV>
    decreases s.len() - pos,
{
    if pos >= s.len() {
        Seq::empty()
    } else if spec_is_whitespace(s[pos as int]) {
        spec_lex_at(s, pos + 1)
    } else {
        let (t, p2) = spec_token_at(s, pos);
        if p2 <= pos || p2 > s.len() {
            Seq::empty()
        } else {
            seq![t] + spec_lex_at(s, p2)
        }
    }
}

/// The token sequence of a whole input.
pub open spec fn spec_lex(s: Seq<char>) -> Seq<TokenV> {
    spec_lex_at(s, 0)
}

/// Scanning a letter run stays inside the input and stops at the first
/// non-letter.
pub proof fn lemma_letters_end(s: Seq<char>, pos: nat)
    requires
        pos <= s.len(),
    ensures
        pos <= letters_end(s, pos) <= s.len(),
        letters_end(s, pos) < s.len() ==> !spec_is_letter(s[letters_end(s, pos) as int]),
        forall|j: int| pos <= j < letters_end(s, pos) ==> spec_is_letter(s[j]),
    decreases s.len() - pos,
{
    if pos < s.len() && spec_is_letter(s[pos as int]) {
        lemma_letters_end(s, pos + 1);
    }
}

/// Scanning a digit run stays inside the input and stops at the first
/// non-digit.
pub proof fn lemma_digits_end(s: Seq<char>, pos: nat)
    requires
        pos <= s.len(),
    ensures
        pos <= digits_end(s, pos) <= s.len(),
        digits_end(s, pos) < s.len() ==> !spec_is_digit(s[digits_end(s, pos) as int]),
        forall|j: int| pos <= j < digits_end(s, pos) ==> spec_is_digit(s[j]),
    decreases s.len() - pos,
{
    if pos < s.len() && spec_is_digit(s[pos as int]) {
        lemma_digits_end(s, pos + 1);
    }
}

/// Skipping whitespace stays inside the input and stops at the first
/// non-whitespace character.
pub proof fn lemma_skip_ws(s: Seq<char>, pos: nat)
    requires
        pos <= s.len(),
    ensures
        pos <= spec_skip_ws(s, pos) <= s.len(),
        spec_skip_ws(s, pos) < s.len() ==> !spec_is_whitespace(
            s[spec_skip_ws(s, pos) as int],
        ),
    decreases s.len() - pos,
{
    if pos < s.len() && spec_is_whitespace(s[pos as int]) {
        lemma_skip_ws(s, pos + 1);
    }
}

/// The token stream is unchanged by skipping leading whitespace.
pub proof fn lemma_lex_at_skip_ws(s: Seq<char>, pos: nat)
    requires
        pos <= s.len(),
    ensures
        spec_lex_at(s, pos) == spec_lex_at(s, spec_skip_ws(s, pos)),
    decreases s.len() - pos,
{
    if pos < s.len() && spec_is_whitespace(s[pos as int]) {
        lemma_lex_at_skip_ws(s, pos + 1);
    }
}

/// The position-tracking reader over the input characters.
pub struct Lexer {
    input: Vec<char>,
    next_read_index: usize,
}

impl Lexer {
    /// The input characters.
    pub closed spec fn inp(&self) -> Seq<char> {
        self.input@
    }

    /// The index of the next character to read.
    pub closed spec fn pos(&self) -> nat {
        self.next_read_index as nat
    }

    /// The reading position never passes the end of the input.
    pub open spec fn wf(&self) -> bool {
        self.pos() <= self.inp().len()
    }

    /// A lexer at the start of the given source text.
    pub fn new(input: &str) -> (r: Self)
        ensures
            r.inp() == input@,
            r.pos() == 0,
            r.wf(),
    {
        let n = input.unicode_len();
        let mut chars: Vec<char> = Vec::new();
        let mut i: usize = 0;
        while i < n
            invariant
                n == input@.len(),
                i <= n,
                chars@ == input@.subrange(0, i as int),
            decreases n - i,
        {
            chars.push(input.get_char(i));
            proof {
                assert(chars@ =~= input@.subrange(0, i + 1int));
            }
            i += 1;
        }
        proof {
            assert(chars@ =~= input@);
        }
        Lexer { input: chars, next_read_index: 0 }
    }

    /// Reads the next character and advances, or reports the end.
    pub fn read_char(&mut self) -> (r: Option<char>)
        requires
            old(self).wf(),
        ensures
            final(self).inp() == old(self).inp(),
            final(self).wf(),
            if old(self).pos() < old(self).inp().len() {
                r == Some(old(self).inp()[old(self).pos() as int]) && final(self).pos() == old(
                    self,
                ).pos() + 1
            } else {
                r is None && final(self).pos() == old(self).pos()
            },
    {
        let return_value: Option<char>;
        if self.next_read_index < self.input.len() {
            return_value = Some(self.input[self.next_read_index]);
            self.next_read_index += 1;
        } else {
            return_value = None;
        }
        return_value
    }

    /// Looks at the next character without advancing.
    pub fn peek_char(&self) -> (r: Option<char>)
        ensures
            if self.pos() < self.inp().len() {
                r == Some(self.inp()[self.pos() as int])
            } else {
                r is None
            },
    {
        if self.next_read_index < self.input.len() {
            Some(self.input[self.next_read_index])
        } else {
            None
        }
    }

    /// True for ASCII letters and `_`.
    pub fn is_letter(c: char) -> (r: bool)
        ensures
            r == spec_is_letter(c),
    {
        ('a' <= c && c <= 'z') || ('A' <= c && c <= 'Z') || (c == '_')
    }

    /// True for decimal digits.
    pub fn is_digit(c: char) -> (r: bool)
        ensures
            r == spec_is_digit(c),
    {
        '0' <= c && c <= '9'
    }

    /// True for the whitespace characters the lexer skips.
    pub fn is_whitespace(c: char) -> (r: bool)
        ensures
            r == spec_is_whitespace(c),
    {
        (c == ' ') || (c == '\t') || (c == '\n') || (c == '\r')
    }

    /// Advances past whitespace.
    pub fn skip_whitespace(&mut self)
        requires
            old(self).wf(),
        ensures
            final(self).inp() == old(self).inp(),
            final(self).wf(),
            final(self).pos() == spec_skip_ws(old(self).inp(), old(self).pos()),
    {
        loop
            invariant
                self.wf(),
                self.inp() == old(self).inp(),
                spec_skip_ws(self.inp(), self.pos()) == spec_skip_ws(
                    old(self).inp(),
                    old(self).pos(),
                ),
            ensures
                self.wf(),
                self.inp() == old(self).inp(),
                spec_skip_ws(self.inp(), self.pos()) == spec_skip_ws(
                    old(self).inp(),
                    old(self).pos(),
                ),
                self.pos() >= self.inp().len() || !spec_is_whitespace(
                    self.inp()[self.pos() as int],
                ),
            decreases self.inp().len() - self.pos(),
        {
            let c = self.peek_char();
            match c {
                Some(c) => {
                    if Lexer::is_whitespace(c) {
                        self.read_char();
                    } else {
                        break ;
                    }
                },
                None => {
                    break ;
                },
            }
        }
    }

    /// Reads the identifier or keyword token whose first character `c` was
    /// already consumed.
    fn lex_keyword_iden_token(&mut self, c: char) -> (r: Token)
        requires
            old(self).wf(),
            old(self).pos() >= 1,
            old(self).inp()[old(self).pos() - 1] == c,
            spec_is_letter(c),
        ensures
            final(self).inp() == old(self).inp(),
            final(self).wf(),
            final(self).pos() > old(self).pos() - 1,
            ({
                let start = (old(self).pos() - 1) as nat;
                let tp = spec_token_at(old(self).inp(), start);
                r@ == tp.0 && final(self).pos() == tp.1
            }),
    {
        let ghost start = (old(self).pos() - 1) as nat;
        let mut literal: Vec<char> = Vec::new();
        literal.push(c);
        proof {
            lemma_letters_end(self.inp(), start);
            assert(letters_end(self.inp(), start) == letters_end(self.inp(), self.pos()));
            assert(literal@ =~= self.inp().subrange(start as int, self.pos() as int));
        }
        loop
            invariant
                self.wf(),
                self.inp() == old(self).inp(),
                start < self.pos() <= self.inp().len(),
                literal@ == self.inp().subrange(start as int, self.pos() as int),
                letters_end(self.inp(), start) == letters_end(self.inp(), self.pos()),
            ensures
                self.wf(),
                self.inp() == old(self).inp(),
                start < self.pos() <= self.inp().len(),
                literal@ == self.inp().subrange(start as int, self.pos() as int),
                letters_end(self.inp(), start) == letters_end(self.inp(), self.pos()),
                self.pos() >= self.inp().len() || !spec_is_letter(self.inp()[self.pos() as int]),
            decreases self.inp().len() - self.pos(),
        {
            let p = self.peek_char();
            match p {
                Some(pc) => {
                    if Lexer::is_letter(pc) {
                        let c2 = self.read_char();
                        match c2 {
                            Some(c2v) => {
                                literal.push(c2v);
                                proof {
                                    assert(literal@ =~= self.inp().subrange(
                                        start as int,
                                        self.pos() as int,
                                    ));
                                }
                            },
                            None => {},
                        }
                    } else {
                        break ;
                    }
                },
                None => {
                    break ;
                },
            }
        }
        proof {
            assert(letters_end(self.inp(), self.pos()) == self.pos());
            lemma_letters_end(self.inp(), start);
        }
        let r = match Token::lookup_keyword(&literal) {
            Some(token) => token,
            None => Token::Ident(literal),
        };
        r
    }

    /// Reads the integer token whose first digit `c` was already consumed.
    fn lex_int_token(&mut self, c: char) -> (r: Token)
        requires
            old(self).wf(),
            old(self).pos() >= 1,
            old(self).inp()[old(self).pos() - 1] == c,
            spec_is_digit(c),
            !spec_is_letter(c),
        ensures
            final(self).inp() == old(self).inp(),
            final(self).wf(),
            final(self).pos() > old(self).pos() - 1,
            ({
                let start = (old(self).pos() - 1) as nat;
                let tp = spec_token_at(old(self).inp(), start);
                r@ == tp.0 && final(self).pos() == tp.1
            }),
    {
        let ghost start = (old(self).pos() - 1) as nat;
        let mut literal: Vec<char> = Vec::new();
        literal.push(c);
        proof {
            lemma_digits_end(self.inp(), start);
            assert(digits_end(self.inp(), start) == digits_end(self.inp(), self.pos()));
            assert(literal@ =~= self.inp().subrange(start as int, self.pos() as int));
        }
        loop
            invariant
                self.wf(),
                self.inp() == old(self).inp(),
                start < self.pos() <= self.inp().len(),
                literal@ == self.inp().subrange(start as int, self.pos() as int),
                digits_end(self.inp(), start) == digits_end(self.inp(), self.pos()),
            ensures
                self.wf(),
                self.inp() == old(self).inp(),
                start < self.pos() <= self.inp().len(),
                literal@ == self.inp().subrange(start as int, self.pos() as int),
                digits_end(self.inp(), start) == digits_end(self.inp(), self.pos()),
                self.pos() >= self.inp().len() || !spec_is_digit(self.inp()[self.pos() as int]),
            decreases self.inp().len() - self.pos(),
        {
            let p = self.peek_char();
            match p {
                Some(pc) => {
                    if Lexer::is_digit(pc) {
                        let c2 = self.read_char();
                        match c2 {
                            Some(c2v) => {
                                literal.push(c2v);
                                proof {
                                    assert(literal@ =~= self.inp().subrange(
                                        start as int,
                                        self.pos() as int,
                                    ));
                                }
                            },
                            None => {},
                        }
                    } else {
                        break ;
                    }
                },
                None => {
                    break ;
                },
            }
        }
        proof {
            assert(digits_end(self.inp(), self.pos()) == self.pos());
            lemma_digits_end(self.inp(), start);
        }
        Token::Int(literal)
    }

    /// Skips whitespace and reads the next token; at the end of the input
    /// the end-marker token is returned and the position stays put.
    pub fn read_token(&mut self) -> (r: Token)
        requires
            old(self).wf(),
        ensures
            final(self).inp() == old(self).inp(),
            final(self).wf(),
            ({
                let p = spec_skip_ws(old(self).inp(), old(self).pos());
                if p >= old(self).inp().len() {
                    r@ == TokenV::Eof && final(self).pos() == p
                } else {
                    let tp = spec_token_at(old(self).inp(), p);
                    r@ == tp.0 && final(self).pos() == tp.1 && p < tp.1 <= old(
                        self,
                    ).inp().len() && !(r@ is Eof)
                }
            }),
    {
        self.skip_whitespace();
        proof {
            lemma_skip_ws(old(self).inp(), old(self).pos());
        }
        let c_opt = self.read_char();
        match c_opt {
            Some(c) => {
                if c == '+' {
                    Token::Plus
                } else if c == '-' {
                    Token::Minus
                } else if c == '*' {
                    Token::Asterisk
                } else if c == '/' {
                    Token::Slash
                } else if c == '!' {
                    let nx = self.peek_char();
                    let follows_eq = match nx {
                        Some(x) => x == '=',
                        None => false,
                    };
                    if follows_eq {
                        self.read_char();
                        Token::NotEq
                    } else {
                        Token::Bang
                    }
                } else if c == '=' {
                    let nx = self.peek_char();
                    let follows_eq = match nx {
                        Some(x) => x == '=',
                        None => false,
                    };
                    if follows_eq {
                        self.read_char();
                        Token::Eq
                    } else {
                        Token::Assign
                    }
                } else if c == ',' {
                    Token::Comma
                } else if c == ';' {
                    Token::SemiColon
                } else if c == '<' {
                    Token::Lt
                } else if c == '>' {
                    Token::Gt
                } else if c == '(' {
                    Token::LParen
                } else if c == ')' {
                    Token::RParen
                } else if c == '{' {
                    Token::LBrace
                } else if c == '}' {
                    Token::RBrace
                } else if Lexer::is_letter(c) {
                    self.lex_keyword_iden_token(c)
                } else if Lexer::is_digit(c) {
                    self.lex_int_token(c)
                } else {
                    Token::Illegal
                }
            },
            None => Token::Eof,
        }
    }
}

/// Lexes the whole source text; the end-marker is consumed, not returned.
pub fn lex(input: &str) -> (r: Vec<Token>)
    ensures
        toks_view(r@) == spec_lex(input@),
{
    let mut lexer = Lexer::new(input);
    let mut token_vec: Vec<Token> = Vec::new();
    let mut token = lexer.read_token();
    proof {
        lemma_step(input@, 0, token@, lexer.pos());
        lemma_toks_view_len(token_vec@);
    }
    while !(matches!(token, Token::Eof))
        invariant
            lexer.wf(),
            lexer.inp() == input@,
            !(token@ is Eof) ==> spec_lex(input@) == toks_view(token_vec@) + seq![token@]
                + spec_lex_at(input@, lexer.pos()),
            token@ is Eof ==> spec_lex(input@) == toks_view(token_vec@),
        decreases input@.len() - lexer.pos() + (if token@ is Eof {
            0int
        } else {
            1int
        }),
    {
        proof {
            lemma_toks_view_len(token_vec@);
        }
        let ghost old_vec = token_vec@;
        let ghost old_tok: Token = token;
        let ghost old_pos = lexer.pos();
        token_vec.push(token);
        token = lexer.read_token();
        proof {
            lemma_step(input@, old_pos, token@, lexer.pos());
            lemma_toks_view_push(old_vec, old_tok);
            assert(toks_view(token_vec@) =~= toks_view(old_vec).push(old_tok@));
            assert(toks_view(old_vec).push(old_tok@) =~= toks_view(old_vec) + seq![old_tok@]);
        }
    }
    token_vec
}

/// One reading step: the tokens from `pos` are the token read there
/// followed by the tokens from the new position.
proof fn lemma_step(s: Seq<char>, pos: nat, t: TokenV, pos2: nat)
    requires
        pos <= s.len(),
        ({
            let p = spec_skip_ws(s, pos);
            if p >= s.len() {
                t is Eof && pos2 == p
            } else {
                let tp = spec_token_at(s, p);
                t == tp.0 && pos2 == tp.1 && p < tp.1 <= s.len() && !(t is Eof)
            }
        }),
    ensures
        t is Eof ==> spec_lex_at(s, pos) == Seq::<TokenV>::empty(),
        !(t is Eof) ==> spec_lex_at(s, pos) == seq![t] + spec_lex_at(s, pos2),
        pos2 >= pos,
{
    lemma_skip_ws(s, pos);
    lemma_lex_at_skip_ws(s, pos);
    let p = spec_skip_ws(s, pos);
    if p >= s.len() {
        assert(spec_lex_at(s, p) =~= Seq::<TokenV>::empty());
    }
}

/// Appending a token appends its view.
proof fn lemma_toks_view_push(ts: Seq<Token>, t: Token)
    ensures
        toks_view(ts.push(t)) =~= toks_view(ts).push(t@),
{
    lemma_toks_view_len(ts);
    lemma_toks_view_len(ts.push(t));
    assert forall|j: int| 0 <= j < ts.len() + 1 implies toks_view(ts.push(t))[j] == toks_view(
        ts,
    ).push(t@)[j] by {
        lemma_toks_view_index(ts.push(t), j);
        if j < ts.len() {
            lemma_toks_view_index(ts, j);
        }
    }
}

} // verus!
