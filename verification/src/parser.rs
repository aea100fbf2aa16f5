//! Pratt parser: turns the token sequence into a `Program`.
//!
//! The grammar and the parse result are specified by the pure functions
//! `spec_parse_*` over the token-sequence model; every executable parse
//! function is proved to return exactly what they prescribe.  Binding
//! powers encode precedence: an infix loop extends the left operand while
//! the next token binds more tightly than the caller's floor, which makes
//! same-powered chains associate to the left.

use vstd::prelude::*;
use crate::token::{Token, TokenV, toks_view, lemma_toks_view_len, lemma_toks_view_index,
    token_eq, clone_token};
use crate::ast::{Program, StatementNode, ExpressionNode, StmtV, ExprV, PrefixOperatorType,
    InfixOperatorType, BooleanType};

verus! {

/// Parse failures: a required token that is absent, a name position
/// holding something else, a token that cannot begin an expression, and a
/// token that cannot continue one.  Each carries what was actually found
/// and where.
#[derive(Debug)]
pub enum ParseError {
    UnexpectedToken { expected: Token, actual: Token, position: usize },
    ExpectedIdentifier { actual: Token, position: usize },
    NoPrefixRule { actual: Token, position: usize },
    NoInfixRule { actual: Token, position: usize },
}

/// Specification-level mirror of [`ParseError`].
pub enum PErrV {
    UnexpectedToken { expected: TokenV, actual: TokenV, position: nat },
    ExpectedIdentifier { actual: TokenV, position: nat },
    NoPrefixRule { actual: TokenV, position: nat },
    NoInfixRule { actual: TokenV, position: nat },
}

impl View for ParseError {
    type V = PErrV;

    open spec fn view(&self) -> PErrV {
        match self {
            ParseError::UnexpectedToken { expected, actual, position } => {
                PErrV::UnexpectedToken {
                    expected: expected@,
                    actual: actual@,
                    position: *position as nat,
                }
            },
            ParseError::ExpectedIdentifier { actual, position } => PErrV::ExpectedIdentifier {
                actual: actual@,
                position: *position as nat,
            },
            ParseError::NoPrefixRule { actual, position } => PErrV::NoPrefixRule {
                actual: actual@,
                position: *position as nat,
            },
            ParseError::NoInfixRule { actual, position } => PErrV::NoInfixRule {
                actual: actual@,
                position: *position as nat,
            },
        }
    }
}

/// The token at a position; looking past the end yields the end-marker,
/// never a failure.
pub open spec fn tok_at(toks: Seq<TokenV>, pos: nat) -> TokenV {
    if pos < toks.len() {
        toks[pos as int]
    } else {
        TokenV::Eof
    }
}

/// Binding powers, lowest to highest: no power, the expression floor,
/// equality, comparison, sum, product, prefix, call.
pub const END: u8 = 0;

pub const LOWEST: u8 = 1;

pub const EQUALS: u8 = 2;

pub const LESSGREATER: u8 = 3;

pub const SUM: u8 = 4;

pub const PRODUCT: u8 = 5;

pub const PREFIX: u8 = 6;

pub const CALL: u8 = 7;

/// The binding power a token has when it continues an expression.
pub open spec fn spec_bp(t: TokenV) -> int {
    match t {
        TokenV::Eq => EQUALS as int,
        TokenV::NotEq => EQUALS as int,
        TokenV::Lt => LESSGREATER as int,
        TokenV::Gt => LESSGREATER as int,
        TokenV::Plus => SUM as int,
        TokenV::Minus => SUM as int,
        TokenV::Asterisk => PRODUCT as int,
        TokenV::Slash => PRODUCT as int,
        TokenV::LParen => CALL as int,
        _ => END as int,
    }
}

/// The binding power of `token` when it continues an expression.
pub fn to_binding_power(token: &Token) -> (r: u8)
    ensures
        r as int == spec_bp(token@),
{
    match token {
        Token::Eq | Token::NotEq => EQUALS,
        Token::Lt | Token::Gt => LESSGREATER,
        Token::Plus | Token::Minus => SUM,
        Token::Asterisk | Token::Slash => PRODUCT,
        Token::LParen => CALL,
        _ => END,
    }
}

/// An identifier expression read at `pos`.
pub open spec fn spec_parse_identifier(toks: Seq<TokenV>, pos: nat) -> Result<
    (ExprV, nat),
    PErrV,
> {
    match tok_at(toks, pos) {
        TokenV::Ident(name) => Ok((ExprV::Ident { name }, pos + 1)),
        t => Err(PErrV::ExpectedIdentifier { actual: t, position: pos }),
    }
}

/// An integer literal expression read at `pos`.
pub open spec fn spec_parse_integer(toks: Seq<TokenV>, pos: nat) -> Result<(ExprV, nat), PErrV> {
    match tok_at(toks, pos) {
        TokenV::Int(digits) => Ok((ExprV::Int { digits }, pos + 1)),
        t => Err(PErrV::UnexpectedToken { expected: TokenV::Int(Seq::empty()), actual: t, position: pos }),
    }
}

/// A boolean literal expression read at `pos`.
pub open spec fn spec_parse_boolean(toks: Seq<TokenV>, pos: nat) -> Result<(ExprV, nat), PErrV> {
    match tok_at(toks, pos) {
        TokenV::True => Ok((ExprV::Bool { value: true }, pos + 1)),
        TokenV::False => Ok((ExprV::Bool { value: false }, pos + 1)),
        t => Err(PErrV::UnexpectedToken { expected: TokenV::True, actual: t, position: pos }),
    }
}

/// Whether a step from `pos` to `p2` stays inside the token sequence and
/// makes progress; every successful sub-parse does, so the guards built
/// on this never fire — they only justify termination of the
/// specification.
pub open spec fn step_ok(toks: Seq<TokenV>, pos: nat, p2: nat) -> bool {
    pos < p2 <= toks.len()
}

/// One expression, Pratt style: a prefix (null-denotation) parse, then
/// infix extensions while the next token binds more tightly than
/// `min_bp`.
pub open spec fn spec_parse_expression(toks: Seq<TokenV>, pos: nat, min_bp: int) -> Result<
    (ExprV, nat),
    PErrV,
>
    decreases toks.len() - pos, 3int,
{
    match spec_parse_nud(toks, pos) {
        Ok((left, p2)) => {
            if !step_ok(toks, pos, p2) {
                arbitrary()
            } else {
                spec_led_loop(toks, p2, min_bp, left)
            }
        },
        Err(e) => Err(e),
    }
}

/// The infix loop: while the next token's power exceeds the floor, extend
/// the accumulated left expression.
pub open spec fn spec_led_loop(toks: Seq<TokenV>, pos: nat, min_bp: int, left: ExprV) -> Result<
    (ExprV, nat),
    PErrV,
>
    decreases toks.len() - pos, 2int,
{
    if spec_bp(tok_at(toks, pos)) > min_bp {
        match spec_parse_led(toks, pos, left) {
            Ok((left2, p2)) => {
                if !step_ok(toks, pos, p2) {
                    arbitrary()
                } else {
                    spec_led_loop(toks, p2, min_bp, left2)
                }
            },
            Err(e) => Err(e),
        }
    } else {
        Ok((left, pos))
    }
}

/// The prefix (null-denotation) rules, dispatched on the token at `pos`.
pub open spec fn spec_parse_nud(toks: Seq<TokenV>, pos: nat) -> Result<(ExprV, nat), PErrV>
    decreases toks.len() - pos, 2int,
{
    match tok_at(toks, pos) {
        TokenV::Ident(_) => spec_parse_identifier(toks, pos),
        TokenV::Int(_) => spec_parse_integer(toks, pos),
        TokenV::True => spec_parse_boolean(toks, pos),
        TokenV::False => spec_parse_boolean(toks, pos),
        TokenV::LParen => spec_parse_grouped(toks, pos),
        TokenV::Bang => spec_parse_prefix(toks, pos),
        TokenV::Minus => spec_parse_prefix(toks, pos),
        TokenV::If => spec_parse_if(toks, pos),
        TokenV::Function => spec_parse_function(toks, pos),
        t => Err(PErrV::NoPrefixRule { actual: t, position: pos }),
    }
}

/// A parenthesised expression: `(` expression `)`; the parentheses leave
/// no node behind.
pub open spec fn spec_parse_grouped(toks: Seq<TokenV>, pos: nat) -> Result<(ExprV, nat), PErrV>
    decreases toks.len() - pos, 1int,
{
    if !(tok_at(toks, pos) is LParen) {
        Err(PErrV::UnexpectedToken {
            expected: TokenV::LParen,
            actual: tok_at(toks, pos),
            position: pos,
        })
    } else {
        match spec_parse_expression(toks, pos + 1, LOWEST as int) {
            Ok((e, p2)) => {
                if tok_at(toks, p2) is RParen {
                    Ok((e, p2 + 1))
                } else {
                    Err(PErrV::UnexpectedToken {
                        expected: TokenV::RParen,
                        actual: tok_at(toks, p2),
                        position: p2,
                    })
                }
            },
            Err(e) => Err(e),
        }
    }
}

/// A prefix operator expression: `!` or `-`, then its operand at prefix
/// power.
pub open spec fn spec_parse_prefix(toks: Seq<TokenV>, pos: nat) -> Result<(ExprV, nat), PErrV>
    decreases toks.len() - pos, 1int,
{
    if pos >= toks.len() {
        arbitrary()
    } else {
        let op = if tok_at(toks, pos) is Bang {
            PrefixOperatorType::Bang
        } else {
            PrefixOperatorType::Minus
        };
        match spec_parse_expression(toks, pos + 1, PREFIX as int) {
            Ok((right, p2)) => Ok((ExprV::Prefix { op, right: Box::new(right) }, p2)),
            Err(e) => Err(e),
        }
    }
}

/// An `if` expression: `if ( condition ) { consequence }` with an
/// optional `else { alternative }`.
pub open spec fn spec_parse_if(toks: Seq<TokenV>, pos: nat) -> Result<(ExprV, nat), PErrV>
    decreases toks.len() - pos, 1int,
{
    if !(tok_at(toks, pos + 1) is LParen) {
        Err(PErrV::UnexpectedToken {
            expected: TokenV::LParen,
            actual: tok_at(toks, pos + 1),
            position: pos + 1,
        })
    } else {
        match spec_parse_expression(toks, pos + 2, LOWEST as int) {
            Ok((cond, p2)) => {
                if !step_ok(toks, pos + 2, p2) {
                    arbitrary()
                } else if !(tok_at(toks, p2) is RParen) {
                    Err(PErrV::UnexpectedToken {
                        expected: TokenV::RParen,
                        actual: tok_at(toks, p2),
                        position: p2,
                    })
                } else {
                    match spec_parse_block(toks, p2 + 1) {
                        Ok((cons, p3)) => {
                            if !step_ok(toks, p2 + 1, p3) {
                                arbitrary()
                            } else if tok_at(toks, p3) is Else {
                                match spec_parse_block(toks, p3 + 1) {
                                    Ok((alt, p4)) => Ok(
                                        (
                                            ExprV::If {
                                                condition: Box::new(cond),
                                                consequence: Box::new(cons),
                                                alternative: Some(Box::new(alt)),
                                            },
                                            p4,
                                        ),
                                    ),
                                    Err(e) => Err(e),
                                }
                            } else {
                                Ok(
                                    (
                                        ExprV::If {
                                            condition: Box::new(cond),
                                            consequence: Box::new(cons),
                                            alternative: None,
                                        },
                                        p3,
                                    ),
                                )
                            }
                        },
                        Err(e) => Err(e),
                    }
                }
            },
            Err(e) => Err(e),
        }
    }
}

/// A function literal: `fn ( parameters ) { body }`, each parameter a
/// bare identifier.
pub open spec fn spec_parse_function(toks: Seq<TokenV>, pos: nat) -> Result<(ExprV, nat), PErrV>
    decreases toks.len() - pos, 1int,
{
    if !(tok_at(toks, pos + 1) is LParen) {
        Err(PErrV::UnexpectedToken {
            expected: TokenV::LParen,
            actual: tok_at(toks, pos + 1),
            position: pos + 1,
        })
    } else {
        match spec_params_first(toks, pos + 2) {
            Ok((params, p2)) => {
                if !(tok_at(toks, p2) is RParen) {
                    Err(PErrV::UnexpectedToken {
                        expected: TokenV::RParen,
                        actual: tok_at(toks, p2),
                        position: p2,
                    })
                } else if !(p2 + 1 > pos) || !(p2 + 1 <= toks.len() + 1) || !(p2 >= pos + 2) {
                    arbitrary()
                } else {
                    match spec_parse_block(toks, p2 + 1) {
                        Ok((body, p3)) => Ok(
                            (ExprV::Func { parameters: params, body: Box::new(body) }, p3),
                        ),
                        Err(e) => Err(e),
                    }
                }
            },
            Err(e) => Err(e),
        }
    }
}

/// An empty parameter list, or the first parameter followed by the rest.
pub open spec fn spec_params_first(toks: Seq<TokenV>, pos: nat) -> Result<
    (Seq<ExprV>, nat),
    PErrV,
>
    decreases toks.len() - pos, 7int,
{
    if tok_at(toks, pos) is RParen {
        Ok((Seq::empty(), pos))
    } else {
        match tok_at(toks, pos) {
            TokenV::Ident(name) => {
                match spec_params_rest(toks, pos + 1) {
                    Ok((rest, p2)) => Ok((seq![ExprV::Ident { name }] + rest, p2)),
                    Err(e) => Err(e),
                }
            },
            t => Err(PErrV::ExpectedIdentifier { actual: t, position: pos }),
        }
    }
}

/// The parameters after the first: each a comma followed by an
/// identifier; no trailing comma.
pub open spec fn spec_params_rest(toks: Seq<TokenV>, pos: nat) -> Result<(Seq<ExprV>, nat), PErrV>
    decreases toks.len() - pos, 6int,
{
    if tok_at(toks, pos) is Comma {
        match tok_at(toks, pos + 1) {
            TokenV::Ident(name) => {
                match spec_params_rest(toks, pos + 2) {
                    Ok((rest, p2)) => Ok((seq![ExprV::Ident { name }] + rest, p2)),
                    Err(e) => Err(e),
                }
            },
            t => Err(PErrV::ExpectedIdentifier { actual: t, position: pos + 1 }),
        }
    } else {
        Ok((Seq::empty(), pos))
    }
}

/// The infix (left-denotation) rules: a binary operator or a call.
pub open spec fn spec_parse_led(toks: Seq<TokenV>, pos: nat, left: ExprV) -> Result<
    (ExprV, nat),
    PErrV,
>
    decreases toks.len() - pos, 1int,
{
    match tok_at(toks, pos) {
        TokenV::Plus => spec_parse_infix(toks, pos, left),
        TokenV::Minus => spec_parse_infix(toks, pos, left),
        TokenV::Asterisk => spec_parse_infix(toks, pos, left),
        TokenV::Slash => spec_parse_infix(toks, pos, left),
        TokenV::Eq => spec_parse_infix(toks, pos, left),
        TokenV::NotEq => spec_parse_infix(toks, pos, left),
        TokenV::Lt => spec_parse_infix(toks, pos, left),
        TokenV::Gt => spec_parse_infix(toks, pos, left),
        TokenV::LParen => spec_parse_call(toks, pos, left),
        t => Err(PErrV::NoInfixRule { actual: t, position: pos }),
    }
}

/// The infix operator a token denotes; the end-marker stands in for
/// tokens that denote none.
pub open spec fn spec_infix_op(t: TokenV) -> InfixOperatorType {
    match t {
        TokenV::Plus => InfixOperatorType::Plus,
        TokenV::Minus => InfixOperatorType::Minus,
        TokenV::Asterisk => InfixOperatorType::Asterisk,
        TokenV::Slash => InfixOperatorType::Slash,
        TokenV::Eq => InfixOperatorType::Eq,
        TokenV::NotEq => InfixOperatorType::NotEq,
        TokenV::Lt => InfixOperatorType::Lt,
        TokenV::Gt => InfixOperatorType::Gt,
        _ => InfixOperatorType::Plus,
    }
}

/// A binary operator applied to the accumulated left expression: the
/// right operand is parsed at the operator's own power, so equal powers
/// associate to the left.
pub open spec fn spec_parse_infix(toks: Seq<TokenV>, pos: nat, left: ExprV) -> Result<
    (ExprV, nat),
    PErrV,
>
    decreases toks.len() - pos, 0int,
{
    if pos >= toks.len() {
        arbitrary()
    } else {
        let op = spec_infix_op(tok_at(toks, pos));
        match spec_parse_expression(toks, pos + 1, spec_bp(tok_at(toks, pos))) {
            Ok((right, p2)) => Ok(
                (ExprV::Infix { op, left: Box::new(left), right: Box::new(right) }, p2),
            ),
            Err(e) => Err(e),
        }
    }
}

/// A call: the accumulated left expression as callee, then a
/// parenthesised, comma-separated argument list.
pub open spec fn spec_parse_call(toks: Seq<TokenV>, pos: nat, left: ExprV) -> Result<
    (ExprV, nat),
    PErrV,
>
    decreases toks.len() - pos, 0int,
{
    if pos >= toks.len() {
        arbitrary()
    } else {
        match spec_args_first(toks, pos + 1) {
            Ok((args, p2)) => {
                if tok_at(toks, p2) is RParen {
                    Ok((ExprV::Call { function: Box::new(left), arguments: args }, p2 + 1))
                } else {
                    Err(PErrV::UnexpectedToken {
                        expected: TokenV::RParen,
                        actual: tok_at(toks, p2),
                        position: p2,
                    })
                }
            },
            Err(e) => Err(e),
        }
    }
}

/// An empty argument list, or the first argument followed by the rest.
pub open spec fn spec_args_first(toks: Seq<TokenV>, pos: nat) -> Result<(Seq<ExprV>, nat), PErrV>
    decreases toks.len() - pos, 5int,
{
    if tok_at(toks, pos) is RParen {
        Ok((Seq::empty(), pos))
    } else {
        match spec_parse_expression(toks, pos, LOWEST as int) {
            Ok((e, p2)) => {
                if !step_ok(toks, pos, p2) {
                    arbitrary()
                } else {
                    match spec_args_rest(toks, p2) {
                        Ok((rest, p3)) => Ok((seq![e] + rest, p3)),
                        Err(err) => Err(err),
                    }
                }
            },
            Err(e) => Err(e),
        }
    }
}

/// The arguments after the first: each a comma followed by a full
/// expression; no trailing comma.
pub open spec fn spec_args_rest(toks: Seq<TokenV>, pos: nat) -> Result<(Seq<ExprV>, nat), PErrV>
    decreases toks.len() - pos, 4int,
{
    if tok_at(toks, pos) is Comma {
        match spec_parse_expression(toks, pos + 1, LOWEST as int) {
            Ok((e, p2)) => {
                if !step_ok(toks, pos + 1, p2) {
                    arbitrary()
                } else {
                    match spec_args_rest(toks, p2) {
                        Ok((rest, p3)) => Ok((seq![e] + rest, p3)),
                        Err(err) => Err(err),
                    }
                }
            },
            Err(e) => Err(e),
        }
    } else {
        Ok((Seq::empty(), pos))
    }
}

/// One statement: `let`, `return`, or a bare expression statement.
pub open spec fn spec_parse_statement(toks: Seq<TokenV>, pos: nat) -> Result<(StmtV, nat), PErrV>
    decreases toks.len() - pos, 5int,
{
    match tok_at(toks, pos) {
        TokenV::Let => spec_parse_let(toks, pos),
        TokenV::Return => spec_parse_return(toks, pos),
        _ => spec_parse_expr_statement(toks, pos),
    }
}

/// `let IDENT = EXPR [;]`.
pub open spec fn spec_parse_let(toks: Seq<TokenV>, pos: nat) -> Result<(StmtV, nat), PErrV>
    decreases toks.len() - pos, 4int,
{
    if !(tok_at(toks, pos) is Let) {
        Err(PErrV::UnexpectedToken {
            expected: TokenV::Let,
            actual: tok_at(toks, pos),
            position: pos,
        })
    } else {
        match spec_parse_identifier(toks, pos + 1) {
            Ok((id, p2)) => {
                if !(tok_at(toks, p2) is Assign) {
                    Err(PErrV::UnexpectedToken {
                        expected: TokenV::Assign,
                        actual: tok_at(toks, p2),
                        position: p2,
                    })
                } else if !(p2 == pos + 2) {
                    arbitrary()
                } else {
                    match spec_parse_expression(toks, p2 + 1, LOWEST as int) {
                        Ok((value, p3)) => {
                            let p4 = if tok_at(toks, p3) is SemiColon {
                                p3 + 1
                            } else {
                                p3
                            };
                            Ok((StmtV::Let { identifier: id, value }, p4))
                        },
                        Err(e) => Err(e),
                    }
                }
            },
            Err(e) => Err(e),
        }
    }
}

/// `return EXPR [;]`.
pub open spec fn spec_parse_return(toks: Seq<TokenV>, pos: nat) -> Result<(StmtV, nat), PErrV>
    decreases toks.len() - pos, 4int,
{
    if !(tok_at(toks, pos) is Return) {
        Err(PErrV::UnexpectedToken {
            expected: TokenV::Return,
            actual: tok_at(toks, pos),
            position: pos,
        })
    } else {
        match spec_parse_expression(toks, pos + 1, LOWEST as int) {
            Ok((value, p2)) => {
                let p3 = if tok_at(toks, p2) is SemiColon {
                    p2 + 1
                } else {
                    p2
                };
                Ok((StmtV::Return { value }, p3))
            },
            Err(e) => Err(e),
        }
    }
}

/// A bare expression statement, its trailing semicolon optional.
pub open spec fn spec_parse_expr_statement(toks: Seq<TokenV>, pos: nat) -> Result<
    (StmtV, nat),
    PErrV,
>
    decreases toks.len() - pos, 4int,
{
    match spec_parse_expression(toks, pos, LOWEST as int) {
        Ok((e, p2)) => {
            let p3 = if tok_at(toks, p2) is SemiColon {
                p2 + 1
            } else {
                p2
            };
            Ok((StmtV::Expr { expression: e }, p3))
        },
        Err(e) => Err(e),
    }
}

/// A block: `{` statements `}`; the end of input before the closing
/// brace is a parse failure.
pub open spec fn spec_parse_block(toks: Seq<TokenV>, pos: nat) -> Result<(StmtV, nat), PErrV>
    decreases toks.len() - pos, 9int,
{
    if !(tok_at(toks, pos) is LBrace) {
        Err(PErrV::UnexpectedToken {
            expected: TokenV::LBrace,
            actual: tok_at(toks, pos),
            position: pos,
        })
    } else {
        match spec_block_stmts(toks, pos + 1) {
            Ok((ss, p2)) => Ok((StmtV::Block { statements: ss }, p2)),
            Err(e) => Err(e),
        }
    }
}

/// The statements of a block, up to and including the closing brace.
pub open spec fn spec_block_stmts(toks: Seq<TokenV>, pos: nat) -> Result<(Seq<StmtV>, nat), PErrV>
    decreases toks.len() - pos, 8int,
{
    if tok_at(toks, pos) is RBrace {
        Ok((Seq::empty(), pos + 1))
    } else if tok_at(toks, pos) is Eof {
        Err(PErrV::UnexpectedToken {
            expected: TokenV::RBrace,
            actual: TokenV::Eof,
            position: pos,
        })
    } else {
        match spec_parse_statement(toks, pos) {
            Ok((s, p2)) => {
                if !step_ok(toks, pos, p2) {
                    arbitrary()
                } else {
                    match spec_block_stmts(toks, p2) {
                        Ok((rest, p3)) => Ok((seq![s] + rest, p3)),
                        Err(e) => Err(e),
                    }
                }
            },
            Err(e) => Err(e),
        }
    }
}

/// The top-level statements, up to the end-marker.
pub open spec fn spec_program_stmts(toks: Seq<TokenV>, pos: nat) -> Result<
    (Seq<StmtV>, nat),
    PErrV,
>
    decreases toks.len() - pos, 9int,
{
    if tok_at(toks, pos) is Eof {
        Ok((Seq::empty(), pos))
    } else {
        match spec_parse_statement(toks, pos) {
            Ok((s, p2)) => {
                if !step_ok(toks, pos, p2) {
                    arbitrary()
                } else {
                    match spec_program_stmts(toks, p2) {
                        Ok((rest, p3)) => Ok((seq![s] + rest, p3)),
                        Err(e) => Err(e),
                    }
                }
            },
            Err(e) => Err(e),
        }
    }
}

/// The meaning of parsing a whole token sequence: the program's
/// statements, or the first failure.
pub open spec fn spec_parse(toks: Seq<TokenV>) -> Result<Seq<StmtV>, PErrV> {
    match spec_program_stmts(toks, 0) {
        Ok((ss, _)) => Ok(ss),
        Err(e) => Err(e),
    }
}


/// A list step's results, prefixed by already-parsed expressions.
pub open spec fn compose_exprs(prefix: Seq<ExprV>, r: Result<(Seq<ExprV>, nat), PErrV>) -> Result<
    (Seq<ExprV>, nat),
    PErrV,
> {
    match r {
        Ok((es, p)) => Ok((prefix + es, p)),
        Err(e) => Err(e),
    }
}

/// A list step's results, prefixed by already-parsed statements.
pub open spec fn compose_stmts(prefix: Seq<StmtV>, r: Result<(Seq<StmtV>, nat), PErrV>) -> Result<
    (Seq<StmtV>, nat),
    PErrV,
> {
    match r {
        Ok((ss, p)) => Ok((prefix + ss, p)),
        Err(e) => Err(e),
    }
}

/// The position-tracking reader over the token sequence.
pub struct Parser {
    token_vec: Vec<Token>,
    next_read_index: usize,
}

impl Parser {
    /// The token sequence being parsed.
    pub closed spec fn toks(&self) -> Seq<TokenV> {
        toks_view(self.token_vec@)
    }

    /// The index of the next token to read.
    pub closed spec fn pos(&self) -> nat {
        self.next_read_index as nat
    }

    /// The reading position never passes the end of the sequence.
    pub open spec fn wf(&self) -> bool {
        self.pos() <= self.toks().len()
    }

    /// A parser at the start of the given tokens.
    pub fn new(token_vec: Vec<Token>) -> (r: Self)
        ensures
            r.toks() == toks_view(token_vec@),
            r.pos() == 0,
            r.wf(),
    {
        proof {
            lemma_toks_view_len(token_vec@);
        }
        Parser { token_vec, next_read_index: 0 }
    }

    /// Reads the next token and advances; at the end the end-marker is
    /// returned and the position stays put.
    pub fn read_token(&mut self) -> (r: Option<Token>)
        requires
            old(self).wf(),
        ensures
            final(self).wf(),
            final(self).toks() == old(self).toks(),
            r matches Some(t) && t@ == tok_at(old(self).toks(), old(self).pos()),
            final(self).pos() == if old(self).pos() < old(self).toks().len() {
                old(self).pos() + 1
            } else {
                old(self).pos()
            },
    {
        proof {
            lemma_toks_view_len(self.token_vec@);
        }
        if self.next_read_index < self.token_vec.len() {
            proof {
                lemma_toks_view_index(self.token_vec@, self.next_read_index as int);
            }
            let t = clone_token(&self.token_vec[self.next_read_index]);
            self.next_read_index += 1;
            Some(t)
        } else {
            Some(Token::Eof)
        }
    }

    /// Looks at the next token without advancing; at the end the
    /// end-marker is returned.
    pub fn peek_token(&self) -> (r: Option<Token>)
        ensures
            r matches Some(t) && t@ == tok_at(self.toks(), self.pos()),
    {
        proof {
            lemma_toks_view_len(self.token_vec@);
        }
        if self.next_read_index < self.token_vec.len() {
            proof {
                lemma_toks_view_index(self.token_vec@, self.next_read_index as int);
            }
            Some(clone_token(&self.token_vec[self.next_read_index]))
        } else {
            Some(Token::Eof)
        }
    }

    /// Succeeds exactly when the next token is `expect_token`; the
    /// failure names the expected and actual tokens and the position.
    pub fn expect_token(&self, expect_token: Token) -> (r: Result<(), ParseError>)
        ensures
            r is Ok <==> tok_at(self.toks(), self.pos()) == expect_token@,
            r matches Err(e) ==> e@ == (PErrV::UnexpectedToken {
                expected: expect_token@,
                actual: tok_at(self.toks(), self.pos()),
                position: self.pos(),
            }),
    {
        let token_opt = self.peek_token();
        match token_opt {
            Some(token) => {
                if token_eq(&token, &expect_token) {
                    Ok(())
                } else {
                    Err(
                        ParseError::UnexpectedToken {
                            expected: expect_token,
                            actual: token,
                            position: self.next_read_index,
                        },
                    )
                }
            },
            None => {
                proof {
                    assert(false);
                }
                Err(
                    ParseError::UnexpectedToken {
                        expected: expect_token,
                        actual: Token::Eof,
                        position: self.next_read_index,
                    },
                )
            },
        }
    }

    /// An identifier expression.
    pub fn parse_identifier(&mut self) -> (r: Result<Box<ExpressionNode>, ParseError>)
        requires
            old(self).wf(),
        ensures
            final(self).wf(),
            final(self).toks() == old(self).toks(),
            ({
                match (r, spec_parse_identifier(old(self).toks(), old(self).pos())) {
                    (Ok(e), Ok((ev, p2))) => e@ == ev && final(self).pos() == p2 && old(
                        self,
                    ).pos() < p2 <= old(self).toks().len(),
                    (Err(e), Err(ev)) => e@ == ev,
                    _ => false,
                }
            }),
    {
        let position = self.next_read_index;
        let token_opt = self.read_token();
        match token_opt {
            Some(Token::Ident(literal)) => Ok(
                Box::new(ExpressionNode::Identifier { literal }),
            ),
            Some(t) => Err(ParseError::ExpectedIdentifier { actual: t, position }),
            None => {
                proof {
                    assert(false);
                }
                Err(ParseError::ExpectedIdentifier { actual: Token::Eof, position })
            },
        }
    }

    /// An integer literal expression.
    pub fn parse_integer(&mut self) -> (r: Result<Box<ExpressionNode>, ParseError>)
        requires
            old(self).wf(),
        ensures
            final(self).wf(),
            final(self).toks() == old(self).toks(),
            ({
                match (r, spec_parse_integer(old(self).toks(), old(self).pos())) {
                    (Ok(e), Ok((ev, p2))) => e@ == ev && final(self).pos() == p2 && old(
                        self,
                    ).pos() < p2 <= old(self).toks().len(),
                    (Err(e), Err(ev)) => e@ == ev,
                    _ => false,
                }
            }),
    {
        let position = self.next_read_index;
        let token_opt = self.read_token();
        match token_opt {
            Some(Token::Int(literal)) => Ok(Box::new(ExpressionNode::Integer { literal })),
            Some(t) => Err(
                ParseError::UnexpectedToken {
                    expected: Token::Int(Vec::new()),
                    actual: t,
                    position,
                },
            ),
            None => {
                proof {
                    assert(false);
                }
                Err(ParseError::ExpectedIdentifier { actual: Token::Eof, position })
            },
        }
    }

    /// A boolean literal expression.
    pub fn parse_boolean(&mut self) -> (r: Result<Box<ExpressionNode>, ParseError>)
        requires
            old(self).wf(),
        ensures
            final(self).wf(),
            final(self).toks() == old(self).toks(),
            ({
                match (r, spec_parse_boolean(old(self).toks(), old(self).pos())) {
                    (Ok(e), Ok((ev, p2))) => e@ == ev && final(self).pos() == p2 && old(
                        self,
                    ).pos() < p2 <= old(self).toks().len(),
                    (Err(e), Err(ev)) => e@ == ev,
                    _ => false,
                }
            }),
    {
        let position = self.next_read_index;
        let token_opt = self.read_token();
        match token_opt {
            Some(Token::True) => Ok(
                Box::new(ExpressionNode::Boolean { boolean_type: BooleanType::True }),
            ),
            Some(Token::False) => Ok(
                Box::new(ExpressionNode::Boolean { boolean_type: BooleanType::False }),
            ),
            Some(t) => Err(
                ParseError::UnexpectedToken { expected: Token::True, actual: t, position },
            ),
            None => {
                proof {
                    assert(false);
                }
                Err(ParseError::ExpectedIdentifier { actual: Token::Eof, position })
            },
        }
    }

    /// One expression at the given binding-power floor.
    pub fn parse_expression(&mut self, right_binding_power: u8) -> (r: Result<
        Box<ExpressionNode>,
        ParseError,
    >)
        requires
            old(self).wf(),
        ensures
            final(self).wf(),
            final(self).toks() == old(self).toks(),
            ({
                match (
                    r,
                    spec_parse_expression(
                        old(self).toks(),
                        old(self).pos(),
                        right_binding_power as int,
                    ),
                ) {
                    (Ok(e), Ok((ev, p2))) => e@ == ev && final(self).pos() == p2 && old(
                        self,
                    ).pos() < p2 <= old(self).toks().len(),
                    (Err(e), Err(ev)) => e@ == ev,
                    _ => false,
                }
            }),
        decreases self.toks().len() - self.pos(), 3int,
    {
        let mut left = match self.parse_nud_expression() {
            Ok(l) => l,
            Err(e) => {
                return Err(e);
            },
        };
        loop
            invariant
                self.wf(),
                self.toks() == old(self).toks(),
                old(self).pos() < self.pos() <= self.toks().len(),
                spec_led_loop(
                    self.toks(),
                    self.pos(),
                    right_binding_power as int,
                    left@,
                ) == spec_parse_expression(
                    old(self).toks(),
                    old(self).pos(),
                    right_binding_power as int,
                ),
            decreases self.toks().len() - self.pos(),
        {
            let next = self.peek_token();
            let left_binding_power = match next {
                Some(t) => to_binding_power(&t),
                None => {
                    proof {
                        assert(false);
                    }
                    END
                },
            };
            if !(right_binding_power < left_binding_power) {
                return Ok(left);
            }
            left = match self.parse_led_expression(left) {
                Ok(l) => l,
                Err(e) => {
                    return Err(e);
                },
            };
        }
    }

    /// The prefix (null-denotation) rules, dispatched on the next token.
    pub fn parse_nud_expression(&mut self) -> (r: Result<Box<ExpressionNode>, ParseError>)
        requires
            old(self).wf(),
        ensures
            final(self).wf(),
            final(self).toks() == old(self).toks(),
            ({
                match (r, spec_parse_nud(old(self).toks(), old(self).pos())) {
                    (Ok(e), Ok((ev, p2))) => e@ == ev && final(self).pos() == p2 && old(
                        self,
                    ).pos() < p2 <= old(self).toks().len(),
                    (Err(e), Err(ev)) => e@ == ev,
                    _ => false,
                }
            }),
        decreases self.toks().len() - self.pos(), 2int,
    {
        let token_opt = self.peek_token();
        let token = match token_opt {
            Some(t) => t,
            None => {
                proof {
                    assert(false);
                }
                Token::Eof
            },
        };
        match token {
            Token::Ident(_) => self.parse_identifier(),
            Token::Int(_) => self.parse_integer(),
            Token::True | Token::False => self.parse_boolean(),
            Token::LParen => self.parse_grouped_expression(),
            Token::Bang | Token::Minus => self.parse_prefix(),
            Token::If => self.parse_if_expression(),
            Token::Function => self.parse_function_literal(),
            t => Err(ParseError::NoPrefixRule { actual: t, position: self.next_read_index }),
        }
    }

    /// A parenthesised expression.
    pub fn parse_grouped_expression(&mut self) -> (r: Result<Box<ExpressionNode>, ParseError>)
        requires
            old(self).wf(),
            tok_at(old(self).toks(), old(self).pos()) is LParen,
        ensures
            final(self).wf(),
            final(self).toks() == old(self).toks(),
            ({
                match (r, spec_parse_grouped(old(self).toks(), old(self).pos())) {
                    (Ok(e), Ok((ev, p2))) => e@ == ev && final(self).pos() == p2 && old(
                        self,
                    ).pos() < p2 <= old(self).toks().len(),
                    (Err(e), Err(ev)) => e@ == ev,
                    _ => false,
                }
            }),
        decreases self.toks().len() - self.pos(), 1int,
    {
        match self.expect_token(Token::LParen) {
            Ok(_) => {},
            Err(e) => {
                return Err(e);
            },
        }
        self.read_token();
        let expression = match self.parse_expression(LOWEST) {
            Ok(e) => e,
            Err(e) => {
                return Err(e);
            },
        };
        match self.expect_token(Token::RParen) {
            Ok(_) => {},
            Err(e) => {
                return Err(e);
            },
        }
        self.read_token();
        Ok(expression)
    }

    /// A prefix operator expression.
    pub fn parse_prefix(&mut self) -> (r: Result<Box<ExpressionNode>, ParseError>)
        requires
            old(self).wf(),
            tok_at(old(self).toks(), old(self).pos()) is Bang || tok_at(
                old(self).toks(),
                old(self).pos(),
            ) is Minus,
        ensures
            final(self).wf(),
            final(self).toks() == old(self).toks(),
            ({
                match (r, spec_parse_prefix(old(self).toks(), old(self).pos())) {
                    (Ok(e), Ok((ev, p2))) => e@ == ev && final(self).pos() == p2 && old(
                        self,
                    ).pos() < p2 <= old(self).toks().len(),
                    (Err(e), Err(ev)) => e@ == ev,
                    _ => false,
                }
            }),
        decreases self.toks().len() - self.pos(), 1int,
    {
        let token_opt = self.read_token();
        let operator_type = match token_opt {
            Some(Token::Bang) => PrefixOperatorType::Bang,
            Some(Token::Minus) => PrefixOperatorType::Minus,
            _ => {
                proof {
                    assert(false);
                }
                PrefixOperatorType::Minus
            },
        };
        let right = match self.parse_expression(PREFIX) {
            Ok(e) => e,
            Err(e) => {
                return Err(e);
            },
        };
        Ok(Box::new(ExpressionNode::PrefixOperator { operator_type, right }))
    }

    /// An `if` expression.
    pub fn parse_if_expression(&mut self) -> (r: Result<Box<ExpressionNode>, ParseError>)
        requires
            old(self).wf(),
            tok_at(old(self).toks(), old(self).pos()) is If,
        ensures
            final(self).wf(),
            final(self).toks() == old(self).toks(),
            ({
                match (r, spec_parse_if(old(self).toks(), old(self).pos())) {
                    (Ok(e), Ok((ev, p2))) => e@ == ev && final(self).pos() == p2 && old(
                        self,
                    ).pos() < p2 <= old(self).toks().len(),
                    (Err(e), Err(ev)) => e@ == ev,
                    _ => false,
                }
            }),
        decreases self.toks().len() - self.pos(), 1int,
    {
        self.read_token();
        match self.expect_token(Token::LParen) {
            Ok(_) => {},
            Err(e) => {
                return Err(e);
            },
        }
        self.read_token();
        let condition = match self.parse_expression(LOWEST) {
            Ok(e) => e,
            Err(e) => {
                return Err(e);
            },
        };
        match self.expect_token(Token::RParen) {
            Ok(_) => {},
            Err(e) => {
                return Err(e);
            },
        }
        self.read_token();
        let consequence = match self.parse_block_statement() {
            Ok(b) => b,
            Err(e) => {
                return Err(e);
            },
        };
        let alternative = if self.expect_token(Token::Else).is_ok() {
            self.read_token();
            match self.parse_block_statement() {
                Ok(b) => Some(b),
                Err(e) => {
                    return Err(e);
                },
            }
        } else {
            None
        };
        Ok(Box::new(ExpressionNode::IfExpression { condition, consequence, alternative }))
    }

    /// A function literal.
    #[verifier::rlimit(100)]
    pub fn parse_function_literal(&mut self) -> (r: Result<Box<ExpressionNode>, ParseError>)
        requires
            old(self).wf(),
            tok_at(old(self).toks(), old(self).pos()) is Function,
        ensures
            final(self).wf(),
            final(self).toks() == old(self).toks(),
            ({
                match (r, spec_parse_function(old(self).toks(), old(self).pos())) {
                    (Ok(e), Ok((ev, p2))) => e@ == ev && final(self).pos() == p2 && old(
                        self,
                    ).pos() < p2 <= old(self).toks().len(),
                    (Err(e), Err(ev)) => e@ == ev,
                    _ => false,
                }
            }),
        decreases self.toks().len() - self.pos(), 1int,
    {
        let ghost toks = self.toks();
        self.read_token();
        match self.expect_token(Token::LParen) {
            Ok(_) => {},
            Err(e) => {
                return Err(e);
            },
        }
        self.read_token();
        let ghost pstart = self.pos();
        let mut parameters: Vec<Box<ExpressionNode>> = Vec::new();
        let first = self.peek_token();
        let first_is_rparen = match first {
            Some(Token::RParen) => true,
            _ => false,
        };
        if !first_is_rparen {
            let parameter = match self.parse_identifier() {
                Ok(p) => p,
                Err(e) => {
                    return Err(e);
                },
            };
            let ghost pv = parameter@;
            parameters.push(parameter);
            proof {
                assert(parameters@.drop_last() =~= Seq::<Box<ExpressionNode>>::empty());
                assert(crate::ast::exprs_view(parameters@) == crate::ast::exprs_view(
                    Seq::<Box<ExpressionNode>>::empty(),
                ).push(pv));
                assert(crate::ast::exprs_view(parameters@) =~= seq![pv]);
            }
            loop
                invariant
                    self.wf(),
                    self.toks() == toks,
                    toks == old(self).toks(),
                    pstart == old(self).pos() + 2,
                    tok_at(toks, old(self).pos() + 1) is LParen,
                    pstart < self.pos() <= toks.len(),
                    compose_exprs(
                        crate::ast::exprs_view(parameters@),
                        spec_params_rest(toks, self.pos()),
                    ) == spec_params_first(toks, pstart),
                ensures
                    self.wf(),
                    self.toks() == toks,
                    pstart < self.pos() <= toks.len(),
                    compose_exprs(
                        crate::ast::exprs_view(parameters@),
                        spec_params_rest(toks, self.pos()),
                    ) == spec_params_first(toks, pstart),
                    !(tok_at(toks, self.pos()) is Comma),
                decreases toks.len() - self.pos(),
            {
                let comma = self.expect_token(Token::Comma);
                if comma.is_err() {
                    break ;
                }
                self.read_token();
                let ghost prev = crate::ast::exprs_view(parameters@);
                let parameter = match self.parse_identifier() {
                    Ok(p) => p,
                    Err(e) => {
                        return Err(e);
                    },
                };
                let ghost prev_vec = parameters@;
                let ghost pv2 = parameter@;
                parameters.push(parameter);
                proof {
                    assert(parameters@.drop_last() =~= prev_vec);
                    assert(crate::ast::exprs_view(parameters@) == prev.push(pv2));
                    lemma_compose_push(prev, pv2);
                }
            }
            proof {
                assert(spec_params_rest(toks, self.pos()) == Ok::<(Seq<ExprV>, nat), PErrV>(
                    (Seq::<ExprV>::empty(), self.pos()),
                ));
                assert(crate::ast::exprs_view(parameters@) + Seq::<ExprV>::empty()
                    =~= crate::ast::exprs_view(parameters@));
            }
        }
        match self.expect_token(Token::RParen) {
            Ok(_) => {},
            Err(e) => {
                return Err(e);
            },
        }
        self.read_token();
        let body = match self.parse_block_statement() {
            Ok(b) => b,
            Err(e) => {
                return Err(e);
            },
        };
        Ok(Box::new(ExpressionNode::FunctionLiteral { parameters, body }))
    }

    /// The infix (left-denotation) rules, dispatched on the next token.
    pub fn parse_led_expression(&mut self, left: Box<ExpressionNode>) -> (r: Result<
        Box<ExpressionNode>,
        ParseError,
    >)
        requires
            old(self).wf(),
        ensures
            final(self).wf(),
            final(self).toks() == old(self).toks(),
            ({
                match (r, spec_parse_led(old(self).toks(), old(self).pos(), left@)) {
                    (Ok(e), Ok((ev, p2))) => e@ == ev && final(self).pos() == p2 && old(
                        self,
                    ).pos() < p2 <= old(self).toks().len(),
                    (Err(e), Err(ev)) => e@ == ev,
                    _ => false,
                }
            }),
        decreases self.toks().len() - self.pos(), 1int,
    {
        let token_opt = self.peek_token();
        let token = match token_opt {
            Some(t) => t,
            None => {
                proof {
                    assert(false);
                }
                Token::Eof
            },
        };
        match token {
            Token::Plus | Token::Minus | Token::Asterisk | Token::Slash | Token::Eq
                | Token::NotEq | Token::Gt | Token::Lt => self.parse_infix(left),
            Token::LParen => self.parse_call_expression(left),
            t => Err(ParseError::NoInfixRule { actual: t, position: self.next_read_index }),
        }
    }

    /// A binary operator applied to the accumulated left expression.
    pub fn parse_infix(&mut self, left: Box<ExpressionNode>) -> (r: Result<
        Box<ExpressionNode>,
        ParseError,
    >)
        requires
            old(self).wf(),
            ({
                let t = tok_at(old(self).toks(), old(self).pos());
                t is Plus || t is Minus || t is Asterisk || t is Slash || t is Eq || t is NotEq
                    || t is Lt || t is Gt
            }),
        ensures
            final(self).wf(),
            final(self).toks() == old(self).toks(),
            ({
                match (r, spec_parse_infix(old(self).toks(), old(self).pos(), left@)) {
                    (Ok(e), Ok((ev, p2))) => e@ == ev && final(self).pos() == p2 && old(
                        self,
                    ).pos() < p2 <= old(self).toks().len(),
                    (Err(e), Err(ev)) => e@ == ev,
                    _ => false,
                }
            }),
        decreases self.toks().len() - self.pos(), 0int,
    {
        let token_opt = self.read_token();
        let token = match token_opt {
            Some(t) => t,
            None => {
                proof {
                    assert(false);
                }
                Token::Eof
            },
        };
        let operator_type = match token {
            Token::Plus => InfixOperatorType::Plus,
            Token::Minus => InfixOperatorType::Minus,
            Token::Asterisk => InfixOperatorType::Asterisk,
            Token::Slash => InfixOperatorType::Slash,
            Token::Eq => InfixOperatorType::Eq,
            Token::NotEq => InfixOperatorType::NotEq,
            Token::Gt => InfixOperatorType::Gt,
            Token::Lt => InfixOperatorType::Lt,
            _ => {
                proof {
                    assert(false);
                }
                InfixOperatorType::Plus
            },
        };
        let power = to_binding_power(&token);
        let right = match self.parse_expression(power) {
            Ok(e) => e,
            Err(e) => {
                return Err(e);
            },
        };
        Ok(Box::new(ExpressionNode::InfixOperator { operator_type, left, right }))
    }

    /// A call expression: the accumulated left expression as callee.
    #[verifier::rlimit(100)]
    pub fn parse_call_expression(&mut self, function: Box<ExpressionNode>) -> (r: Result<
        Box<ExpressionNode>,
        ParseError,
    >)
        requires
            old(self).wf(),
            tok_at(old(self).toks(), old(self).pos()) is LParen,
        ensures
            final(self).wf(),
            final(self).toks() == old(self).toks(),
            ({
                match (r, spec_parse_call(old(self).toks(), old(self).pos(), function@)) {
                    (Ok(e), Ok((ev, p2))) => e@ == ev && final(self).pos() == p2 && old(
                        self,
                    ).pos() < p2 <= old(self).toks().len(),
                    (Err(e), Err(ev)) => e@ == ev,
                    _ => false,
                }
            }),
        decreases self.toks().len() - self.pos(), 0int,
    {
        let ghost toks = self.toks();
        match self.expect_token(Token::LParen) {
            Ok(_) => {},
            Err(e) => {
                return Err(e);
            },
        }
        self.read_token();
        let ghost astart = self.pos();
        let mut arguments: Vec<Box<ExpressionNode>> = Vec::new();
        let first = self.peek_token();
        let first_is_rparen = match first {
            Some(Token::RParen) => true,
            _ => false,
        };
        if !first_is_rparen {
            let argument = match self.parse_expression(LOWEST) {
                Ok(a) => a,
                Err(e) => {
                    return Err(e);
                },
            };
            let ghost av = argument@;
            arguments.push(argument);
            proof {
                assert(arguments@.drop_last() =~= Seq::<Box<ExpressionNode>>::empty());
                assert(crate::ast::exprs_view(arguments@) == crate::ast::exprs_view(
                    Seq::<Box<ExpressionNode>>::empty(),
                ).push(av));
                assert(crate::ast::exprs_view(arguments@) =~= seq![av]);
            }
            loop
                invariant
                    self.wf(),
                    self.toks() == toks,
                    toks == old(self).toks(),
                    astart == old(self).pos() + 1,
                    tok_at(toks, old(self).pos()) is LParen,
                    astart < self.pos() <= toks.len(),
                    compose_exprs(
                        crate::ast::exprs_view(arguments@),
                        spec_args_rest(toks, self.pos()),
                    ) == spec_args_first(toks, astart),
                ensures
                    self.wf(),
                    self.toks() == toks,
                    astart < self.pos() <= toks.len(),
                    compose_exprs(
                        crate::ast::exprs_view(arguments@),
                        spec_args_rest(toks, self.pos()),
                    ) == spec_args_first(toks, astart),
                    !(tok_at(toks, self.pos()) is Comma),
                decreases toks.len() - self.pos(),
            {
                let comma = self.expect_token(Token::Comma);
                if comma.is_err() {
                    break ;
                }
                self.read_token();
                let ghost prev = crate::ast::exprs_view(arguments@);
                let argument = match self.parse_expression(LOWEST) {
                    Ok(a) => a,
                    Err(e) => {
                        return Err(e);
                    },
                };
                let ghost prev_vec = arguments@;
                let ghost av2 = argument@;
                arguments.push(argument);
                proof {
                    assert(arguments@.drop_last() =~= prev_vec);
                    assert(crate::ast::exprs_view(arguments@) == prev.push(av2));
                    lemma_compose_push(prev, av2);
                }
            }
            proof {
                assert(spec_args_rest(toks, self.pos()) == Ok::<(Seq<ExprV>, nat), PErrV>(
                    (Seq::<ExprV>::empty(), self.pos()),
                ));
                assert(crate::ast::exprs_view(arguments@) + Seq::<ExprV>::empty()
                    =~= crate::ast::exprs_view(arguments@));
            }
        }
        match self.expect_token(Token::RParen) {
            Ok(_) => {},
            Err(e) => {
                return Err(e);
            },
        }
        self.read_token();
        Ok(Box::new(ExpressionNode::CallExpression { function, arguments }))
    }

    /// One statement: `let`, `return`, or a bare expression statement.
    pub fn parse_statement(&mut self) -> (r: Result<StatementNode, ParseError>)
        requires
            old(self).wf(),
        ensures
            final(self).wf(),
            final(self).toks() == old(self).toks(),
            ({
                match (r, spec_parse_statement(old(self).toks(), old(self).pos())) {
                    (Ok(s), Ok((sv, p2))) => s@ == sv && final(self).pos() == p2 && old(
                        self,
                    ).pos() < p2 <= old(self).toks().len(),
                    (Err(e), Err(ev)) => e@ == ev,
                    _ => false,
                }
            }),
        decreases self.toks().len() - self.pos(), 5int,
    {
        let token_opt = self.peek_token();
        let token = match token_opt {
            Some(t) => t,
            None => {
                proof {
                    assert(false);
                }
                Token::Eof
            },
        };
        match token {
            Token::Let => self.parse_let_statement(),
            Token::Return => self.parse_return_statement(),
            _ => self.parse_expression_statement(),
        }
    }

    /// `let IDENT = EXPR [;]`.
    pub fn parse_let_statement(&mut self) -> (r: Result<StatementNode, ParseError>)
        requires
            old(self).wf(),
        ensures
            final(self).wf(),
            final(self).toks() == old(self).toks(),
            ({
                match (r, spec_parse_let(old(self).toks(), old(self).pos())) {
                    (Ok(s), Ok((sv, p2))) => s@ == sv && final(self).pos() == p2 && old(
                        self,
                    ).pos() < p2 <= old(self).toks().len(),
                    (Err(e), Err(ev)) => e@ == ev,
                    _ => false,
                }
            }),
        decreases self.toks().len() - self.pos(), 4int,
    {
        match self.expect_token(Token::Let) {
            Ok(_) => {},
            Err(e) => {
                return Err(e);
            },
        }
        self.read_token();
        let identifier = match self.parse_identifier() {
            Ok(i) => i,
            Err(e) => {
                return Err(e);
            },
        };
        match self.expect_token(Token::Assign) {
            Ok(_) => {},
            Err(e) => {
                return Err(e);
            },
        }
        self.read_token();
        let value = match self.parse_expression(LOWEST) {
            Ok(v) => v,
            Err(e) => {
                return Err(e);
            },
        };
        if self.expect_token(Token::SemiColon).is_ok() {
            self.read_token();
        }
        Ok(StatementNode::LetStatement { identifier, value })
    }

    /// `return EXPR [;]`.
    pub fn parse_return_statement(&mut self) -> (r: Result<StatementNode, ParseError>)
        requires
            old(self).wf(),
        ensures
            final(self).wf(),
            final(self).toks() == old(self).toks(),
            ({
                match (r, spec_parse_return(old(self).toks(), old(self).pos())) {
                    (Ok(s), Ok((sv, p2))) => s@ == sv && final(self).pos() == p2 && old(
                        self,
                    ).pos() < p2 <= old(self).toks().len(),
                    (Err(e), Err(ev)) => e@ == ev,
                    _ => false,
                }
            }),
        decreases self.toks().len() - self.pos(), 4int,
    {
        match self.expect_token(Token::Return) {
            Ok(_) => {},
            Err(e) => {
                return Err(e);
            },
        }
        self.read_token();
        let return_value = match self.parse_expression(LOWEST) {
            Ok(v) => v,
            Err(e) => {
                return Err(e);
            },
        };
        if self.expect_token(Token::SemiColon).is_ok() {
            self.read_token();
        }
        Ok(StatementNode::ReturnStatement { return_value })
    }

    /// A bare expression statement, its trailing semicolon optional.
    pub fn parse_expression_statement(&mut self) -> (r: Result<StatementNode, ParseError>)
        requires
            old(self).wf(),
        ensures
            final(self).wf(),
            final(self).toks() == old(self).toks(),
            ({
                match (r, spec_parse_expr_statement(old(self).toks(), old(self).pos())) {
                    (Ok(s), Ok((sv, p2))) => s@ == sv && final(self).pos() == p2 && old(
                        self,
                    ).pos() < p2 <= old(self).toks().len(),
                    (Err(e), Err(ev)) => e@ == ev,
                    _ => false,
                }
            }),
        decreases self.toks().len() - self.pos(), 4int,
    {
        let expression = match self.parse_expression(LOWEST) {
            Ok(e) => e,
            Err(e) => {
                return Err(e);
            },
        };
        if self.expect_token(Token::SemiColon).is_ok() {
            self.read_token();
        }
        Ok(StatementNode::ExpressionStatement { expression })
    }

    /// A block: `{` statements `}`; the end of input before the closing
    /// brace is a parse failure.
    pub fn parse_block_statement(&mut self) -> (r: Result<Box<StatementNode>, ParseError>)
        requires
            old(self).wf(),
        ensures
            final(self).wf(),
            final(self).toks() == old(self).toks(),
            ({
                match (r, spec_parse_block(old(self).toks(), old(self).pos())) {
                    (Ok(s), Ok((sv, p2))) => s@ == sv && final(self).pos() == p2 && old(
                        self,
                    ).pos() < p2 <= old(self).toks().len(),
                    (Err(e), Err(ev)) => e@ == ev,
                    _ => false,
                }
            }),
        decreases self.toks().len() - self.pos(), 9int,
    {
        let ghost toks = self.toks();
        let ghost pos0 = self.pos();
        match self.expect_token(Token::LBrace) {
            Ok(_) => {},
            Err(e) => {
                return Err(e);
            },
        }
        self.read_token();
        let mut statements: Vec<StatementNode> = Vec::new();
        proof {
            crate::ast::lemma_stmts_view_len(statements@);
            assert(crate::ast::stmts_view(statements@) =~= Seq::<StmtV>::empty());
        }
        loop
            invariant
                self.wf(),
                self.toks() == toks,
                toks == old(self).toks(),
                pos0 == old(self).pos(),
                tok_at(toks, pos0) is LBrace,
                pos0 < self.pos() <= toks.len(),
                compose_stmts(
                    crate::ast::stmts_view(statements@),
                    spec_block_stmts(toks, self.pos()),
                ) == spec_block_stmts(toks, pos0 + 1),
            decreases toks.len() - self.pos(),
        {
            let token_opt = self.peek_token();
            let token = match token_opt {
                Some(t) => t,
                None => {
                    proof {
                        assert(false);
                    }
                    Token::Eof
                },
            };
            match token {
                Token::RBrace => {
                    proof {
                        assert(crate::ast::stmts_view(statements@) + Seq::<StmtV>::empty()
                            =~= crate::ast::stmts_view(statements@));
                    }
                    self.read_token();
                    let r = Box::new(StatementNode::BlockStatement { statements });
                    return Ok(r);
                },
                Token::Eof => {
                    return Err(
                        ParseError::UnexpectedToken {
                            expected: Token::RBrace,
                            actual: Token::Eof,
                            position: self.next_read_index,
                        },
                    );
                },
                _ => {
                    let ghost prev = crate::ast::stmts_view(statements@);
                    let statement = match self.parse_statement() {
                        Ok(s) => s,
                        Err(e) => {
                            return Err(e);
                        },
                    };
                    let ghost prev_vec = statements@;
                    let ghost sv = statement@;
                    statements.push(statement);
                    proof {
                        assert(statements@.drop_last() =~= prev_vec);
                        assert(crate::ast::stmts_view(statements@) == prev.push(sv));
                        lemma_compose_stmts_push(prev, sv);
                    }
                },
            }
        }
    }
}

/// Appending one parsed expression to the prefix re-associates the list
/// composition.
proof fn lemma_compose_push(prefix: Seq<ExprV>, e: ExprV)
    ensures
        forall|r: Result<(Seq<ExprV>, nat), PErrV>|
            #[trigger] compose_exprs(prefix.push(e), r) == compose_exprs(
                prefix,
                match r {
                    Ok((es, p)) => Ok((seq![e] + es, p)),
                    Err(err) => Err(err),
                },
            ),
{
    assert forall|r: Result<(Seq<ExprV>, nat), PErrV>|
        #[trigger] compose_exprs(prefix.push(e), r) == compose_exprs(
            prefix,
            match r {
                Ok((es, p)) => Ok((seq![e] + es, p)),
                Err(err) => Err(err),
            },
        ) by {
        match r {
            Ok((es, p)) => {
                assert(prefix.push(e) + es =~= prefix + (seq![e] + es));
            },
            Err(_) => {},
        }
    }
}

/// Appending one parsed statement to the prefix re-associates the list
/// composition.
proof fn lemma_compose_stmts_push(prefix: Seq<StmtV>, s: StmtV)
    ensures
        forall|r: Result<(Seq<StmtV>, nat), PErrV>|
            #[trigger] compose_stmts(prefix.push(s), r) == compose_stmts(
                prefix,
                match r {
                    Ok((ss, p)) => Ok((seq![s] + ss, p)),
                    Err(err) => Err(err),
                },
            ),
{
    assert forall|r: Result<(Seq<StmtV>, nat), PErrV>|
        #[trigger] compose_stmts(prefix.push(s), r) == compose_stmts(
            prefix,
            match r {
                Ok((ss, p)) => Ok((seq![s] + ss, p)),
                Err(err) => Err(err),
            },
        ) by {
        match r {
            Ok((ss, p)) => {
                assert(prefix.push(s) + ss =~= prefix + (seq![s] + ss));
            },
            Err(_) => {},
        }
    }
}

/// Parses a whole token sequence into a program.
#[verifier::rlimit(100)]
pub fn parse(token_vec: Vec<Token>) -> (r: Result<Program, ParseError>)
    ensures
        ({
            match (r, spec_parse(toks_view(token_vec@))) {
                (Ok(p), Ok(ss)) => p@ == ss,
                (Err(e), Err(ev)) => e@ == ev,
                _ => false,
            }
        }),
{
    let ghost toks = toks_view(token_vec@);
    let mut parser = Parser::new(token_vec);
    let mut program = Program::new();
    loop
        invariant
            parser.wf(),
            parser.toks() == toks,
            toks == toks_view(token_vec@),
            compose_stmts(program@, spec_program_stmts(toks, parser.pos()))
                == spec_program_stmts(toks, 0),
        decreases toks.len() - parser.pos() + 1,
    {
        if parser.expect_token(Token::Eof).is_ok() {
            proof {
                assert(program@ + Seq::<StmtV>::empty() =~= program@);
            }
            return Ok(program);
        }
        let ghost prev = program@;
        let statement = match parser.parse_statement() {
            Ok(s) => s,
            Err(e) => {
                return Err(e);
            },
        };
        let ghost sv = statement@;
        program.add_statement(statement);
        proof {
            lemma_compose_stmts_push(prev, sv);
        }
    }
}

} // verus!
