//! The round-trip law of the canonical literal form.
//!
//! Every syntax tree has a canonical token spelling ([`toks_of_expr`],
//! [`toks_of_stmt`], [`toks_of_program`]): the tokens its canonical
//! rendering lexes to, with prefix and infix expressions fully
//! parenthesised.  [`lemma_lex_render_program`] proves that lexing the
//! canonical rendering yields exactly that spelling,
//! [`lemma_tokens_round_trip`] proves that parsing the spelling gives
//! back exactly the original program, and [`lemma_render_parse_round_trip`]
//! combines the two: for every well-formed tree ([`rt_program`]), lexing
//! and re-parsing the canonical rendering reproduces the tree.  Since
//! rendering, lexing and parsing are pure functions with exact contracts,
//! the canonical form of a source text depends only on the tokens it
//! lexes to, never on its original spacing.

use vstd::prelude::*;
use crate::token::{TokenV, spec_lookup_keyword, kw_fn, kw_let, kw_return, kw_true, kw_false,
    kw_if, kw_else};
use crate::lexer::{spec_is_letter, spec_is_digit, spec_is_whitespace, letters_end, digits_end,
    spec_lex_at, spec_lex, spec_token_at, lemma_letters_end, lemma_digits_end};
use crate::ast::{StmtV, ExprV, PrefixOperatorType, InfixOperatorType, render_expr, render_stmt,
    render_expr_list, render_block_body, render_program, render_prefix_op, render_infix_op};
use crate::parser::{PErrV, tok_at, spec_bp, spec_parse_expression, spec_led_loop, spec_parse_nud,
    spec_parse_grouped, spec_parse_prefix, spec_parse_if, spec_parse_function, spec_params_first,
    spec_params_rest, spec_parse_led, spec_parse_infix, spec_parse_call, spec_args_first,
    spec_args_rest, spec_parse_statement, spec_parse_let, spec_parse_return,
    spec_parse_expr_statement, spec_parse_block, spec_block_stmts, spec_program_stmts,
    spec_parse, spec_parse_identifier, spec_parse_integer, spec_parse_boolean, spec_infix_op,
    LOWEST, PREFIX, CALL};

verus! {

/// The token a prefix operator spells.
pub open spec fn tok_of_prefix_op(op: PrefixOperatorType) -> TokenV {
    match op {
        PrefixOperatorType::Bang => TokenV::Bang,
        PrefixOperatorType::Minus => TokenV::Minus,
    }
}

/// The token an infix operator spells.
pub open spec fn tok_of_infix_op(op: InfixOperatorType) -> TokenV {
    match op {
        InfixOperatorType::Plus => TokenV::Plus,
        InfixOperatorType::Minus => TokenV::Minus,
        InfixOperatorType::Asterisk => TokenV::Asterisk,
        InfixOperatorType::Slash => TokenV::Slash,
        InfixOperatorType::Eq => TokenV::Eq,
        InfixOperatorType::NotEq => TokenV::NotEq,
        InfixOperatorType::Lt => TokenV::Lt,
        InfixOperatorType::Gt => TokenV::Gt,
    }
}

/// The canonical token spelling of an expression.
pub open spec fn toks_of_expr(e: ExprV) -> Seq<TokenV>
    decreases e, 1int,
{
    match e {
        ExprV::Ident { name } => seq![TokenV::Ident(name)],
        ExprV::Int { digits } => seq![TokenV::Int(digits)],
        ExprV::Bool { value } => if value {
            seq![TokenV::True]
        } else {
            seq![TokenV::False]
        },
        ExprV::Prefix { op, right } => seq![TokenV::LParen, tok_of_prefix_op(op)] + toks_of_expr(
            *right,
        ) + seq![TokenV::RParen],
        ExprV::Infix { op, left, right } => seq![TokenV::LParen] + toks_of_expr(*left) + seq![
            tok_of_infix_op(op),
        ] + toks_of_expr(*right) + seq![TokenV::RParen],
        ExprV::If { condition, consequence, alternative } => {
            let head = seq![TokenV::If] + toks_of_expr(*condition) + toks_of_stmt(*consequence);
            match alternative {
                Some(a) => head + seq![TokenV::Else] + toks_of_stmt(*a),
                None => head,
            }
        },
        ExprV::Func { parameters, body } => seq![TokenV::Function, TokenV::LParen]
            + toks_of_expr_list(parameters) + seq![TokenV::RParen] + toks_of_stmt(*body),
        ExprV::Call { function, arguments } => toks_of_expr(*function) + seq![TokenV::LParen]
            + toks_of_expr_list(arguments) + seq![TokenV::RParen],
    }
}

/// A comma-separated expression list's token spelling.
pub open spec fn toks_of_expr_list(es: Seq<ExprV>) -> Seq<TokenV>
    decreases es, 2int,
{
    if es.len() == 0 {
        Seq::empty()
    } else if es.len() == 1 {
        toks_of_expr(es[0])
    } else {
        toks_of_expr_list(es.drop_last()) + seq![TokenV::Comma] + toks_of_expr(es.last())
    }
}

/// The canonical token spelling of a statement.
pub open spec fn toks_of_stmt(s: StmtV) -> Seq<TokenV>
    decreases s, 1int,
{
    match s {
        StmtV::Let { identifier, value } => seq![TokenV::Let] + toks_of_expr(identifier) + seq![
            TokenV::Assign,
        ] + toks_of_expr(value) + seq![TokenV::SemiColon],
        StmtV::Return { value } => seq![TokenV::Return] + toks_of_expr(value) + seq![
            TokenV::SemiColon,
        ],
        StmtV::Expr { expression } => toks_of_expr(expression) + seq![TokenV::SemiColon],
        StmtV::Block { statements } => seq![TokenV::LBrace] + toks_of_stmts(statements) + seq![
            TokenV::RBrace,
        ],
    }
}

/// The concatenated token spelling of a statement list.
pub open spec fn toks_of_stmts(ss: Seq<StmtV>) -> Seq<TokenV>
    decreases ss, 2int,
{
    if ss.len() == 0 {
        Seq::empty()
    } else {
        toks_of_stmts(ss.drop_last()) + toks_of_stmt(ss.last())
    }
}

/// The canonical token spelling of a whole program.
pub open spec fn toks_of_program(ss: Seq<StmtV>) -> Seq<TokenV> {
    toks_of_stmts(ss)
}

/// A lexically valid identifier name: a non-empty letter run that is not
/// a keyword.
pub open spec fn rt_name(name: Seq<char>) -> bool {
    &&& name.len() > 0
    &&& forall|i: int| 0 <= i < name.len() ==> crate::lexer::spec_is_letter(#[trigger] name[i])
    &&& crate::token::spec_lookup_keyword(name) is None
}

/// A well-formed (round-trippable) expression: names and digit runs are
/// lexically valid, an `if` condition is a parenthesised (prefix or
/// infix) expression, consequence, alternative and function bodies are
/// blocks, and parameters are bare identifiers.
pub open spec fn rt_expr(e: ExprV) -> bool
    decreases e, 1int,
{
    match e {
        ExprV::Ident { name } => rt_name(name),
        ExprV::Int { digits } => crate::evaluator::all_digits(digits),
        ExprV::Bool { value } => true,
        ExprV::Prefix { op, right } => rt_expr(*right),
        ExprV::Infix { op, left, right } => rt_expr(*left) && rt_expr(*right),
        ExprV::If { condition, consequence, alternative } => {
            &&& (*condition is Prefix || *condition is Infix)
            &&& rt_expr(*condition)
            &&& rt_block(*consequence)
            &&& match alternative {
                Some(a) => rt_block(*a),
                None => true,
            }
        },
        ExprV::Func { parameters, body } => {
            &&& rt_idents(parameters)
            &&& rt_block(*body)
        },
        ExprV::Call { function, arguments } => {
            &&& rt_expr(*function)
            &&& rt_exprs(arguments)
        },
    }
}

/// Every entry of the list is an identifier with a valid name.
pub open spec fn rt_idents(es: Seq<ExprV>) -> bool {
    forall|i: int|
        0 <= i < es.len() ==> ((#[trigger] es[i]) matches ExprV::Ident { name } && rt_name(name))
}

/// Every expression of the list is well-formed.
pub open spec fn rt_exprs(es: Seq<ExprV>) -> bool
    decreases es, 2int,
{
    forall|i: int| 0 <= i < es.len() ==> rt_expr(#[trigger] es[i])
}

/// A well-formed statement as it can stand in a statement list: `let`
/// binds a valid name, and a bare block never stands alone (the parser
/// produces blocks only as `if` and function bodies).
pub open spec fn rt_stmt(s: StmtV) -> bool
    decreases s, 1int,
{
    match s {
        StmtV::Let { identifier, value } => {
            &&& identifier matches ExprV::Ident { name } && rt_name(name)
            &&& rt_expr(value)
        },
        StmtV::Return { value } => rt_expr(value),
        StmtV::Expr { expression } => rt_expr(expression),
        StmtV::Block { statements } => false,
    }
}

/// A well-formed block.
pub open spec fn rt_block(s: StmtV) -> bool
    decreases s, 2int,
{
    s matches StmtV::Block { statements } && rt_stmts(statements)
}

/// Every statement of the list is well-formed.
pub open spec fn rt_stmts(ss: Seq<StmtV>) -> bool
    decreases ss, 3int,
{
    forall|i: int| 0 <= i < ss.len() ==> rt_stmt(#[trigger] ss[i])
}

/// A well-formed program: a list of well-formed statements.
pub open spec fn rt_program(ss: Seq<StmtV>) -> bool {
    rt_stmts(ss)
}


/// The tokens a segment places at a position.
pub open spec fn seg_at(toks: Seq<TokenV>, pos: nat, ts: Seq<TokenV>) -> bool {
    &&& pos + ts.len() <= toks.len()
    &&& toks.subrange(pos as int, (pos + ts.len()) as int) == ts
}

/// A slice of a segment is the corresponding slice of the whole.
proof fn lemma_seg(toks: Seq<TokenV>, pos: int, n: int, i: int, j: int)
    requires
        0 <= pos,
        pos + n <= toks.len(),
        0 <= i <= j <= n,
    ensures
        toks.subrange(pos + i, pos + j) == toks.subrange(pos, pos + n).subrange(i, j),
{
    assert(toks.subrange(pos + i, pos + j) =~= toks.subrange(pos, pos + n).subrange(i, j));
}

/// Tokens that can begin an expression.
pub open spec fn nud_start(t: TokenV) -> bool {
    ||| t is Ident
    ||| t is Int
    ||| t is True
    ||| t is False
    ||| t is LParen
    ||| t is Bang
    ||| t is Minus
    ||| t is If
    ||| t is Function
}

/// A well-formed expression's spelling is non-empty and begins with a
/// token that has a prefix rule.
proof fn lemma_expr_first(e: ExprV)
    requires
        rt_expr(e),
    ensures
        toks_of_expr(e).len() >= 1,
        nud_start(toks_of_expr(e)[0]),
    decreases e,
{
    match e {
        ExprV::Call { function, arguments } => {
            lemma_expr_first(*function);
        },
        _ => {},
    }
}

/// A well-formed statement's spelling is non-empty and begins with
/// `let`, `return`, or an expression starter.
proof fn lemma_stmt_first(s: StmtV)
    requires
        rt_stmt(s),
    ensures
        toks_of_stmt(s).len() >= 1,
        ({
            let t = toks_of_stmt(s)[0];
            t is Let || t is Return || nud_start(t)
        }),
    decreases s,
{
    match s {
        StmtV::Expr { expression } => {
            lemma_expr_first(expression);
        },
        _ => {},
    }
}

/// The spelling of the list entries after the first: a comma before each.
pub open spec fn toks_of_list_rest(es: Seq<ExprV>) -> Seq<TokenV>
    decreases es.len(),
{
    if es.len() == 0 {
        Seq::empty()
    } else {
        seq![TokenV::Comma] + toks_of_expr(es[0]) + toks_of_list_rest(es.drop_first())
    }
}

/// A non-empty list's spelling is its first entry followed by the rest.
proof fn lemma_toks_list_front(es: Seq<ExprV>)
    requires
        es.len() >= 1,
    ensures
        toks_of_expr_list(es) == toks_of_expr(es[0]) + toks_of_list_rest(es.drop_first()),
    decreases es.len(),
{
    if es.len() == 1 {
        assert(es.drop_first().len() == 0);
        assert(toks_of_expr_list(es) =~= toks_of_expr(es[0]) + toks_of_list_rest(
            es.drop_first(),
        ));
    } else {
        lemma_toks_list_front(es.drop_last());
        assert(es.drop_last()[0] == es[0]);
        assert(es.drop_last().drop_first() =~= es.drop_first().drop_last());
        lemma_toks_list_rest_snoc(es.drop_first());
        assert(toks_of_expr_list(es) =~= toks_of_expr(es[0]) + toks_of_list_rest(
            es.drop_first(),
        ));
    }
}

/// Appending one entry to a rest-list appends its comma and spelling.
proof fn lemma_toks_list_rest_snoc(es: Seq<ExprV>)
    requires
        es.len() >= 1,
    ensures
        toks_of_list_rest(es) == toks_of_list_rest(es.drop_last()) + seq![TokenV::Comma]
            + toks_of_expr(es.last()),
    decreases es.len(),
{
    if es.len() == 1 {
        assert(es.drop_last().len() == 0);
        assert(es.drop_first().len() == 0);
        assert(toks_of_list_rest(es.drop_last()) =~= Seq::<TokenV>::empty());
        assert(toks_of_list_rest(es.drop_first()) =~= Seq::<TokenV>::empty());
        assert(es.last() == es[0]);
        assert(toks_of_list_rest(es) == seq![TokenV::Comma] + toks_of_expr(es[0])
            + toks_of_list_rest(es.drop_first()));
        assert(toks_of_list_rest(es) =~= toks_of_list_rest(es.drop_last()) + seq![
            TokenV::Comma,
        ] + toks_of_expr(es.last()));
    } else {
        let dl = es.drop_last();
        let df = es.drop_first();
        lemma_toks_list_rest_snoc(df);
        assert(df.drop_last() =~= dl.drop_first());
        assert(dl[0] == es[0]);
        assert(df.last() == es.last());
        assert(toks_of_list_rest(es) == seq![TokenV::Comma] + toks_of_expr(es[0])
            + toks_of_list_rest(df));
        assert(toks_of_list_rest(dl) == seq![TokenV::Comma] + toks_of_expr(es[0])
            + toks_of_list_rest(dl.drop_first()));
        assert(toks_of_list_rest(df) == toks_of_list_rest(dl.drop_first()) + seq![
            TokenV::Comma,
        ] + toks_of_expr(es.last()));
        assert(seq![TokenV::Comma] + toks_of_expr(es[0]) + (toks_of_list_rest(
            dl.drop_first(),
        ) + seq![TokenV::Comma] + toks_of_expr(es.last())) =~= (seq![TokenV::Comma]
            + toks_of_expr(es[0]) + toks_of_list_rest(dl.drop_first())) + seq![
            TokenV::Comma,
        ] + toks_of_expr(es.last()));
    }
}

/// A non-empty statement list's spelling is its first statement followed
/// by the rest's.
proof fn lemma_toks_stmts_front(ss: Seq<StmtV>)
    requires
        ss.len() >= 1,
    ensures
        toks_of_stmts(ss) == toks_of_stmt(ss[0]) + toks_of_stmts(ss.drop_first()),
    decreases ss.len(),
{
    if ss.len() == 1 {
        assert(ss.drop_last().len() == 0);
        assert(ss.drop_first().len() == 0);
        assert(toks_of_stmts(ss.drop_last()) =~= Seq::<TokenV>::empty());
        assert(toks_of_stmts(ss.drop_first()) =~= Seq::<TokenV>::empty());
        assert(ss.last() == ss[0]);
        assert(toks_of_stmts(ss) == toks_of_stmts(ss.drop_last()) + toks_of_stmt(ss.last()));
        assert(toks_of_stmts(ss) =~= toks_of_stmt(ss[0]) + toks_of_stmts(ss.drop_first()));
    } else {
        let dl = ss.drop_last();
        let df = ss.drop_first();
        lemma_toks_stmts_front(dl);
        assert(dl[0] == ss[0]);
        assert(dl.drop_first() =~= df.drop_last());
        assert(df.last() == ss.last());
        assert(toks_of_stmts(ss) == toks_of_stmts(dl) + toks_of_stmt(ss.last()));
        assert(toks_of_stmts(df) == toks_of_stmts(df.drop_last()) + toks_of_stmt(df.last()));
        assert((toks_of_stmt(ss[0]) + toks_of_stmts(dl.drop_first())) + toks_of_stmt(
            ss.last(),
        ) =~= toks_of_stmt(ss[0]) + (toks_of_stmts(dl.drop_first()) + toks_of_stmt(
            ss.last(),
        )));
    }
}



/// A token's place inside a segment.
proof fn lemma_seg_tok(toks: Seq<TokenV>, pos: nat, ts: Seq<TokenV>, i: int)
    requires
        seg_at(toks, pos, ts),
        0 <= i < ts.len(),
    ensures
        tok_at(toks, (pos + i) as nat) == ts[i],
{
    assert(toks[pos + i] == toks.subrange(pos as int, (pos + ts.len()) as int)[i]);
}

/// A sub-segment of a segment.
proof fn lemma_seg_sub(toks: Seq<TokenV>, pos: nat, ts: Seq<TokenV>, i: int, j: int, sub: Seq<
    TokenV,
>)
    requires
        seg_at(toks, pos, ts),
        0 <= i <= j <= ts.len(),
        ts.subrange(i, j) == sub,
    ensures
        seg_at(toks, (pos + i) as nat, sub),
{
    lemma_seg(toks, pos as int, ts.len() as int, i, j);
}

/// Parsing from a well-formed expression's spelling reaches the infix
/// loop exactly at the state `(e, end)`: the prefix part consumed the
/// spine head and the loop consumed the call extensions.
#[verifier::rlimit(100)]
proof fn lemma_rt_expr_steps(toks: Seq<TokenV>, pos: nat, e: ExprV, min_bp: int)
    requires
        rt_expr(e),
        seg_at(toks, pos, toks_of_expr(e)),
        1 <= min_bp <= 6,
        !(tok_at(toks, (pos + toks_of_expr(e).len()) as nat) is Else),
    ensures
        spec_parse_expression(toks, pos, min_bp) == spec_led_loop(
            toks,
            (pos + toks_of_expr(e).len()) as nat,
            min_bp,
            e,
        ),
    decreases e, 2int,
{
    let ts = toks_of_expr(e);
    let n = ts.len() as int;
    let end = (pos + n) as nat;
    lemma_expr_first(e);
    match e {
        ExprV::Ident { name } => {
            lemma_seg_tok(toks, pos, ts, 0);
            assert(spec_parse_nud(toks, pos) == Ok::<(ExprV, nat), PErrV>((e, end)));
        },
        ExprV::Int { digits } => {
            lemma_seg_tok(toks, pos, ts, 0);
            assert(spec_parse_nud(toks, pos) == Ok::<(ExprV, nat), PErrV>((e, end)));
        },
        ExprV::Bool { value } => {
            lemma_seg_tok(toks, pos, ts, 0);
            assert(spec_parse_nud(toks, pos) == Ok::<(ExprV, nat), PErrV>((e, end)));
        },
        ExprV::Prefix { op, right } => {
            lemma_seg_tok(toks, pos, ts, 0);
            lemma_seg_tok(toks, pos, ts, n - 1);
            assert(ts[0] == TokenV::LParen);
            assert(ts[n - 1] == TokenV::RParen);
            lemma_rt_inner(toks, pos, e);
            assert(spec_parse_grouped(toks, pos) == Ok::<(ExprV, nat), PErrV>((e, end)));
            assert(spec_parse_nud(toks, pos) == Ok::<(ExprV, nat), PErrV>((e, end)));
        },
        ExprV::Infix { op, left, right } => {
            lemma_seg_tok(toks, pos, ts, 0);
            lemma_seg_tok(toks, pos, ts, n - 1);
            assert(ts[0] == TokenV::LParen);
            assert(ts[n - 1] == TokenV::RParen);
            lemma_rt_inner(toks, pos, e);
            assert(spec_parse_grouped(toks, pos) == Ok::<(ExprV, nat), PErrV>((e, end)));
            assert(spec_parse_nud(toks, pos) == Ok::<(ExprV, nat), PErrV>((e, end)));
        },
        ExprV::If { condition, consequence, alternative } => {
            let c = *condition;
            let tc = toks_of_expr(c);
            let nc = tc.len() as int;
            let cons = *consequence;
            let tcons = toks_of_stmt(cons);
            let ncons = tcons.len() as int;
            lemma_seg_tok(toks, pos, ts, 0);
            assert(ts.subrange(1, 1 + nc) =~= tc);
            lemma_seg_sub(toks, pos, ts, 1, 1 + nc, tc);
            assert(tc[0] == TokenV::LParen);
            assert(tc[nc - 1] == TokenV::RParen);
            lemma_seg_tok(toks, pos, ts, 1);
            lemma_seg_tok(toks, pos, ts, nc);
            assert(nc >= 3);
            lemma_rt_inner(toks, (pos + 1) as nat, c);
            assert(ts.subrange(1 + nc, 1 + nc + ncons) =~= tcons);
            lemma_seg_sub(toks, pos, ts, 1 + nc, 1 + nc + ncons, tcons);
            lemma_rt_block(toks, (pos + 1 + nc) as nat, cons);
            assert(ncons >= 2);
            match alternative {
                Some(a) => {
                    let ta = toks_of_stmt(*a);
                    let na = ta.len() as int;
                    lemma_seg_tok(toks, pos, ts, 1 + nc + ncons);
                    assert(ts[1 + nc + ncons] == TokenV::Else);
                    assert(ts.subrange(2 + nc + ncons, n) =~= ta);
                    lemma_seg_sub(toks, pos, ts, 2 + nc + ncons, n, ta);
                    lemma_rt_block(toks, (pos + 2 + nc + ncons) as nat, *a);
                    assert(spec_parse_if(toks, pos) == Ok::<(ExprV, nat), PErrV>((e, end)));
                },
                None => {
                    assert(spec_parse_if(toks, pos) == Ok::<(ExprV, nat), PErrV>((e, end)));
                },
            }
            assert(spec_parse_nud(toks, pos) == Ok::<(ExprV, nat), PErrV>((e, end)));
        },
        ExprV::Func { parameters, body } => {
            let tp = toks_of_expr_list(parameters);
            let np = tp.len() as int;
            let b = *body;
            let tb = toks_of_stmt(b);
            let nb = tb.len() as int;
            lemma_seg_tok(toks, pos, ts, 0);
            lemma_seg_tok(toks, pos, ts, 1);
            assert(ts.subrange(2, 2 + np) =~= tp);
            lemma_seg_sub(toks, pos, ts, 2, 2 + np, tp);
            lemma_seg_tok(toks, pos, ts, 2 + np);
            assert(ts[2 + np] == TokenV::RParen);
            lemma_rt_params_first(toks, (pos + 2) as nat, parameters);
            assert(ts.subrange(3 + np, n) =~= tb);
            lemma_seg_sub(toks, pos, ts, 3 + np, n, tb);
            lemma_rt_block(toks, (pos + 3 + np) as nat, b);
            assert(spec_parse_function(toks, pos) == Ok::<(ExprV, nat), PErrV>((e, end)));
            assert(spec_parse_nud(toks, pos) == Ok::<(ExprV, nat), PErrV>((e, end)));
        },
        ExprV::Call { function, arguments } => {
            let f = *function;
            let tf = toks_of_expr(f);
            let nf = tf.len() as int;
            let ta = toks_of_expr_list(arguments);
            let na = ta.len() as int;
            assert(ts.subrange(0, nf) =~= tf);
            lemma_seg_sub(toks, pos, ts, 0, nf, tf);
            lemma_seg_tok(toks, pos, ts, nf);
            assert(ts[nf] == TokenV::LParen);
            lemma_seg_tok(toks, pos, ts, n - 1);
            assert(ts[n - 1] == TokenV::RParen);
            let f_end = (pos + nf) as nat;
            lemma_rt_expr_steps(toks, pos, f, min_bp);
            assert(ts.subrange(nf + 1, nf + 1 + na) =~= ta);
            lemma_seg_sub(toks, pos, ts, nf + 1, nf + 1 + na, ta);
            lemma_rt_args_first(toks, (pos + nf + 1) as nat, arguments);
            assert(spec_parse_call(toks, f_end, f) == Ok::<(ExprV, nat), PErrV>((e, end)));
            assert(spec_parse_led(toks, f_end, f) == Ok::<(ExprV, nat), PErrV>((e, end)));
            assert(spec_bp(tok_at(toks, f_end)) == CALL as int);
            assert(spec_led_loop(toks, f_end, min_bp, f) == spec_led_loop(toks, end, min_bp, e));
        },
    }
}

/// A well-formed expression's spelling parses to exactly that expression
/// when the following token cannot continue it.
proof fn lemma_rt_expr_exact(toks: Seq<TokenV>, pos: nat, e: ExprV, min_bp: int)
    requires
        rt_expr(e),
        seg_at(toks, pos, toks_of_expr(e)),
        1 <= min_bp <= 6,
        spec_bp(tok_at(toks, (pos + toks_of_expr(e).len()) as nat)) <= min_bp,
        !(tok_at(toks, (pos + toks_of_expr(e).len()) as nat) is Else),
    ensures
        spec_parse_expression(toks, pos, min_bp) == Ok::<(ExprV, nat), PErrV>(
            (e, (pos + toks_of_expr(e).len()) as nat),
        ),
    decreases e, 3int,
{
    lemma_rt_expr_steps(toks, pos, e, min_bp);
}

/// The inside of a parenthesised (prefix or infix) spelling parses to
/// exactly that expression, stopping at its own closing parenthesis.
proof fn lemma_rt_inner(toks: Seq<TokenV>, pos: nat, e: ExprV)
    requires
        rt_expr(e),
        e is Prefix || e is Infix,
        seg_at(toks, pos, toks_of_expr(e)),
    ensures
        spec_parse_expression(toks, (pos + 1) as nat, LOWEST as int) == Ok::<
            (ExprV, nat),
            PErrV,
        >((e, (pos + toks_of_expr(e).len() - 1) as nat)),
    decreases e, 1int,
{
    let ts = toks_of_expr(e);
    let n = ts.len() as int;
    match e {
        ExprV::Prefix { op, right } => {
            let r = *right;
            let tr = toks_of_expr(r);
            let nr = tr.len() as int;
            lemma_expr_first(r);
            lemma_seg_tok(toks, pos, ts, 1);
            assert(ts[1] == tok_of_prefix_op(op));
            assert(ts.subrange(2, 2 + nr) =~= tr);
            lemma_seg_sub(toks, pos, ts, 2, 2 + nr, tr);
            lemma_seg_tok(toks, pos, ts, n - 1);
            assert(ts[n - 1] == TokenV::RParen);
            lemma_rt_expr_exact(toks, (pos + 2) as nat, r, PREFIX as int);
            assert(spec_parse_prefix(toks, (pos + 1) as nat) == Ok::<(ExprV, nat), PErrV>(
                (e, (pos + 2 + nr) as nat),
            ));
            assert(spec_parse_nud(toks, (pos + 1) as nat) == Ok::<(ExprV, nat), PErrV>(
                (e, (pos + 2 + nr) as nat),
            ));
            assert(spec_parse_expression(toks, (pos + 1) as nat, LOWEST as int) == Ok::<
                (ExprV, nat),
                PErrV,
            >((e, (pos + n - 1) as nat)));
        },
        ExprV::Infix { op, left, right } => {
            let l = *left;
            let r = *right;
            let tl = toks_of_expr(l);
            let nl = tl.len() as int;
            let tr = toks_of_expr(r);
            let nr = tr.len() as int;
            lemma_expr_first(l);
            lemma_expr_first(r);
            assert(ts.subrange(1, 1 + nl) =~= tl);
            lemma_seg_sub(toks, pos, ts, 1, 1 + nl, tl);
            lemma_seg_tok(toks, pos, ts, 1 + nl);
            assert(ts[1 + nl] == tok_of_infix_op(op));
            assert(ts.subrange(2 + nl, 2 + nl + nr) =~= tr);
            lemma_seg_sub(toks, pos, ts, 2 + nl, 2 + nl + nr, tr);
            lemma_seg_tok(toks, pos, ts, n - 1);
            assert(ts[n - 1] == TokenV::RParen);
            lemma_rt_expr_steps(toks, (pos + 1) as nat, l, LOWEST as int);
            assert(spec_infix_op(tok_of_infix_op(op)) == op);
            assert(2 <= spec_bp(tok_of_infix_op(op)) <= 5);
            lemma_rt_expr_exact(
                toks,
                (pos + 2 + nl) as nat,
                r,
                spec_bp(tok_of_infix_op(op)),
            );
            assert(spec_parse_infix(toks, (pos + 1 + nl) as nat, l) == Ok::<
                (ExprV, nat),
                PErrV,
            >((e, (pos + 2 + nl + nr) as nat)));
            assert(spec_parse_led(toks, (pos + 1 + nl) as nat, l) == Ok::<
                (ExprV, nat),
                PErrV,
            >((e, (pos + 2 + nl + nr) as nat)));
            assert(spec_led_loop(toks, (pos + 1 + nl) as nat, LOWEST as int, l)
                == spec_led_loop(toks, (pos + 2 + nl + nr) as nat, LOWEST as int, e));
            assert(spec_led_loop(toks, (pos + 2 + nl + nr) as nat, LOWEST as int, e) == Ok::<
                (ExprV, nat),
                PErrV,
            >((e, (pos + 2 + nl + nr) as nat)));
        },
        _ => {},
    }
}

/// An argument list's spelling parses to exactly those arguments,
/// stopping at the closing parenthesis.
proof fn lemma_rt_args_first(toks: Seq<TokenV>, pos: nat, es: Seq<ExprV>)
    requires
        rt_exprs(es),
        seg_at(toks, pos, toks_of_expr_list(es)),
        tok_at(toks, (pos + toks_of_expr_list(es).len()) as nat) is RParen,
    ensures
        spec_args_first(toks, pos) == Ok::<(Seq<ExprV>, nat), PErrV>(
            (es, (pos + toks_of_expr_list(es).len()) as nat),
        ),
    decreases es, 7int,
{
    let tol = toks_of_expr_list(es);
    if es.len() == 0 {
        assert(tol.len() == 0);
        assert(es =~= Seq::<ExprV>::empty());
    } else {
        lemma_toks_list_front(es);
        let t0 = toks_of_expr(es[0]);
        let n0 = t0.len() as int;
        let rest = toks_of_list_rest(es.drop_first());
        lemma_expr_first(es[0]);
        assert(tol.subrange(0, n0) =~= t0);
        lemma_seg_sub(toks, pos, tol, 0, n0, t0);
        lemma_seg_tok(toks, pos, tol, 0);
        if es.len() > 1 {
            assert(es.drop_first().len() >= 1);
            assert(rest[0] == TokenV::Comma);
            lemma_seg_tok(toks, pos, tol, n0);
            assert(tol[n0] == TokenV::Comma);
        }
        lemma_rt_expr_exact(toks, pos, es[0], LOWEST as int);
        assert(tol.subrange(n0, tol.len() as int) =~= rest);
        lemma_seg_sub(toks, pos, tol, n0, tol.len() as int, rest);
        assert(rt_exprs(es.drop_first())) by {
            assert forall|i: int| 0 <= i < es.drop_first().len() implies rt_expr(
                #[trigger] es.drop_first()[i],
            ) by {
                assert(es.drop_first()[i] == es[i + 1]);
            }
        }
        lemma_rt_args_rest(toks, (pos + n0) as nat, es.drop_first());
        assert(seq![es[0]] + es.drop_first() =~= es);
    }
}

/// The arguments after the first parse to exactly those arguments.
proof fn lemma_rt_args_rest(toks: Seq<TokenV>, pos: nat, es: Seq<ExprV>)
    requires
        rt_exprs(es),
        seg_at(toks, pos, toks_of_list_rest(es)),
        tok_at(toks, (pos + toks_of_list_rest(es).len()) as nat) is RParen,
    ensures
        spec_args_rest(toks, pos) == Ok::<(Seq<ExprV>, nat), PErrV>(
            (es, (pos + toks_of_list_rest(es).len()) as nat),
        ),
    decreases es, 7int,
{
    let tol = toks_of_list_rest(es);
    if es.len() == 0 {
        assert(tol.len() == 0);
        assert(es =~= Seq::<ExprV>::empty());
    } else {
        let t0 = toks_of_expr(es[0]);
        let n0 = t0.len() as int;
        let rest = toks_of_list_rest(es.drop_first());
        lemma_expr_first(es[0]);
        lemma_seg_tok(toks, pos, tol, 0);
        assert(tol[0] == TokenV::Comma);
        assert(tol.subrange(1, 1 + n0) =~= t0);
        lemma_seg_sub(toks, pos, tol, 1, 1 + n0, t0);
        if es.len() > 1 {
            assert(es.drop_first().len() >= 1);
            assert(rest[0] == TokenV::Comma);
            lemma_seg_tok(toks, pos, tol, 1 + n0);
            assert(tol[1 + n0] == TokenV::Comma);
        }
        lemma_rt_expr_exact(toks, (pos + 1) as nat, es[0], LOWEST as int);
        assert(tol.subrange(1 + n0, tol.len() as int) =~= rest);
        lemma_seg_sub(toks, pos, tol, 1 + n0, tol.len() as int, rest);
        assert(rt_exprs(es.drop_first())) by {
            assert forall|i: int| 0 <= i < es.drop_first().len() implies rt_expr(
                #[trigger] es.drop_first()[i],
            ) by {
                assert(es.drop_first()[i] == es[i + 1]);
            }
        }
        lemma_rt_args_rest(toks, (pos + 1 + n0) as nat, es.drop_first());
        assert(seq![es[0]] + es.drop_first() =~= es);
    }
}

/// A parameter list's spelling parses to exactly those identifiers,
/// stopping at the closing parenthesis.
proof fn lemma_rt_params_first(toks: Seq<TokenV>, pos: nat, es: Seq<ExprV>)
    requires
        rt_idents(es),
        seg_at(toks, pos, toks_of_expr_list(es)),
        tok_at(toks, (pos + toks_of_expr_list(es).len()) as nat) is RParen,
    ensures
        spec_params_first(toks, pos) == Ok::<(Seq<ExprV>, nat), PErrV>(
            (es, (pos + toks_of_expr_list(es).len()) as nat),
        ),
    decreases es, 7int,
{
    let tol = toks_of_expr_list(es);
    if es.len() == 0 {
        assert(tol.len() == 0);
        assert(es =~= Seq::<ExprV>::empty());
    } else {
        lemma_toks_list_front(es);
        let t0 = toks_of_expr(es[0]);
        let rest = toks_of_list_rest(es.drop_first());
        assert(es[0] matches ExprV::Ident { name });
        assert(t0.len() == 1);
        lemma_seg_tok(toks, pos, tol, 0);
        assert(tol[0] == t0[0]);
        assert(tol.subrange(1, tol.len() as int) =~= rest);
        lemma_seg_sub(toks, pos, tol, 1, tol.len() as int, rest);
        assert(rt_idents(es.drop_first())) by {
            assert forall|i: int|
                0 <= i < es.drop_first().len() implies ((#[trigger] es.drop_first()[i]) matches ExprV::Ident {
                name,
            } && rt_name(name)) by {
                assert(es.drop_first()[i] == es[i + 1]);
            }
        }
        lemma_rt_params_rest(toks, (pos + 1) as nat, es.drop_first());
        assert(seq![es[0]] + es.drop_first() =~= es);
    }
}

/// The parameters after the first parse to exactly those identifiers.
proof fn lemma_rt_params_rest(toks: Seq<TokenV>, pos: nat, es: Seq<ExprV>)
    requires
        rt_idents(es),
        seg_at(toks, pos, toks_of_list_rest(es)),
        tok_at(toks, (pos + toks_of_list_rest(es).len()) as nat) is RParen,
    ensures
        spec_params_rest(toks, pos) == Ok::<(Seq<ExprV>, nat), PErrV>(
            (es, (pos + toks_of_list_rest(es).len()) as nat),
        ),
    decreases es, 7int,
{
    let tol = toks_of_list_rest(es);
    if es.len() == 0 {
        assert(tol.len() == 0);
        assert(es =~= Seq::<ExprV>::empty());
    } else {
        let t0 = toks_of_expr(es[0]);
        let rest = toks_of_list_rest(es.drop_first());
        assert(es[0] matches ExprV::Ident { name });
        assert(t0.len() == 1);
        lemma_seg_tok(toks, pos, tol, 0);
        assert(tol[0] == TokenV::Comma);
        lemma_seg_tok(toks, pos, tol, 1);
        assert(tol[1] == t0[0]);
        assert(tol.subrange(2, tol.len() as int) =~= rest);
        lemma_seg_sub(toks, pos, tol, 2, tol.len() as int, rest);
        assert(rt_idents(es.drop_first())) by {
            assert forall|i: int|
                0 <= i < es.drop_first().len() implies ((#[trigger] es.drop_first()[i]) matches ExprV::Ident {
                name,
            } && rt_name(name)) by {
                assert(es.drop_first()[i] == es[i + 1]);
            }
        }
        lemma_rt_params_rest(toks, (pos + 2) as nat, es.drop_first());
        assert(seq![es[0]] + es.drop_first() =~= es);
    }
}

/// A well-formed block's spelling parses to exactly that block.
proof fn lemma_rt_block(toks: Seq<TokenV>, pos: nat, s: StmtV)
    requires
        rt_block(s),
        seg_at(toks, pos, toks_of_stmt(s)),
    ensures
        spec_parse_block(toks, pos) == Ok::<(StmtV, nat), PErrV>(
            (s, (pos + toks_of_stmt(s).len()) as nat),
        ),
    decreases s, 5int,
{
    let ts = toks_of_stmt(s);
    let n = ts.len() as int;
    match s {
        StmtV::Block { statements } => {
            let ti = toks_of_stmts(statements);
            let ni = ti.len() as int;
            lemma_seg_tok(toks, pos, ts, 0);
            assert(ts[0] == TokenV::LBrace);
            assert(ts.subrange(1, 1 + ni) =~= ti);
            lemma_seg_sub(toks, pos, ts, 1, 1 + ni, ti);
            lemma_seg_tok(toks, pos, ts, n - 1);
            assert(ts[n - 1] == TokenV::RBrace);
            lemma_rt_block_stmts(toks, (pos + 1) as nat, statements);
        },
        _ => {},
    }
}

/// A statement list inside braces parses to exactly those statements,
/// consuming the closing brace.
proof fn lemma_rt_block_stmts(toks: Seq<TokenV>, pos: nat, ss: Seq<StmtV>)
    requires
        rt_stmts(ss),
        seg_at(toks, pos, toks_of_stmts(ss)),
        tok_at(toks, (pos + toks_of_stmts(ss).len()) as nat) is RBrace,
    ensures
        spec_block_stmts(toks, pos) == Ok::<(Seq<StmtV>, nat), PErrV>(
            (ss, (pos + toks_of_stmts(ss).len() + 1) as nat),
        ),
    decreases ss, 6int,
{
    let ti = toks_of_stmts(ss);
    if ss.len() == 0 {
        assert(ti.len() == 0);
        assert(ss =~= Seq::<StmtV>::empty());
    } else {
        lemma_toks_stmts_front(ss);
        let t0 = toks_of_stmt(ss[0]);
        let n0 = t0.len() as int;
        let rest = toks_of_stmts(ss.drop_first());
        lemma_stmt_first(ss[0]);
        assert(ti.subrange(0, n0) =~= t0);
        lemma_seg_sub(toks, pos, ti, 0, n0, t0);
        lemma_seg_tok(toks, pos, ti, 0);
        lemma_rt_stmt(toks, pos, ss[0]);
        assert(ti.subrange(n0, ti.len() as int) =~= rest);
        lemma_seg_sub(toks, pos, ti, n0, ti.len() as int, rest);
        assert(rt_stmts(ss.drop_first())) by {
            assert forall|i: int| 0 <= i < ss.drop_first().len() implies rt_stmt(
                #[trigger] ss.drop_first()[i],
            ) by {
                assert(ss.drop_first()[i] == ss[i + 1]);
            }
        }
        lemma_rt_block_stmts(toks, (pos + n0) as nat, ss.drop_first());
        assert(seq![ss[0]] + ss.drop_first() =~= ss);
    }
}

/// A well-formed statement's spelling parses to exactly that statement,
/// its trailing semicolon consumed.
proof fn lemma_rt_stmt(toks: Seq<TokenV>, pos: nat, s: StmtV)
    requires
        rt_stmt(s),
        seg_at(toks, pos, toks_of_stmt(s)),
    ensures
        spec_parse_statement(toks, pos) == Ok::<(StmtV, nat), PErrV>(
            (s, (pos + toks_of_stmt(s).len()) as nat),
        ),
    decreases s, 4int,
{
    let ts = toks_of_stmt(s);
    let n = ts.len() as int;
    match s {
        StmtV::Let { identifier, value } => {
            let tv = toks_of_expr(value);
            let nv = tv.len() as int;
            lemma_seg_tok(toks, pos, ts, 0);
            assert(ts[0] == TokenV::Let);
            lemma_seg_tok(toks, pos, ts, 1);
            lemma_seg_tok(toks, pos, ts, 2);
            assert(ts[2] == TokenV::Assign);
            assert(ts.subrange(3, 3 + nv) =~= tv);
            lemma_seg_sub(toks, pos, ts, 3, 3 + nv, tv);
            lemma_seg_tok(toks, pos, ts, n - 1);
            assert(ts[n - 1] == TokenV::SemiColon);
            lemma_rt_expr_exact(toks, (pos + 3) as nat, value, LOWEST as int);
            assert(spec_parse_let(toks, pos) == Ok::<(StmtV, nat), PErrV>(
                (s, (pos + n) as nat),
            ));
        },
        StmtV::Return { value } => {
            let tv = toks_of_expr(value);
            let nv = tv.len() as int;
            lemma_seg_tok(toks, pos, ts, 0);
            assert(ts[0] == TokenV::Return);
            assert(ts.subrange(1, 1 + nv) =~= tv);
            lemma_seg_sub(toks, pos, ts, 1, 1 + nv, tv);
            lemma_seg_tok(toks, pos, ts, n - 1);
            assert(ts[n - 1] == TokenV::SemiColon);
            lemma_rt_expr_exact(toks, (pos + 1) as nat, value, LOWEST as int);
            assert(spec_parse_return(toks, pos) == Ok::<(StmtV, nat), PErrV>(
                (s, (pos + n) as nat),
            ));
        },
        StmtV::Expr { expression } => {
            let tv = toks_of_expr(expression);
            let nv = tv.len() as int;
            lemma_expr_first(expression);
            lemma_seg_tok(toks, pos, ts, 0);
            assert(ts.subrange(0, nv) =~= tv);
            lemma_seg_sub(toks, pos, ts, 0, nv, tv);
            lemma_seg_tok(toks, pos, ts, n - 1);
            assert(ts[n - 1] == TokenV::SemiColon);
            lemma_rt_expr_exact(toks, pos, expression, LOWEST as int);
            assert(spec_parse_expr_statement(toks, pos) == Ok::<(StmtV, nat), PErrV>(
                (s, (pos + n) as nat),
            ));
        },
        StmtV::Block { statements } => {},
    }
}

/// The top-level statement spelling parses to exactly those statements,
/// stopping at the end of the tokens.
proof fn lemma_rt_program_stmts(toks: Seq<TokenV>, pos: nat, ss: Seq<StmtV>)
    requires
        rt_stmts(ss),
        seg_at(toks, pos, toks_of_stmts(ss)),
        pos + toks_of_stmts(ss).len() == toks.len(),
    ensures
        spec_program_stmts(toks, pos) == Ok::<(Seq<StmtV>, nat), PErrV>((ss, toks.len())),
    decreases ss,
{
    let ti = toks_of_stmts(ss);
    if ss.len() == 0 {
        assert(ti.len() == 0);
        assert(ss =~= Seq::<StmtV>::empty());
    } else {
        lemma_toks_stmts_front(ss);
        let t0 = toks_of_stmt(ss[0]);
        let n0 = t0.len() as int;
        let rest = toks_of_stmts(ss.drop_first());
        lemma_stmt_first(ss[0]);
        assert(ti.subrange(0, n0) =~= t0);
        lemma_seg_sub(toks, pos, ti, 0, n0, t0);
        lemma_seg_tok(toks, pos, ti, 0);
        lemma_rt_stmt(toks, pos, ss[0]);
        assert(ti.subrange(n0, ti.len() as int) =~= rest);
        lemma_seg_sub(toks, pos, ti, n0, ti.len() as int, rest);
        assert(rt_stmts(ss.drop_first())) by {
            assert forall|i: int| 0 <= i < ss.drop_first().len() implies rt_stmt(
                #[trigger] ss.drop_first()[i],
            ) by {
                assert(ss.drop_first()[i] == ss[i + 1]);
            }
        }
        lemma_rt_program_stmts(toks, (pos + n0) as nat, ss.drop_first());
        assert(seq![ss[0]] + ss.drop_first() =~= ss);
    }
}

/// Law: round trip of the canonical literal form.  Parsing the canonical
/// token spelling of any well-formed program yields exactly that
/// program; since parsing and rendering are functions of the token
/// sequence alone, the canonical form is independent of the original
/// source's spacing.
pub proof fn lemma_tokens_round_trip(ss: Seq<StmtV>)
    requires
        rt_program(ss),
    ensures
        spec_parse(toks_of_program(ss)) == Ok::<Seq<StmtV>, PErrV>(ss),
{
    let toks = toks_of_program(ss);
    assert(toks.subrange(0, toks.len() as int) =~= toks);
    lemma_rt_program_stmts(toks, 0, ss);
}



/// The characters a segment places at a position.
pub open spec fn cseg_at(s: Seq<char>, pos: nat, cs: Seq<char>) -> bool {
    &&& pos + cs.len() <= s.len()
    &&& s.subrange(pos as int, (pos + cs.len()) as int) == cs
}

/// A character's place inside a segment.
proof fn lemma_cseg_char(s: Seq<char>, pos: nat, cs: Seq<char>, i: int)
    requires
        cseg_at(s, pos, cs),
        0 <= i < cs.len(),
    ensures
        s[pos + i] == cs[i],
{
    assert(s[pos + i] == s.subrange(pos as int, (pos + cs.len()) as int)[i]);
}

/// A sub-segment of a character segment.
proof fn lemma_cseg_sub(s: Seq<char>, pos: nat, cs: Seq<char>, i: int, j: int, sub: Seq<char>)
    requires
        cseg_at(s, pos, cs),
        0 <= i <= j <= cs.len(),
        cs.subrange(i, j) == sub,
    ensures
        cseg_at(s, (pos + i) as nat, sub),
{
    assert(s.subrange(pos + i, pos + j) =~= s.subrange(pos as int, (pos + cs.len()) as int)
        .subrange(i, j));
}

/// The token a punctuation character lexes to on its own.
pub open spec fn punct_tok(c: char) -> TokenV {
    if c == '+' {
        TokenV::Plus
    } else if c == '-' {
        TokenV::Minus
    } else if c == '*' {
        TokenV::Asterisk
    } else if c == '/' {
        TokenV::Slash
    } else if c == ',' {
        TokenV::Comma
    } else if c == ';' {
        TokenV::SemiColon
    } else if c == '<' {
        TokenV::Lt
    } else if c == '>' {
        TokenV::Gt
    } else if c == '(' {
        TokenV::LParen
    } else if c == ')' {
        TokenV::RParen
    } else if c == '{' {
        TokenV::LBrace
    } else {
        TokenV::RBrace
    }
}

/// Whether a character lexes alone, with no lookahead.
pub open spec fn is_punct(c: char) -> bool {
    c == '+' || c == '-' || c == '*' || c == '/' || c == ',' || c == ';' || c == '<' || c == '>'
        || c == '(' || c == ')' || c == '{' || c == '}'
}

/// Lexing one punctuation character.
proof fn lemma_lex_punct(s: Seq<char>, pos: nat)
    requires
        pos < s.len(),
        is_punct(s[pos as int]),
    ensures
        spec_lex_at(s, pos) == seq![punct_tok(s[pos as int])] + spec_lex_at(s, pos + 1),
{
}

/// Lexing `=` not followed by another `=`.
proof fn lemma_lex_assign(s: Seq<char>, pos: nat)
    requires
        pos < s.len(),
        s[pos as int] == '=',
        pos + 1 < s.len() ==> s[pos + 1int] != '=',
    ensures
        spec_lex_at(s, pos) == seq![TokenV::Assign] + spec_lex_at(s, pos + 1),
{
}

/// Lexing `!` not followed by `=`.
proof fn lemma_lex_bang(s: Seq<char>, pos: nat)
    requires
        pos < s.len(),
        s[pos as int] == '!',
        pos + 1 < s.len() ==> s[pos + 1int] != '=',
    ensures
        spec_lex_at(s, pos) == seq![TokenV::Bang] + spec_lex_at(s, pos + 1),
{
}

/// Lexing the two-character operators `==` and `!=`.
proof fn lemma_lex_two_char(s: Seq<char>, pos: nat)
    requires
        pos + 2 <= s.len(),
        (s[pos as int] == '=' || s[pos as int] == '!'),
        s[pos + 1int] == '=',
    ensures
        spec_lex_at(s, pos) == seq![
            if s[pos as int] == '=' {
                TokenV::Eq
            } else {
                TokenV::NotEq
            },
        ] + spec_lex_at(s, pos + 2),
{
}

/// Lexing skips one space.
proof fn lemma_lex_space(s: Seq<char>, pos: nat)
    requires
        pos < s.len(),
        spec_is_whitespace(s[pos as int]),
    ensures
        spec_lex_at(s, pos) == spec_lex_at(s, pos + 1),
{
}

/// A letter run of length `k` at `pos` scans to exactly `pos + k`.
proof fn lemma_letters_run(s: Seq<char>, pos: nat, k: nat)
    requires
        pos + k <= s.len(),
        forall|j: int| pos <= j < pos + k ==> spec_is_letter(#[trigger] s[j]),
        pos + k < s.len() ==> !spec_is_letter(s[(pos + k) as int]),
    ensures
        letters_end(s, pos) == pos + k,
    decreases k,
{
    if k > 0 {
        lemma_letters_run(s, pos + 1, (k - 1) as nat);
    }
}

/// A digit run of length `k` at `pos` scans to exactly `pos + k`.
proof fn lemma_digits_run(s: Seq<char>, pos: nat, k: nat)
    requires
        pos + k <= s.len(),
        forall|j: int| pos <= j < pos + k ==> spec_is_digit(#[trigger] s[j]),
        pos + k < s.len() ==> !spec_is_digit(s[(pos + k) as int]),
    ensures
        digits_end(s, pos) == pos + k,
    decreases k,
{
    if k > 0 {
        lemma_digits_run(s, pos + 1, (k - 1) as nat);
    }
}

/// The token a letter run lexes to: its keyword, or an identifier.
pub open spec fn word_tok(w: Seq<char>) -> TokenV {
    match spec_lookup_keyword(w) {
        Some(t) => t,
        None => TokenV::Ident(w),
    }
}

/// Lexing one letter run delimited by a non-letter.
proof fn lemma_lex_word(s: Seq<char>, pos: nat, w: Seq<char>)
    requires
        cseg_at(s, pos, w),
        w.len() >= 1,
        forall|i: int| 0 <= i < w.len() ==> spec_is_letter(#[trigger] w[i]),
        pos + w.len() < s.len() ==> !spec_is_letter(s[(pos + w.len()) as int]),
    ensures
        spec_lex_at(s, pos) == seq![word_tok(w)] + spec_lex_at(s, (pos + w.len()) as nat),
{
    assert forall|j: int| pos <= j < pos + w.len() implies spec_is_letter(#[trigger] s[j]) by {
        lemma_cseg_char(s, pos, w, j - pos);
    }
    lemma_letters_run(s, pos, w.len());
    assert(s[pos as int] == w[0]);
    assert(spec_is_letter(s[pos as int]));
    assert(!spec_is_whitespace(s[pos as int]));
    assert(!is_symbol_char(s[pos as int]));
    assert(s.subrange(pos as int, (pos + w.len()) as int) == w);
    assert(spec_token_at(s, pos) == (word_tok(w), (pos + w.len()) as nat));
}

/// The characters the lexer treats as symbols or symbol starters.
pub open spec fn is_symbol_char(c: char) -> bool {
    is_punct(c) || c == '=' || c == '!'
}

/// Lexing one digit run delimited by a non-digit.
proof fn lemma_lex_digits(s: Seq<char>, pos: nat, w: Seq<char>)
    requires
        cseg_at(s, pos, w),
        w.len() >= 1,
        forall|i: int| 0 <= i < w.len() ==> spec_is_digit(#[trigger] w[i]),
        pos + w.len() < s.len() ==> !spec_is_digit(s[(pos + w.len()) as int]),
    ensures
        spec_lex_at(s, pos) == seq![TokenV::Int(w)] + spec_lex_at(s, (pos + w.len()) as nat),
{
    assert forall|j: int| pos <= j < pos + w.len() implies spec_is_digit(#[trigger] s[j]) by {
        lemma_cseg_char(s, pos, w, j - pos);
    }
    lemma_digits_run(s, pos, w.len());
    assert(s[pos as int] == w[0]);
    assert(spec_is_digit(s[pos as int]));
    assert(!spec_is_letter(s[pos as int]));
    assert(!spec_is_whitespace(s[pos as int]));
    assert(!is_symbol_char(s[pos as int]));
    assert(s.subrange(pos as int, (pos + w.len()) as int) == w);
    assert(spec_token_at(s, pos) == (TokenV::Int(w), (pos + w.len()) as nat));
}



/// The rendering of the list entries after the first: `, ` before each.
pub open spec fn render_list_rest(es: Seq<ExprV>) -> Seq<char>
    decreases es.len(),
{
    if es.len() == 0 {
        Seq::empty()
    } else {
        seq![',', ' '] + render_expr(es[0]) + render_list_rest(es.drop_first())
    }
}

/// A non-empty list's rendering is its first entry followed by the rest.
proof fn lemma_render_list_front(es: Seq<ExprV>)
    requires
        es.len() >= 1,
    ensures
        render_expr_list(es) == render_expr(es[0]) + render_list_rest(es.drop_first()),
    decreases es.len(),
{
    if es.len() == 1 {
        assert(render_expr_list(es) =~= render_expr(es[0]) + render_list_rest(
            es.drop_first(),
        ));
    } else {
        let dl = es.drop_last();
        let df = es.drop_first();
        lemma_render_list_front(dl);
        assert(dl[0] == es[0]);
        assert(dl.drop_first() =~= df.drop_last());
        assert(df.last() == es.last());
        lemma_render_list_rest_snoc(df);
        assert(render_expr_list(es) =~= render_expr(es[0]) + render_list_rest(df));
    }
}

/// Appending one entry to a rest-rendering appends its separator and
/// rendering.
proof fn lemma_render_list_rest_snoc(es: Seq<ExprV>)
    requires
        es.len() >= 1,
    ensures
        render_list_rest(es) == render_list_rest(es.drop_last()) + seq![',', ' ']
            + render_expr(es.last()),
    decreases es.len(),
{
    if es.len() == 1 {
        assert(es.drop_last().len() == 0);
        assert(es.drop_first().len() == 0);
        assert(render_list_rest(es.drop_last()) =~= Seq::<char>::empty());
        assert(render_list_rest(es.drop_first()) =~= Seq::<char>::empty());
        assert(es.last() == es[0]);
        assert(render_list_rest(es) == seq![',', ' '] + render_expr(es[0]) + render_list_rest(
            es.drop_first(),
        ));
        assert(render_list_rest(es) =~= render_list_rest(es.drop_last()) + seq![',', ' ']
            + render_expr(es.last()));
    } else {
        let dl = es.drop_last();
        let df = es.drop_first();
        lemma_render_list_rest_snoc(df);
        assert(df.drop_last() =~= dl.drop_first());
        assert(dl[0] == es[0]);
        assert(df.last() == es.last());
        assert(render_list_rest(es) == seq![',', ' '] + render_expr(es[0]) + render_list_rest(
            df,
        ));
        assert(render_list_rest(dl) == seq![',', ' '] + render_expr(es[0]) + render_list_rest(
            dl.drop_first(),
        ));
        assert(render_list_rest(df) == render_list_rest(dl.drop_first()) + seq![',', ' ']
            + render_expr(es.last()));
        assert(seq![',', ' '] + render_expr(es[0]) + (render_list_rest(dl.drop_first()) + seq![
            ',',
            ' ',
        ] + render_expr(es.last())) =~= (seq![',', ' '] + render_expr(es[0])
            + render_list_rest(dl.drop_first())) + seq![',', ' '] + render_expr(es.last()));
    }
}

/// A non-empty block body's rendering is a space, its first statement,
/// and the rest.
proof fn lemma_render_body_front(ss: Seq<StmtV>)
    requires
        ss.len() >= 1,
    ensures
        render_block_body(ss) == seq![' '] + render_stmt(ss[0]) + render_block_body(
            ss.drop_first(),
        ),
    decreases ss.len(),
{
    if ss.len() == 1 {
        assert(ss.drop_last().len() == 0);
        assert(ss.drop_first().len() == 0);
        assert(render_block_body(ss.drop_last()) =~= Seq::<char>::empty());
        assert(render_block_body(ss.drop_first()) =~= Seq::<char>::empty());
        assert(ss.last() == ss[0]);
        assert(render_block_body(ss) == render_block_body(ss.drop_last()) + seq![' ']
            + render_stmt(ss.last()));
        assert(render_block_body(ss) =~= seq![' '] + render_stmt(ss[0]) + render_block_body(
            ss.drop_first(),
        ));
    } else {
        let dl = ss.drop_last();
        let df = ss.drop_first();
        lemma_render_body_front(dl);
        assert(dl[0] == ss[0]);
        assert(dl.drop_first() =~= df.drop_last());
        assert(df.last() == ss.last());
        assert(render_block_body(ss) == render_block_body(dl) + seq![' '] + render_stmt(
            ss.last(),
        ));
        assert(render_block_body(df) == render_block_body(df.drop_last()) + seq![' ']
            + render_stmt(df.last()));
        assert((seq![' '] + render_stmt(ss[0]) + render_block_body(dl.drop_first())) + seq![
            ' ',
        ] + render_stmt(ss.last()) =~= seq![' '] + render_stmt(ss[0]) + (render_block_body(
            dl.drop_first(),
        ) + seq![' '] + render_stmt(ss.last())));
    }
}

/// A non-empty program's rendering is its first statement followed by the
/// rest.
proof fn lemma_render_program_front(ss: Seq<StmtV>)
    requires
        ss.len() >= 1,
    ensures
        render_program(ss) == render_stmt(ss[0]) + render_program(ss.drop_first()),
    decreases ss.len(),
{
    if ss.len() == 1 {
        assert(ss.drop_last().len() == 0);
        assert(ss.drop_first().len() == 0);
        assert(render_program(ss.drop_last()) =~= Seq::<char>::empty());
        assert(render_program(ss.drop_first()) =~= Seq::<char>::empty());
        assert(ss.last() == ss[0]);
        assert(render_program(ss) == render_program(ss.drop_last()) + render_stmt(ss.last()));
        assert(render_program(ss) =~= render_stmt(ss[0]) + render_program(ss.drop_first()));
    } else {
        let dl = ss.drop_last();
        let df = ss.drop_first();
        lemma_render_program_front(dl);
        assert(dl[0] == ss[0]);
        assert(dl.drop_first() =~= df.drop_last());
        assert(df.last() == ss.last());
        assert(render_program(ss) == render_program(dl) + render_stmt(ss.last()));
        assert(render_program(df) == render_program(df.drop_last()) + render_stmt(df.last()));
        assert((render_stmt(ss[0]) + render_program(dl.drop_first())) + render_stmt(ss.last())
            =~= render_stmt(ss[0]) + (render_program(dl.drop_first()) + render_stmt(
            ss.last(),
        )));
    }
}

/// A well-formed expression's rendering is non-empty and begins with a
/// parenthesis, a letter, or a digit.
proof fn lemma_render_first(e: ExprV)
    requires
        rt_expr(e),
    ensures
        render_expr(e).len() >= 1,
        render_expr(e)[0] == '(' || spec_is_letter(render_expr(e)[0]) || spec_is_digit(
            render_expr(e)[0],
        ),
    decreases e,
{
    match e {
        ExprV::Call { function, arguments } => {
            lemma_render_first(*function);
        },
        _ => {},
    }
}

/// Lexing one rendered infix operator.
proof fn lemma_lex_infix_op(s: Seq<char>, pos: nat, op: InfixOperatorType)
    requires
        cseg_at(s, pos, render_infix_op(op)),
    ensures
        spec_lex_at(s, pos) == seq![tok_of_infix_op(op)] + spec_lex_at(
            s,
            (pos + render_infix_op(op).len()) as nat,
        ),
{
    let w = render_infix_op(op);
    match op {
        InfixOperatorType::Eq => {
            lemma_cseg_char(s, pos, w, 0);
            lemma_cseg_char(s, pos, w, 1);
            lemma_lex_two_char(s, pos);
        },
        InfixOperatorType::NotEq => {
            lemma_cseg_char(s, pos, w, 0);
            lemma_cseg_char(s, pos, w, 1);
            lemma_lex_two_char(s, pos);
        },
        _ => {
            lemma_cseg_char(s, pos, w, 0);
            lemma_lex_punct(s, pos);
        },
    }
}



/// No character after this position continues a letter or digit run.
pub open spec fn cboundary(s: Seq<char>, p: nat) -> bool {
    p >= s.len() || (!spec_is_letter(s[p as int]) && !spec_is_digit(s[p as int]))
}

/// The keywords spell themselves: each is a letter run that the keyword
/// table recognises.
proof fn lemma_keyword_facts()
    ensures
        spec_lookup_keyword(kw_fn()) == Some(TokenV::Function),
        spec_lookup_keyword(kw_let()) == Some(TokenV::Let),
        spec_lookup_keyword(kw_return()) == Some(TokenV::Return),
        spec_lookup_keyword(kw_true()) == Some(TokenV::True),
        spec_lookup_keyword(kw_false()) == Some(TokenV::False),
        spec_lookup_keyword(kw_if()) == Some(TokenV::If),
        spec_lookup_keyword(kw_else()) == Some(TokenV::Else),
        forall|i: int| 0 <= i < kw_fn().len() ==> spec_is_letter(#[trigger] kw_fn()[i]),
        forall|i: int| 0 <= i < kw_let().len() ==> spec_is_letter(#[trigger] kw_let()[i]),
        forall|i: int| 0 <= i < kw_return().len() ==> spec_is_letter(#[trigger] kw_return()[i]),
        forall|i: int| 0 <= i < kw_true().len() ==> spec_is_letter(#[trigger] kw_true()[i]),
        forall|i: int| 0 <= i < kw_false().len() ==> spec_is_letter(#[trigger] kw_false()[i]),
        forall|i: int| 0 <= i < kw_if().len() ==> spec_is_letter(#[trigger] kw_if()[i]),
        forall|i: int| 0 <= i < kw_else().len() ==> spec_is_letter(#[trigger] kw_else()[i]),
{
    assert(kw_fn() != kw_let() && kw_fn() != kw_return());
    assert forall|i: int| 0 <= i < kw_fn().len() implies spec_is_letter(
        #[trigger] kw_fn()[i],
    ) by {
        assert(kw_fn()[i] == 'f' || kw_fn()[i] == 'n');
    }
    assert forall|i: int| 0 <= i < kw_let().len() implies spec_is_letter(
        #[trigger] kw_let()[i],
    ) by {
        assert(kw_let()[i] == 'l' || kw_let()[i] == 'e' || kw_let()[i] == 't');
    }
    assert forall|i: int| 0 <= i < kw_return().len() implies spec_is_letter(
        #[trigger] kw_return()[i],
    ) by {
        let c = kw_return()[i];
        assert(c == 'r' || c == 'e' || c == 't' || c == 'u' || c == 'n');
    }
    assert forall|i: int| 0 <= i < kw_true().len() implies spec_is_letter(
        #[trigger] kw_true()[i],
    ) by {
        let c = kw_true()[i];
        assert(c == 't' || c == 'r' || c == 'u' || c == 'e');
    }
    assert forall|i: int| 0 <= i < kw_false().len() implies spec_is_letter(
        #[trigger] kw_false()[i],
    ) by {
        let c = kw_false()[i];
        assert(c == 'f' || c == 'a' || c == 'l' || c == 's' || c == 'e');
    }
    assert forall|i: int| 0 <= i < kw_if().len() implies spec_is_letter(
        #[trigger] kw_if()[i],
    ) by {
        assert(kw_if()[i] == 'i' || kw_if()[i] == 'f');
    }
    assert forall|i: int| 0 <= i < kw_else().len() implies spec_is_letter(
        #[trigger] kw_else()[i],
    ) by {
        let c = kw_else()[i];
        assert(c == 'e' || c == 'l' || c == 's');
    }
}

/// Lexing a well-formed expression's rendering yields its token spelling.
proof fn lemma_lex_expr(s: Seq<char>, pos: nat, e: ExprV)
    requires
        rt_expr(e),
        cseg_at(s, pos, render_expr(e)),
        cboundary(s, (pos + render_expr(e).len()) as nat),
    ensures
        spec_lex_at(s, pos) == toks_of_expr(e) + spec_lex_at(
            s,
            (pos + render_expr(e).len()) as nat,
        ),
    decreases e, 1int,
{
    lemma_keyword_facts();
    match e {
        ExprV::Ident { name } => {
            lemma_lex_word(s, pos, name);
            assert(word_tok(name) == TokenV::Ident(name));
        },
        ExprV::Int { digits } => {
            lemma_lex_digits(s, pos, digits);
        },
        ExprV::Bool { value } => {
            if value {
                lemma_lex_word(s, pos, kw_true());
            } else {
                lemma_lex_word(s, pos, kw_false());
            }
        },
        ExprV::Prefix { op, right } => {
            lemma_lex_expr_prefix(s, pos, e);
        },
        ExprV::Infix { op, left, right } => {
            lemma_lex_expr_infix(s, pos, e);
        },
        ExprV::If { condition, consequence, alternative } => {
            lemma_lex_expr_if(s, pos, e);
        },
        ExprV::Func { parameters, body } => {
            lemma_lex_expr_func(s, pos, e);
        },
        ExprV::Call { function, arguments } => {
            lemma_lex_expr_call(s, pos, e);
        },
    }
}

/// One case of [`lemma_lex_expr`].
#[verifier::rlimit(100)]
proof fn lemma_lex_expr_prefix(s: Seq<char>, pos: nat, e: ExprV)
    requires
        rt_expr(e),
        e is Prefix,
        cseg_at(s, pos, render_expr(e)),
        cboundary(s, (pos + render_expr(e).len()) as nat),
    ensures
        spec_lex_at(s, pos) == toks_of_expr(e) + spec_lex_at(
            s,
            (pos + render_expr(e).len()) as nat,
        ),
    decreases e, 0int,
{
    let cs = render_expr(e);
    let m = cs.len() as int;
    let end = (pos + m) as nat;
    lemma_keyword_facts();
    match e {
        ExprV::Prefix { op, right } => {
            let rr = render_expr(*right);
            let nr = rr.len() as int;
            lemma_render_first(*right);
            lemma_cseg_char(s, pos, cs, 0);
            assert(cs[0] == '(');
            lemma_cseg_char(s, pos, cs, 1);
            assert(cs[1] == render_prefix_op(op)[0]);
            assert(cs.subrange(2, 2 + nr) =~= rr);
            lemma_cseg_sub(s, pos, cs, 2, 2 + nr, rr);
            lemma_cseg_char(s, pos, cs, 2);
            assert(cs[2] == rr[0]);
            lemma_cseg_char(s, pos, cs, m - 1);
            assert(cs[m - 1] == ')');
            lemma_lex_punct(s, pos);
            match op {
                PrefixOperatorType::Bang => {
                    assert(s[pos + 2int] != '=');
                    lemma_lex_bang(s, (pos + 1) as nat);
                },
                PrefixOperatorType::Minus => {
                    lemma_lex_punct(s, (pos + 1) as nat);
                },
            }
            lemma_lex_expr(s, (pos + 2) as nat, *right);
            lemma_lex_punct(s, (pos + 2 + nr) as nat);
            assert(spec_lex_at(s, pos) =~= toks_of_expr(e) + spec_lex_at(s, end));
        },

        _ => {},
    }
}

/// One case of [`lemma_lex_expr`].
#[verifier::rlimit(100)]
proof fn lemma_lex_expr_infix(s: Seq<char>, pos: nat, e: ExprV)
    requires
        rt_expr(e),
        e is Infix,
        cseg_at(s, pos, render_expr(e)),
        cboundary(s, (pos + render_expr(e).len()) as nat),
    ensures
        spec_lex_at(s, pos) == toks_of_expr(e) + spec_lex_at(
            s,
            (pos + render_expr(e).len()) as nat,
        ),
    decreases e, 0int,
{
    let cs = render_expr(e);
    let m = cs.len() as int;
    let end = (pos + m) as nat;
    lemma_keyword_facts();
    match e {
        ExprV::Infix { op, left, right } => {
            let rl = render_expr(*left);
            let nl = rl.len() as int;
            let ro = render_infix_op(op);
            let k = ro.len() as int;
            let rr = render_expr(*right);
            let nr = rr.len() as int;
            lemma_cseg_char(s, pos, cs, 0);
            assert(cs[0] == '(');
            assert(cs.subrange(1, 1 + nl) =~= rl);
            lemma_cseg_sub(s, pos, cs, 1, 1 + nl, rl);
            lemma_cseg_char(s, pos, cs, 1 + nl);
            assert(cs[1 + nl] == ' ');
            assert(cs.subrange(2 + nl, 2 + nl + k) =~= ro);
            lemma_cseg_sub(s, pos, cs, 2 + nl, 2 + nl + k, ro);
            lemma_cseg_char(s, pos, cs, 2 + nl + k);
            assert(cs[2 + nl + k] == ' ');
            assert(cs.subrange(3 + nl + k, 3 + nl + k + nr) =~= rr);
            lemma_cseg_sub(s, pos, cs, 3 + nl + k, 3 + nl + k + nr, rr);
            lemma_cseg_char(s, pos, cs, m - 1);
            assert(cs[m - 1] == ')');
            lemma_lex_punct(s, pos);
            lemma_lex_expr(s, (pos + 1) as nat, *left);
            lemma_lex_space(s, (pos + 1 + nl) as nat);
            lemma_lex_infix_op(s, (pos + 2 + nl) as nat, op);
            lemma_lex_space(s, (pos + 2 + nl + k) as nat);
            lemma_lex_expr(s, (pos + 3 + nl + k) as nat, *right);
            lemma_lex_punct(s, (pos + 3 + nl + k + nr) as nat);
            assert(spec_lex_at(s, pos) =~= toks_of_expr(e) + spec_lex_at(s, end));
        },

        _ => {},
    }
}

/// One case of [`lemma_lex_expr`].
#[verifier::rlimit(100)]
proof fn lemma_lex_expr_if(s: Seq<char>, pos: nat, e: ExprV)
    requires
        rt_expr(e),
        e is If,
        cseg_at(s, pos, render_expr(e)),
        cboundary(s, (pos + render_expr(e).len()) as nat),
    ensures
        spec_lex_at(s, pos) == toks_of_expr(e) + spec_lex_at(
            s,
            (pos + render_expr(e).len()) as nat,
        ),
    decreases e, 0int,
{
    let cs = render_expr(e);
    let m = cs.len() as int;
    let end = (pos + m) as nat;
    lemma_keyword_facts();
    match e {
        ExprV::If { condition, consequence, alternative } => {
            let rc = render_expr(*condition);
            let nc = rc.len() as int;
            let rcons = render_stmt(*consequence);
            let ncons = rcons.len() as int;
            assert(cs.subrange(0, 2) =~= kw_if());
            lemma_cseg_sub(s, pos, cs, 0, 2, kw_if());
            lemma_cseg_char(s, pos, cs, 2);
            assert(cs[2] == ' ');
            lemma_lex_word(s, pos, kw_if());
            lemma_lex_space(s, (pos + 2) as nat);
            assert(cs.subrange(3, 3 + nc) =~= rc);
            lemma_cseg_sub(s, pos, cs, 3, 3 + nc, rc);
            lemma_cseg_char(s, pos, cs, 3 + nc);
            assert(cs[3 + nc] == ' ');
            lemma_lex_expr(s, (pos + 3) as nat, *condition);
            lemma_lex_space(s, (pos + 3 + nc) as nat);
            assert(cs.subrange(4 + nc, 4 + nc + ncons) =~= rcons);
            lemma_cseg_sub(s, pos, cs, 4 + nc, 4 + nc + ncons, rcons);
            lemma_lex_block_stmt(s, (pos + 4 + nc) as nat, *consequence);
            match alternative {
                Some(a) => {
                    let ra = render_stmt(*a);
                    let na = ra.len() as int;
                    lemma_cseg_char(s, pos, cs, 4 + nc + ncons);
                    assert(cs[4 + nc + ncons] == ' ');
                    assert(cs.subrange(5 + nc + ncons, 9 + nc + ncons) =~= kw_else());
                    lemma_cseg_sub(s, pos, cs, 5 + nc + ncons, 9 + nc + ncons, kw_else());
                    lemma_cseg_char(s, pos, cs, 9 + nc + ncons);
                    assert(cs[9 + nc + ncons] == ' ');
                    assert(cs.subrange(10 + nc + ncons, m) =~= ra);
                    lemma_cseg_sub(s, pos, cs, 10 + nc + ncons, m, ra);
                    lemma_lex_space(s, (pos + 4 + nc + ncons) as nat);
                    lemma_lex_word(s, (pos + 5 + nc + ncons) as nat, kw_else());
                    lemma_lex_space(s, (pos + 9 + nc + ncons) as nat);
                    lemma_lex_block_stmt(s, (pos + 10 + nc + ncons) as nat, *a);
                    assert(spec_lex_at(s, pos) =~= toks_of_expr(e) + spec_lex_at(s, end));
                },
                None => {
                    assert(spec_lex_at(s, pos) =~= toks_of_expr(e) + spec_lex_at(s, end));
                },
            }
        },

        _ => {},
    }
}

/// One case of [`lemma_lex_expr`].
#[verifier::rlimit(100)]
proof fn lemma_lex_expr_func(s: Seq<char>, pos: nat, e: ExprV)
    requires
        rt_expr(e),
        e is Func,
        cseg_at(s, pos, render_expr(e)),
        cboundary(s, (pos + render_expr(e).len()) as nat),
    ensures
        spec_lex_at(s, pos) == toks_of_expr(e) + spec_lex_at(
            s,
            (pos + render_expr(e).len()) as nat,
        ),
    decreases e, 0int,
{
    let cs = render_expr(e);
    let m = cs.len() as int;
    let end = (pos + m) as nat;
    lemma_keyword_facts();
    match e {
        ExprV::Func { parameters, body } => {
            let rp = render_expr_list(parameters);
            let np = rp.len() as int;
            let rb = render_stmt(*body);
            assert(cs.subrange(0, 2) =~= kw_fn());
            lemma_cseg_sub(s, pos, cs, 0, 2, kw_fn());
            lemma_cseg_char(s, pos, cs, 2);
            assert(cs[2] == '(');
            lemma_lex_word(s, pos, kw_fn());
            lemma_lex_punct(s, (pos + 2) as nat);
            assert(cs.subrange(3, 3 + np) =~= rp);
            lemma_cseg_sub(s, pos, cs, 3, 3 + np, rp);
            lemma_cseg_char(s, pos, cs, 3 + np);
            assert(cs[3 + np] == ')');
            assert(rt_exprs(parameters)) by {
                assert forall|i: int| 0 <= i < parameters.len() implies rt_expr(
                    #[trigger] parameters[i],
                ) by {
                    assert(parameters[i] matches ExprV::Ident { name } && rt_name(name));
                }
            }
            lemma_lex_list(s, (pos + 3) as nat, parameters);
            lemma_lex_punct(s, (pos + 3 + np) as nat);
            assert(cs.subrange(4 + np, m) =~= rb);
            lemma_cseg_sub(s, pos, cs, 4 + np, m, rb);
            lemma_lex_block_stmt(s, (pos + 4 + np) as nat, *body);
            assert(spec_lex_at(s, pos) =~= toks_of_expr(e) + spec_lex_at(s, end));
        },

        _ => {},
    }
}

/// One case of [`lemma_lex_expr`].
#[verifier::rlimit(100)]
proof fn lemma_lex_expr_call(s: Seq<char>, pos: nat, e: ExprV)
    requires
        rt_expr(e),
        e is Call,
        cseg_at(s, pos, render_expr(e)),
        cboundary(s, (pos + render_expr(e).len()) as nat),
    ensures
        spec_lex_at(s, pos) == toks_of_expr(e) + spec_lex_at(
            s,
            (pos + render_expr(e).len()) as nat,
        ),
    decreases e, 0int,
{
    let cs = render_expr(e);
    let m = cs.len() as int;
    let end = (pos + m) as nat;
    lemma_keyword_facts();
    match e {
        ExprV::Call { function, arguments } => {
            let rf = render_expr(*function);
            let nf = rf.len() as int;
            let ra = render_expr_list(arguments);
            let na = ra.len() as int;
            assert(cs.subrange(0, nf) =~= rf);
            lemma_cseg_sub(s, pos, cs, 0, nf, rf);
            lemma_cseg_char(s, pos, cs, nf);
            assert(cs[nf] == '(');
            lemma_lex_expr(s, pos, *function);
            lemma_lex_punct(s, (pos + nf) as nat);
            assert(cs.subrange(nf + 1, nf + 1 + na) =~= ra);
            lemma_cseg_sub(s, pos, cs, nf + 1, nf + 1 + na, ra);
            lemma_cseg_char(s, pos, cs, m - 1);
            assert(cs[m - 1] == ')');
            lemma_lex_list(s, (pos + nf + 1) as nat, arguments);
            lemma_lex_punct(s, (pos + nf + 1 + na) as nat);
            assert(spec_lex_at(s, pos) =~= toks_of_expr(e) + spec_lex_at(s, end));
        },

        _ => {},
    }
}

/// Lexing a rendered expression list yields its token spelling.
proof fn lemma_lex_list(s: Seq<char>, pos: nat, es: Seq<ExprV>)
    requires
        rt_exprs(es),
        cseg_at(s, pos, render_expr_list(es)),
        cboundary(s, (pos + render_expr_list(es).len()) as nat),
    ensures
        spec_lex_at(s, pos) == toks_of_expr_list(es) + spec_lex_at(
            s,
            (pos + render_expr_list(es).len()) as nat,
        ),
    decreases es, 5int,
{
    let cs = render_expr_list(es);
    let m = cs.len() as int;
    if es.len() == 0 {
        assert(toks_of_expr_list(es) + spec_lex_at(s, pos) =~= spec_lex_at(s, pos));
    } else {
        lemma_render_list_front(es);
        lemma_toks_list_front(es);
        let r0 = render_expr(es[0]);
        let n0 = r0.len() as int;
        let rrest = render_list_rest(es.drop_first());
        assert(cs.subrange(0, n0) =~= r0);
        lemma_cseg_sub(s, pos, cs, 0, n0, r0);
        if es.len() > 1 {
            assert(es.drop_first().len() >= 1);
            assert(rrest[0] == ',');
            lemma_cseg_char(s, pos, cs, n0);
            assert(cs[n0] == ',');
        }
        lemma_lex_expr(s, pos, es[0]);
        assert(cs.subrange(n0, m) =~= rrest);
        lemma_cseg_sub(s, pos, cs, n0, m, rrest);
        assert(rt_exprs(es.drop_first())) by {
            assert forall|i: int| 0 <= i < es.drop_first().len() implies rt_expr(
                #[trigger] es.drop_first()[i],
            ) by {
                assert(es.drop_first()[i] == es[i + 1]);
            }
        }
        lemma_lex_list_rest(s, (pos + n0) as nat, es.drop_first());
        assert(spec_lex_at(s, pos) =~= toks_of_expr_list(es) + spec_lex_at(
            s,
            (pos + m) as nat,
        ));
    }
}

/// Lexing the rendered entries after the first yields their token
/// spelling.
proof fn lemma_lex_list_rest(s: Seq<char>, pos: nat, es: Seq<ExprV>)
    requires
        rt_exprs(es),
        cseg_at(s, pos, render_list_rest(es)),
        cboundary(s, (pos + render_list_rest(es).len()) as nat),
    ensures
        spec_lex_at(s, pos) == toks_of_list_rest(es) + spec_lex_at(
            s,
            (pos + render_list_rest(es).len()) as nat,
        ),
    decreases es, 6int,
{
    let cs = render_list_rest(es);
    let m = cs.len() as int;
    if es.len() == 0 {
        assert(toks_of_list_rest(es) + spec_lex_at(s, pos) =~= spec_lex_at(s, pos));
    } else {
        let r0 = render_expr(es[0]);
        let n0 = r0.len() as int;
        let rrest = render_list_rest(es.drop_first());
        lemma_cseg_char(s, pos, cs, 0);
        assert(cs[0] == ',');
        lemma_cseg_char(s, pos, cs, 1);
        assert(cs[1] == ' ');
        assert(cs.subrange(2, 2 + n0) =~= r0);
        lemma_cseg_sub(s, pos, cs, 2, 2 + n0, r0);
        if es.len() > 1 {
            assert(es.drop_first().len() >= 1);
            assert(rrest[0] == ',');
            lemma_cseg_char(s, pos, cs, 2 + n0);
            assert(cs[2 + n0] == ',');
        }
        lemma_lex_punct(s, pos);
        lemma_lex_space(s, (pos + 1) as nat);
        lemma_lex_expr(s, (pos + 2) as nat, es[0]);
        assert(cs.subrange(2 + n0, m) =~= rrest);
        lemma_cseg_sub(s, pos, cs, 2 + n0, m, rrest);
        assert(rt_exprs(es.drop_first())) by {
            assert forall|i: int| 0 <= i < es.drop_first().len() implies rt_expr(
                #[trigger] es.drop_first()[i],
            ) by {
                assert(es.drop_first()[i] == es[i + 1]);
            }
        }
        lemma_lex_list_rest(s, (pos + 2 + n0) as nat, es.drop_first());
        assert(spec_lex_at(s, pos) =~= toks_of_list_rest(es) + spec_lex_at(
            s,
            (pos + m) as nat,
        ));
    }
}

/// Lexing a rendered block yields its token spelling.
proof fn lemma_lex_block_stmt(s: Seq<char>, pos: nat, st: StmtV)
    requires
        rt_block(st),
        cseg_at(s, pos, render_stmt(st)),
    ensures
        spec_lex_at(s, pos) == toks_of_stmt(st) + spec_lex_at(
            s,
            (pos + render_stmt(st).len()) as nat,
        ),
    decreases st, 2int,
{
    let cs = render_stmt(st);
    let m = cs.len() as int;
    match st {
        StmtV::Block { statements } => {
            let rb = render_block_body(statements);
            let nb = rb.len() as int;
            lemma_cseg_char(s, pos, cs, 0);
            assert(cs[0] == '{');
            assert(cs.subrange(1, 1 + nb) =~= rb);
            lemma_cseg_sub(s, pos, cs, 1, 1 + nb, rb);
            lemma_cseg_char(s, pos, cs, 1 + nb);
            assert(cs[1 + nb] == ' ');
            lemma_cseg_char(s, pos, cs, m - 1);
            assert(cs[m - 1] == '}');
            lemma_lex_punct(s, pos);
            lemma_lex_body(s, (pos + 1) as nat, statements);
            lemma_lex_space(s, (pos + 1 + nb) as nat);
            lemma_lex_punct(s, (pos + 1 + nb + 1) as nat);
            assert(spec_lex_at(s, pos) =~= toks_of_stmt(st) + spec_lex_at(
                s,
                (pos + m) as nat,
            ));
        },
        _ => {},
    }
}

/// Lexing a rendered block body yields the statements' token spelling.
proof fn lemma_lex_body(s: Seq<char>, pos: nat, ss: Seq<StmtV>)
    requires
        rt_stmts(ss),
        cseg_at(s, pos, render_block_body(ss)),
    ensures
        spec_lex_at(s, pos) == toks_of_stmts(ss) + spec_lex_at(
            s,
            (pos + render_block_body(ss).len()) as nat,
        ),
    decreases ss, 3int,
{
    let cs = render_block_body(ss);
    let m = cs.len() as int;
    if ss.len() == 0 {
        assert(toks_of_stmts(ss) + spec_lex_at(s, pos) =~= spec_lex_at(s, pos));
    } else {
        lemma_render_body_front(ss);
        lemma_toks_stmts_front(ss);
        let r0 = render_stmt(ss[0]);
        let n0 = r0.len() as int;
        lemma_cseg_char(s, pos, cs, 0);
        assert(cs[0] == ' ');
        assert(cs.subrange(1, 1 + n0) =~= r0);
        lemma_cseg_sub(s, pos, cs, 1, 1 + n0, r0);
        lemma_lex_space(s, pos);
        lemma_lex_one_stmt(s, (pos + 1) as nat, ss[0]);
        assert(cs.subrange(1 + n0, m) =~= render_block_body(ss.drop_first()));
        lemma_cseg_sub(s, pos, cs, 1 + n0, m, render_block_body(ss.drop_first()));
        assert(rt_stmts(ss.drop_first())) by {
            assert forall|i: int| 0 <= i < ss.drop_first().len() implies rt_stmt(
                #[trigger] ss.drop_first()[i],
            ) by {
                assert(ss.drop_first()[i] == ss[i + 1]);
            }
        }
        lemma_lex_body(s, (pos + 1 + n0) as nat, ss.drop_first());
        assert(spec_lex_at(s, pos) =~= toks_of_stmts(ss) + spec_lex_at(s, (pos + m) as nat));
    }
}

/// Lexing one rendered statement yields its token spelling; a statement
/// ends in a semicolon, so no boundary condition is needed.
#[verifier::rlimit(100)]
proof fn lemma_lex_one_stmt(s: Seq<char>, pos: nat, st: StmtV)
    requires
        rt_stmt(st),
        cseg_at(s, pos, render_stmt(st)),
    ensures
        spec_lex_at(s, pos) == toks_of_stmt(st) + spec_lex_at(
            s,
            (pos + render_stmt(st).len()) as nat,
        ),
    decreases st, 4int,
{
    let cs = render_stmt(st);
    let m = cs.len() as int;
    lemma_keyword_facts();
    match st {
        StmtV::Let { identifier, value } => {
            let ri = render_expr(identifier);
            let ni = ri.len() as int;
            let rv = render_expr(value);
            let nv = rv.len() as int;
            assert(cs.subrange(0, 3) =~= kw_let());
            lemma_cseg_sub(s, pos, cs, 0, 3, kw_let());
            lemma_cseg_char(s, pos, cs, 3);
            assert(cs[3] == ' ');
            assert(cs.subrange(4, 4 + ni) =~= ri);
            lemma_cseg_sub(s, pos, cs, 4, 4 + ni, ri);
            lemma_cseg_char(s, pos, cs, 4 + ni);
            assert(cs[4 + ni] == ' ');
            lemma_cseg_char(s, pos, cs, 5 + ni);
            assert(cs[5 + ni] == '=');
            lemma_cseg_char(s, pos, cs, 6 + ni);
            assert(cs[6 + ni] == ' ');
            assert(cs.subrange(7 + ni, 7 + ni + nv) =~= rv);
            lemma_cseg_sub(s, pos, cs, 7 + ni, 7 + ni + nv, rv);
            lemma_cseg_char(s, pos, cs, m - 1);
            assert(cs[m - 1] == ';');
            lemma_lex_word(s, pos, kw_let());
            lemma_lex_space(s, (pos + 3) as nat);
            lemma_lex_expr(s, (pos + 4) as nat, identifier);
            lemma_lex_space(s, (pos + 4 + ni) as nat);
            lemma_lex_assign(s, (pos + 5 + ni) as nat);
            lemma_lex_space(s, (pos + 6 + ni) as nat);
            lemma_lex_expr(s, (pos + 7 + ni) as nat, value);
            lemma_lex_punct(s, (pos + 7 + ni + nv) as nat);
            assert(spec_lex_at(s, pos) =~= toks_of_stmt(st) + spec_lex_at(
                s,
                (pos + m) as nat,
            ));
        },
        StmtV::Return { value } => {
            let rv = render_expr(value);
            let nv = rv.len() as int;
            assert(cs.subrange(0, 6) =~= kw_return());
            lemma_cseg_sub(s, pos, cs, 0, 6, kw_return());
            lemma_cseg_char(s, pos, cs, 6);
            assert(cs[6] == ' ');
            assert(cs.subrange(7, 7 + nv) =~= rv);
            lemma_cseg_sub(s, pos, cs, 7, 7 + nv, rv);
            lemma_cseg_char(s, pos, cs, m - 1);
            assert(cs[m - 1] == ';');
            lemma_lex_word(s, pos, kw_return());
            lemma_lex_space(s, (pos + 6) as nat);
            lemma_lex_expr(s, (pos + 7) as nat, value);
            lemma_lex_punct(s, (pos + 7 + nv) as nat);
            assert(spec_lex_at(s, pos) =~= toks_of_stmt(st) + spec_lex_at(
                s,
                (pos + m) as nat,
            ));
        },
        StmtV::Expr { expression } => {
            let rv = render_expr(expression);
            let nv = rv.len() as int;
            assert(cs.subrange(0, nv) =~= rv);
            lemma_cseg_sub(s, pos, cs, 0, nv, rv);
            lemma_cseg_char(s, pos, cs, m - 1);
            assert(cs[m - 1] == ';');
            lemma_lex_expr(s, pos, expression);
            lemma_lex_punct(s, (pos + nv) as nat);
            assert(spec_lex_at(s, pos) =~= toks_of_stmt(st) + spec_lex_at(
                s,
                (pos + m) as nat,
            ));
        },
        StmtV::Block { statements } => {},
    }
}

/// Lexing a rendered program yields its statements' token spelling.
proof fn lemma_lex_program_stmts(s: Seq<char>, pos: nat, ss: Seq<StmtV>)
    requires
        rt_stmts(ss),
        cseg_at(s, pos, render_program(ss)),
    ensures
        spec_lex_at(s, pos) == toks_of_stmts(ss) + spec_lex_at(
            s,
            (pos + render_program(ss).len()) as nat,
        ),
    decreases ss,
{
    let cs = render_program(ss);
    let m = cs.len() as int;
    if ss.len() == 0 {
        assert(toks_of_stmts(ss) + spec_lex_at(s, pos) =~= spec_lex_at(s, pos));
    } else {
        lemma_render_program_front(ss);
        lemma_toks_stmts_front(ss);
        let r0 = render_stmt(ss[0]);
        let n0 = r0.len() as int;
        assert(cs.subrange(0, n0) =~= r0);
        lemma_cseg_sub(s, pos, cs, 0, n0, r0);
        lemma_lex_one_stmt(s, pos, ss[0]);
        assert(cs.subrange(n0, m) =~= render_program(ss.drop_first()));
        lemma_cseg_sub(s, pos, cs, n0, m, render_program(ss.drop_first()));
        assert(rt_stmts(ss.drop_first())) by {
            assert forall|i: int| 0 <= i < ss.drop_first().len() implies rt_stmt(
                #[trigger] ss.drop_first()[i],
            ) by {
                assert(ss.drop_first()[i] == ss[i + 1]);
            }
        }
        lemma_lex_program_stmts(s, (pos + n0) as nat, ss.drop_first());
        assert(spec_lex_at(s, pos) =~= toks_of_stmts(ss) + spec_lex_at(s, (pos + m) as nat));
    }
}

/// Lexing the canonical rendering of a well-formed program yields exactly
/// its canonical token spelling.
pub proof fn lemma_lex_render_program(ss: Seq<StmtV>)
    requires
        rt_program(ss),
    ensures
        spec_lex(render_program(ss)) == toks_of_program(ss),
{
    let s = render_program(ss);
    assert(s.subrange(0, s.len() as int) =~= s);
    lemma_lex_program_stmts(s, 0, ss);
    assert(spec_lex_at(s, s.len()) =~= Seq::<TokenV>::empty());
    assert(toks_of_program(ss) + Seq::<TokenV>::empty() =~= toks_of_program(ss));
}

/// Law: round trip of the literal form.  Lexing and re-parsing the
/// canonical rendering of any well-formed program reproduces exactly
/// that program.  Since rendering, lexing-from-tokens and parsing are
/// pure functions, the canonical form of a source text depends only on
/// the tokens it lexes to — never on its original whitespace.
pub proof fn lemma_render_parse_round_trip(ss: Seq<StmtV>)
    requires
        rt_program(ss),
    ensures
        spec_parse(spec_lex(render_program(ss))) == Ok::<Seq<StmtV>, PErrV>(ss),
{
    lemma_lex_render_program(ss);
    lemma_tokens_round_trip(ss);
}


} // verus!
