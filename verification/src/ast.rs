//! Abstract syntax tree: statements, expressions, and their canonical
//! re-rendering to source-like text (`literal`).
//!
//! Each executable node type has a specification-level mirror (`StmtV`,
//! `ExprV`) whose sequences and names are modelled with `Seq`, and the
//! canonical rendering is specified by the pure functions [`render_stmt`]
//! and [`render_expr`].

use vstd::prelude::*;
use crate::token::{kw_true, kw_false, kw_let, kw_return, kw_fn, kw_if, kw_else, clone_chars};

verus! {

/// Prefix operators: arithmetic negation and logical negation.
#[derive(Debug, Clone, Copy, PartialEq, Eq, Structural)]
pub enum PrefixOperatorType {
    Minus,
    Bang,
}

/// Binary infix operators.
#[derive(Debug, Clone, Copy, PartialEq, Eq, Structural)]
pub enum InfixOperatorType {
    Plus,
    Minus,
    Asterisk,
    Slash,
    Eq,
    NotEq,
    Lt,
    Gt,
}

/// The two boolean literals.
#[derive(Debug, Clone, Copy, PartialEq, Eq, Structural)]
pub enum BooleanType {
    True,
    False,
}

/// Specification-level mirror of [`StatementNode`].
pub enum StmtV {
    Let { identifier: ExprV, value: ExprV },
    Return { value: ExprV },
    Expr { expression: ExprV },
    Block { statements: Seq<StmtV> },
}

/// Specification-level mirror of [`ExpressionNode`].
pub enum ExprV {
    Ident { name: Seq<char> },
    Int { digits: Seq<char> },
    Bool { value: bool },
    Prefix { op: PrefixOperatorType, right: Box<ExprV> },
    Infix { op: InfixOperatorType, left: Box<ExprV>, right: Box<ExprV> },
    If { condition: Box<ExprV>, consequence: Box<StmtV>, alternative: Option<Box<StmtV>> },
    Func { parameters: Seq<ExprV>, body: Box<StmtV> },
    Call { function: Box<ExprV>, arguments: Seq<ExprV> },
}

/// One statement of the language.
#[derive(Debug)]
pub enum StatementNode {
    LetStatement { identifier: Box<ExpressionNode>, value: Box<ExpressionNode> },
    ReturnStatement { return_value: Box<ExpressionNode> },
    ExpressionStatement { expression: Box<ExpressionNode> },
    BlockStatement { statements: Vec<StatementNode> },
}

/// One expression of the language.
#[derive(Debug)]
pub enum ExpressionNode {
    Identifier { literal: Vec<char> },
    Integer { literal: Vec<char> },
    Boolean { boolean_type: BooleanType },
    PrefixOperator { operator_type: PrefixOperatorType, right: Box<ExpressionNode> },
    InfixOperator {
        operator_type: InfixOperatorType,
        left: Box<ExpressionNode>,
        right: Box<ExpressionNode>,
    },
    IfExpression {
        condition: Box<ExpressionNode>,
        consequence: Box<StatementNode>,
        alternative: Option<Box<StatementNode>>,
    },
    FunctionLiteral { parameters: Vec<Box<ExpressionNode>>, body: Box<StatementNode> },
    CallExpression { function: Box<ExpressionNode>, arguments: Vec<Box<ExpressionNode>> },
}

/// An ordered sequence of top-level statements.
#[derive(Debug)]
pub struct Program {
    statements: Vec<StatementNode>,
}

pub open spec fn stmt_view(s: StatementNode) -> StmtV
    decreases s,
{
    match s {
        StatementNode::LetStatement { identifier, value } => StmtV::Let {
            identifier: expr_view(*identifier),
            value: expr_view(*value),
        },
        StatementNode::ReturnStatement { return_value } => StmtV::Return {
            value: expr_view(*return_value),
        },
        StatementNode::ExpressionStatement { expression } => StmtV::Expr {
            expression: expr_view(*expression),
        },
        StatementNode::BlockStatement { statements } => StmtV::Block {
            statements: stmts_view(statements@),
        },
    }
}

pub open spec fn stmts_view(ss: Seq<StatementNode>) -> Seq<StmtV>
    decreases ss,
    via stmts_view_decreases
{
    if ss.len() == 0 {
        Seq::empty()
    } else {
        stmts_view(ss.drop_last()).push(stmt_view(ss.last()))
    }
}

#[via_fn]
proof fn stmts_view_decreases(ss: Seq<StatementNode>) {
    if ss.len() > 0 {
        assert(decreases_to!(ss => ss[ss.len() - 1]));
        assert(ss.drop_last() == ss.subrange(0, ss.len() - 1));
        assert(decreases_to!(ss => ss.subrange(0, ss.len() - 1)));
    }
}

pub open spec fn expr_view(e: ExpressionNode) -> ExprV
    decreases e,
{
    match e {
        ExpressionNode::Identifier { literal } => ExprV::Ident { name: literal@ },
        ExpressionNode::Integer { literal } => ExprV::Int { digits: literal@ },
        ExpressionNode::Boolean { boolean_type } => ExprV::Bool {
            value: boolean_type is True,
        },
        ExpressionNode::PrefixOperator { operator_type, right } => ExprV::Prefix {
            op: operator_type,
            right: Box::new(expr_view(*right)),
        },
        ExpressionNode::InfixOperator { operator_type, left, right } => ExprV::Infix {
            op: operator_type,
            left: Box::new(expr_view(*left)),
            right: Box::new(expr_view(*right)),
        },
        ExpressionNode::IfExpression { condition, consequence, alternative } => ExprV::If {
            condition: Box::new(expr_view(*condition)),
            consequence: Box::new(stmt_view(*consequence)),
            alternative: match alternative {
                Some(a) => Some(Box::new(stmt_view(*a))),
                None => None,
            },
        },
        ExpressionNode::FunctionLiteral { parameters, body } => ExprV::Func {
            parameters: exprs_view(parameters@),
            body: Box::new(stmt_view(*body)),
        },
        ExpressionNode::CallExpression { function, arguments } => ExprV::Call {
            function: Box::new(expr_view(*function)),
            arguments: exprs_view(arguments@),
        },
    }
}

pub open spec fn exprs_view(es: Seq<Box<ExpressionNode>>) -> Seq<ExprV>
    decreases es,
    via exprs_view_decreases
{
    if es.len() == 0 {
        Seq::empty()
    } else {
        exprs_view(es.drop_last()).push(expr_view(*es.last()))
    }
}

#[via_fn]
proof fn exprs_view_decreases(es: Seq<Box<ExpressionNode>>) {
    if es.len() > 0 {
        assert(decreases_to!(es => *es[es.len() - 1]));
        assert(es.drop_last() == es.subrange(0, es.len() - 1));
        assert(decreases_to!(es => es.subrange(0, es.len() - 1)));
    }
}

/// The statement views are the views of the statements, element by element.
pub broadcast proof fn lemma_stmts_view_len(ss: Seq<StatementNode>)
    ensures
        #[trigger] stmts_view(ss).len() == ss.len(),
    decreases ss.len(),
{
    if ss.len() > 0 {
        lemma_stmts_view_len(ss.drop_last());
    }
}

pub broadcast proof fn lemma_stmts_view_index(ss: Seq<StatementNode>, i: int)
    requires
        0 <= i < ss.len(),
    ensures
        #[trigger] stmts_view(ss)[i] == stmt_view(ss[i]),
    decreases ss.len(),
{
    lemma_stmts_view_len(ss.drop_last());
    if i < ss.len() - 1 {
        lemma_stmts_view_index(ss.drop_last(), i);
        assert(ss.drop_last()[i] == ss[i]);
    }
}

/// The expression views are the views of the expressions, element by
/// element.
pub broadcast proof fn lemma_exprs_view_len(es: Seq<Box<ExpressionNode>>)
    ensures
        #[trigger] exprs_view(es).len() == es.len(),
    decreases es.len(),
{
    if es.len() > 0 {
        lemma_exprs_view_len(es.drop_last());
    }
}

pub broadcast proof fn lemma_exprs_view_index(es: Seq<Box<ExpressionNode>>, i: int)
    requires
        0 <= i < es.len(),
    ensures
        #[trigger] exprs_view(es)[i] == expr_view(*es[i]),
    decreases es.len(),
{
    lemma_exprs_view_len(es.drop_last());
    if i < es.len() - 1 {
        lemma_exprs_view_index(es.drop_last(), i);
        assert(es.drop_last()[i] == es[i]);
    }
}

impl View for StatementNode {
    type V = StmtV;

    open spec fn view(&self) -> StmtV {
        stmt_view(*self)
    }
}

impl View for ExpressionNode {
    type V = ExprV;

    open spec fn view(&self) -> ExprV {
        expr_view(*self)
    }
}

impl View for Program {
    type V = Seq<StmtV>;

    closed spec fn view(&self) -> Seq<StmtV> {
        stmts_view(self.statements@)
    }
}

/// The single character a prefix operator renders to.
pub open spec fn render_prefix_op(op: PrefixOperatorType) -> Seq<char> {
    match op {
        PrefixOperatorType::Bang => seq!['!'],
        PrefixOperatorType::Minus => seq!['-'],
    }
}

/// The characters an infix operator renders to.
pub open spec fn render_infix_op(op: InfixOperatorType) -> Seq<char> {
    match op {
        InfixOperatorType::Plus => seq!['+'],
        InfixOperatorType::Minus => seq!['-'],
        InfixOperatorType::Asterisk => seq!['*'],
        InfixOperatorType::Slash => seq!['/'],
        InfixOperatorType::Eq => seq!['=', '='],
        InfixOperatorType::NotEq => seq!['!', '='],
        InfixOperatorType::Gt => seq!['>'],
        InfixOperatorType::Lt => seq!['<'],
    }
}

/// Canonical rendering of a statement: `let` and `return` end in a
/// semicolon, an expression statement appends one, and a block renders as
/// `{` followed by one space-prefixed statement each and ` }`.
pub open spec fn render_stmt(s: StmtV) -> Seq<char>
    decreases s,
{
    match s {
        StmtV::Let { identifier, value } => kw_let() + seq![' '] + render_expr(identifier) + seq![
            ' ',
            '=',
            ' ',
        ] + render_expr(value) + seq![';'],
        StmtV::Return { value } => kw_return() + seq![' '] + render_expr(value) + seq![';'],
        StmtV::Expr { expression } => render_expr(expression) + seq![';'],
        StmtV::Block { statements } => seq!['{'] + render_block_body(statements) + seq![' ', '}'],
    }
}

/// The inside of a block: every statement preceded by one space.
pub open spec fn render_block_body(ss: Seq<StmtV>) -> Seq<char>
    decreases ss,
{
    if ss.len() == 0 {
        Seq::empty()
    } else {
        render_block_body(ss.drop_last()) + seq![' '] + render_stmt(ss.last())
    }
}

/// Canonical rendering of an expression; prefix and infix expressions are
/// fully parenthesised.
pub open spec fn render_expr(e: ExprV) -> Seq<char>
    decreases e,
{
    match e {
        ExprV::Ident { name } => name,
        ExprV::Int { digits } => digits,
        ExprV::Bool { value } => if value {
            kw_true()
        } else {
            kw_false()
        },
        ExprV::Prefix { op, right } => seq!['('] + render_prefix_op(op) + render_expr(*right)
            + seq![')'],
        ExprV::Infix { op, left, right } => seq!['('] + render_expr(*left) + seq![' ']
            + render_infix_op(op) + seq![' '] + render_expr(*right) + seq![')'],
        ExprV::If { condition, consequence, alternative } => {
            let head = kw_if() + seq![' '] + render_expr(*condition) + seq![' '] + render_stmt(
                *consequence,
            );
            match alternative {
                Some(a) => head + seq![' '] + kw_else() + seq![' '] + render_stmt(*a),
                None => head,
            }
        },
        ExprV::Func { parameters, body } => kw_fn() + seq!['('] + render_expr_list(parameters)
            + seq![')'] + render_stmt(*body),
        ExprV::Call { function, arguments } => render_expr(*function) + seq!['(']
            + render_expr_list(arguments) + seq![')'],
    }
}

/// A comma-separated expression list, as used by parameter and argument
/// lists.
pub open spec fn render_expr_list(es: Seq<ExprV>) -> Seq<char>
    decreases es,
{
    if es.len() == 0 {
        Seq::empty()
    } else if es.len() == 1 {
        render_expr(es[0])
    } else {
        render_expr_list(es.drop_last()) + seq![',', ' '] + render_expr(es.last())
    }
}

/// Canonical rendering of a whole program: its statements, concatenated.
pub open spec fn render_program(ss: Seq<StmtV>) -> Seq<char>
    decreases ss,
{
    if ss.len() == 0 {
        Seq::empty()
    } else {
        render_program(ss.drop_last()) + render_stmt(ss.last())
    }
}

/// Builds the `String` holding exactly the given characters.
///
/// Relies on `String::from_iter` over `char` (via `Iterator::collect`),
/// which vstd gives no specification for: the resulting string consists of
/// precisely the characters of the iterator, in order.
#[verifier::external_body]
pub(crate) fn chars_to_string(v: &Vec<char>) -> (r: String)
    ensures
        r@ == v@,
{
    v.iter().collect()
}

impl StatementNode {
    /// Appends the canonical rendering of this statement to `out`.
    pub fn write_literal(&self, out: &mut Vec<char>)
        ensures
            final(out)@ == old(out)@ + render_stmt(self@),
        decreases self,
    {
        match self {
            StatementNode::LetStatement { identifier, value } => {
                out.push('l');
                out.push('e');
                out.push('t');
                out.push(' ');
                identifier.write_literal(out);
                out.push(' ');
                out.push('=');
                out.push(' ');
                value.write_literal(out);
                out.push(';');
                proof {
                    assert(out@ =~= old(out)@ + render_stmt(self@));
                }
            },
            StatementNode::ReturnStatement { return_value } => {
                out.push('r');
                out.push('e');
                out.push('t');
                out.push('u');
                out.push('r');
                out.push('n');
                out.push(' ');
                return_value.write_literal(out);
                out.push(';');
                proof {
                    assert(out@ =~= old(out)@ + render_stmt(self@));
                }
            },
            StatementNode::ExpressionStatement { expression } => {
                expression.write_literal(out);
                out.push(';');
                proof {
                    assert(out@ =~= old(out)@ + render_stmt(self@));
                }
            },
            StatementNode::BlockStatement { statements } => {
                out.push('{');
                write_block_body(statements, out);
                out.push(' ');
                out.push('}');
                proof {
                    assert(out@ =~= old(out)@ + render_stmt(self@));
                }
            },
        }
    }

    /// The canonical source-like text of this statement.
    pub fn literal(&self) -> (r: String)
        ensures
            r@ == render_stmt(self@),
    {
        let mut out: Vec<char> = Vec::new();
        self.write_literal(&mut out);
        chars_to_string(&out)
    }
}

impl ExpressionNode {
    /// Appends the canonical rendering of this expression to `out`.
    #[verifier::rlimit(60)]
    pub fn write_literal(&self, out: &mut Vec<char>)
        ensures
            final(out)@ == old(out)@ + render_expr(self@),
        decreases self,
    {
        match self {
            ExpressionNode::Identifier { literal } => {
                let mut i: usize = 0;
                let n = literal.len();
                while i < n
                    invariant
                        n == literal.len(),
                        i <= n,
                        out@ == old(out)@ + literal@.subrange(0, i as int),
                    decreases n - i,
                {
                    out.push(literal[i]);
                    proof {
                        assert(out@ =~= old(out)@ + literal@.subrange(0, i + 1int));
                    }
                    i += 1;
                }
                proof {
                    assert(literal@.subrange(0, n as int) =~= literal@);
                }
            },
            ExpressionNode::Integer { literal } => {
                let mut i: usize = 0;
                let n = literal.len();
                while i < n
                    invariant
                        n == literal.len(),
                        i <= n,
                        out@ == old(out)@ + literal@.subrange(0, i as int),
                    decreases n - i,
                {
                    out.push(literal[i]);
                    proof {
                        assert(out@ =~= old(out)@ + literal@.subrange(0, i + 1int));
                    }
                    i += 1;
                }
                proof {
                    assert(literal@.subrange(0, n as int) =~= literal@);
                }
            },
            ExpressionNode::Boolean { boolean_type } => {
                match boolean_type {
                    BooleanType::True => {
                        out.push('t');
                        out.push('r');
                        out.push('u');
                        out.push('e');
                    },
                    BooleanType::False => {
                        out.push('f');
                        out.push('a');
                        out.push('l');
                        out.push('s');
                        out.push('e');
                    },
                }
                proof {
                    assert(out@ =~= old(out)@ + render_expr(self@));
                }
            },
            ExpressionNode::PrefixOperator { operator_type, right } => {
                out.push('(');
                match operator_type {
                    PrefixOperatorType::Bang => out.push('!'),
                    PrefixOperatorType::Minus => out.push('-'),
                }
                right.write_literal(out);
                out.push(')');
                proof {
                    assert(out@ =~= old(out)@ + render_expr(self@));
                }
            },
            ExpressionNode::InfixOperator { operator_type, left, right } => {
                out.push('(');
                left.write_literal(out);
                out.push(' ');
                match operator_type {
                    InfixOperatorType::Plus => out.push('+'),
                    InfixOperatorType::Minus => out.push('-'),
                    InfixOperatorType::Asterisk => out.push('*'),
                    InfixOperatorType::Slash => out.push('/'),
                    InfixOperatorType::Eq => {
                        out.push('=');
                        out.push('=');
                    },
                    InfixOperatorType::NotEq => {
                        out.push('!');
                        out.push('=');
                    },
                    InfixOperatorType::Gt => out.push('>'),
                    InfixOperatorType::Lt => out.push('<'),
                }
                out.push(' ');
                right.write_literal(out);
                out.push(')');
                proof {
                    assert(out@ =~= old(out)@ + render_expr(self@));
                }
            },
            ExpressionNode::IfExpression { condition, consequence, alternative } => {
                out.push('i');
                out.push('f');
                out.push(' ');
                condition.write_literal(out);
                out.push(' ');
                consequence.write_literal(out);
                match alternative {
                    Some(a) => {
                        out.push(' ');
                        out.push('e');
                        out.push('l');
                        out.push('s');
                        out.push('e');
                        out.push(' ');
                        a.write_literal(out);
                    },
                    None => {},
                }
                proof {
                    assert(out@ =~= old(out)@ + render_expr(self@));
                }
            },
            ExpressionNode::FunctionLiteral { parameters, body } => {
                out.push('f');
                out.push('n');
                out.push('(');
                write_expr_list(parameters, out);
                out.push(')');
                body.write_literal(out);
                proof {
                    assert(out@ =~= old(out)@ + render_expr(self@));
                }
            },
            ExpressionNode::CallExpression { function, arguments } => {
                function.write_literal(out);
                out.push('(');
                write_expr_list(arguments, out);
                out.push(')');
                proof {
                    assert(out@ =~= old(out)@ + render_expr(self@));
                }
            },
        }
    }

    /// The canonical source-like text of this expression.
    pub fn literal(&self) -> (r: String)
        ensures
            r@ == render_expr(self@),
    {
        let mut out: Vec<char> = Vec::new();
        self.write_literal(&mut out);
        chars_to_string(&out)
    }
}

/// Appends the space-prefixed renderings of the block's statements to
/// `out`.
fn write_block_body(statements: &Vec<StatementNode>, out: &mut Vec<char>)
    ensures
        final(out)@ == old(out)@ + render_block_body(stmts_view(statements@)),
    decreases statements,
{
    let n = statements.len();
    let mut i: usize = 0;
    while i < n
        invariant
            n == statements.len(),
            i <= n,
            out@ == old(out)@ + render_block_body(stmts_view(statements@).subrange(0, i as int)),
        decreases n - i,
    {
        proof {
            assert(decreases_to!(*statements => statements@));
            assert(decreases_to!(statements@ => statements@[i as int]));
        }
        out.push(' ');
        statements[i].write_literal(out);
        proof {
            lemma_stmts_view_len(statements@);
            lemma_stmts_view_index(statements@, i as int);
            let prefix = stmts_view(statements@).subrange(0, i as int);
            let prefix1 = stmts_view(statements@).subrange(0, i + 1int);
            assert(prefix1.drop_last() =~= prefix);
            assert(prefix1.last() == stmt_view(statements@[i as int]));
            assert(out@ =~= old(out)@ + render_block_body(prefix1));
        }
        i += 1;
    }
    proof {
        lemma_stmts_view_len(statements@);
        assert(stmts_view(statements@).subrange(0, n as int) =~= stmts_view(statements@));
    }
}

/// Appends the comma-separated renderings of `es` to `out`.
fn write_expr_list(es: &Vec<Box<ExpressionNode>>, out: &mut Vec<char>)
    ensures
        final(out)@ == old(out)@ + render_expr_list(exprs_view(es@)),
    decreases es,
{
    let n = es.len();
    let mut i: usize = 0;
    while i < n
        invariant
            n == es.len(),
            i <= n,
            out@ == old(out)@ + render_expr_list(exprs_view(es@).subrange(0, i as int)),
        decreases n - i,
    {
        proof {
            assert(decreases_to!(*es => es@));
            assert(decreases_to!(es@ => es@[i as int]));
        }
        if i > 0 {
            out.push(',');
            out.push(' ');
        }
        es[i].write_literal(out);
        proof {
            lemma_exprs_view_len(es@);
            lemma_exprs_view_index(es@, i as int);
            let whole = exprs_view(es@);
            let prefix = whole.subrange(0, i as int);
            let prefix1 = whole.subrange(0, i + 1int);
            assert(prefix1.drop_last() =~= prefix);
            assert(prefix1.last() == expr_view(*es@[i as int]));
            if i == 0 {
                assert(out@ =~= old(out)@ + render_expr_list(prefix1));
            } else {
                assert(out@ =~= old(out)@ + render_expr_list(prefix1));
            }
        }
        i += 1;
    }
    proof {
        lemma_exprs_view_len(es@);
        assert(exprs_view(es@).subrange(0, n as int) =~= exprs_view(es@));
    }
}

impl Program {
    /// An empty program.
    pub fn new() -> (r: Self)
        ensures
            r@ == Seq::<StmtV>::empty(),
    {
        let r = Program { statements: Vec::new() };
        proof {
            assert(r@ =~= Seq::<StmtV>::empty());
        }
        r
    }

    /// Appends one top-level statement.
    pub fn add_statement(&mut self, statement: StatementNode)
        ensures
            final(self)@ == old(self)@.push(statement@),
    {
        self.statements.push(statement);
        proof {
            assert(self.statements@.drop_last() =~= old(self).statements@);
            assert(self@ =~= old(self)@.push(statement@));
        }
    }

    /// Read access to the statements, in order.
    pub fn statement_iter(&self) -> (r: &Vec<StatementNode>)
        ensures
            stmts_view(r@) == self@,
    {
        &self.statements
    }

    /// The canonical source-like text of the whole program.
    pub fn literal(&self) -> (r: String)
        ensures
            r@ == render_program(self@),
    {
        let mut out: Vec<char> = Vec::new();
        let n = self.statements.len();
        let mut i: usize = 0;
        while i < n
            invariant
                n == self.statements.len(),
                i <= n,
                out@ == render_program(stmts_view(self.statements@).subrange(0, i as int)),
            decreases n - i,
        {
            self.statements[i].write_literal(&mut out);
            proof {
                lemma_stmts_view_len(self.statements@);
                lemma_stmts_view_index(self.statements@, i as int);
                let whole = stmts_view(self.statements@);
                let prefix1 = whole.subrange(0, i + 1int);
                assert(prefix1.drop_last() =~= whole.subrange(0, i as int));
                assert(prefix1.last() == stmt_view(self.statements@[i as int]));
                assert(out@ =~= render_program(prefix1));
            }
            i += 1;
        }
        proof {
            lemma_stmts_view_len(self.statements@);
            assert(stmts_view(self.statements@).subrange(0, n as int) =~= stmts_view(
                self.statements@,
            ));
        }
        chars_to_string(&out)
    }
}

/// Deep copy of a statement.
pub fn clone_statement(s: &StatementNode) -> (r: StatementNode)
    ensures
        r@ == s@,
    decreases s,
{
    match s {
        StatementNode::LetStatement { identifier, value } => StatementNode::LetStatement {
            identifier: Box::new(clone_expression(identifier)),
            value: Box::new(clone_expression(value)),
        },
        StatementNode::ReturnStatement { return_value } => StatementNode::ReturnStatement {
            return_value: Box::new(clone_expression(return_value)),
        },
        StatementNode::ExpressionStatement { expression } => StatementNode::ExpressionStatement {
            expression: Box::new(clone_expression(expression)),
        },
        StatementNode::BlockStatement { statements } => {
            let out = clone_statement_list(statements);
            let r = StatementNode::BlockStatement { statements: out };
            r
        },
    }
}

/// Deep copy of an expression.
pub fn clone_expression(e: &ExpressionNode) -> (r: ExpressionNode)
    ensures
        r@ == e@,
    decreases e,
{
    match e {
        ExpressionNode::Identifier { literal } => ExpressionNode::Identifier {
            literal: clone_chars(literal),
        },
        ExpressionNode::Integer { literal } => ExpressionNode::Integer {
            literal: clone_chars(literal),
        },
        ExpressionNode::Boolean { boolean_type } => ExpressionNode::Boolean {
            boolean_type: *boolean_type,
        },
        ExpressionNode::PrefixOperator { operator_type, right } => {
            ExpressionNode::PrefixOperator {
                operator_type: *operator_type,
                right: Box::new(clone_expression(right)),
            }
        },
        ExpressionNode::InfixOperator { operator_type, left, right } => {
            ExpressionNode::InfixOperator {
                operator_type: *operator_type,
                left: Box::new(clone_expression(left)),
                right: Box::new(clone_expression(right)),
            }
        },
        ExpressionNode::IfExpression { condition, consequence, alternative } => {
            ExpressionNode::IfExpression {
                condition: Box::new(clone_expression(condition)),
                consequence: Box::new(clone_statement(consequence)),
                alternative: match alternative {
                    Some(a) => Some(Box::new(clone_statement(a))),
                    None => None,
                },
            }
        },
        ExpressionNode::FunctionLiteral { parameters, body } => {
            let ps = clone_expression_list(parameters);
            let r = ExpressionNode::FunctionLiteral {
                parameters: ps,
                body: Box::new(clone_statement(body)),
            };
            r
        },
        ExpressionNode::CallExpression { function, arguments } => {
            let args = clone_expression_list(arguments);
            let r = ExpressionNode::CallExpression {
                function: Box::new(clone_expression(function)),
                arguments: args,
            };
            r
        },
    }
}

/// Deep copy of a list of statements.
fn clone_statement_list(statements: &Vec<StatementNode>) -> (r: Vec<StatementNode>)
    ensures
        stmts_view(r@) == stmts_view(statements@),
    decreases statements,
{
    let n = statements.len();
    let mut out: Vec<StatementNode> = Vec::new();
    let mut i: usize = 0;
    while i < n
        invariant
            n == statements.len(),
            i <= n,
            out@.len() == i,
            forall|j: int| 0 <= j < i ==> out@[j]@ == statements@[j]@,
        decreases n - i,
    {
        proof {
            assert(decreases_to!(*statements => statements@));
            assert(decreases_to!(statements@ => statements@[i as int]));
        }
        let c = clone_statement(&statements[i]);
        out.push(c);
        i += 1;
    }
    proof {
        lemma_stmts_view_len(out@);
        lemma_stmts_view_len(statements@);
        assert forall|j: int| 0 <= j < n implies stmts_view(out@)[j] == stmts_view(
            statements@,
        )[j] by {
            lemma_stmts_view_index(out@, j);
            lemma_stmts_view_index(statements@, j);
        }
        assert(stmts_view(out@) =~= stmts_view(statements@));
    }
    out
}

/// Deep copy of a list of expressions.
fn clone_expression_list(es: &Vec<Box<ExpressionNode>>) -> (r: Vec<Box<ExpressionNode>>)
    ensures
        exprs_view(r@) == exprs_view(es@),
    decreases es,
{
    let n = es.len();
    let mut out: Vec<Box<ExpressionNode>> = Vec::new();
    let mut i: usize = 0;
    while i < n
        invariant
            n == es.len(),
            i <= n,
            out@.len() == i,
            forall|j: int| 0 <= j < i ==> out@[j]@ == es@[j]@,
        decreases n - i,
    {
        proof {
            assert(decreases_to!(*es => es@));
            assert(decreases_to!(es@ => es@[i as int]));
        }
        let c = clone_expression(&es[i]);
        out.push(Box::new(c));
        i += 1;
    }
    proof {
        lemma_exprs_view_len(out@);
        lemma_exprs_view_len(es@);
        assert forall|j: int| 0 <= j < n implies exprs_view(out@)[j] == exprs_view(es@)[j] by {
            lemma_exprs_view_index(out@, j);
            lemma_exprs_view_index(es@, j);
        }
        assert(exprs_view(out@) =~= exprs_view(es@));
    }
    out
}

} // verus!
