//! Tree-walking evaluator.
//!
//! The meaning of every construct is given by the pure, fuel-indexed
//! big-step functions [`spec_eval_expr`], [`spec_eval_stmt`] and
//! [`spec_eval_program`] over the syntax-tree and value models; the
//! executable evaluator is proved to return exactly what they prescribe,
//! fuel threaded identically.  Fuel is consumed only when a function value
//! is applied, so it bounds the call depth, not the amount of work;
//! exhausting it yields the `DepthExceeded` error.
//!
//! Arithmetic policy: `+ - *` fail with `ArithmeticError` when the exact
//! result falls outside the 32-bit signed range, division truncates toward
//! zero and fails with `ArithmeticError` on a zero divisor or on the one
//! overflowing quotient, and an integer literal too large for the range
//! fails the same way.

use vstd::prelude::*;
use crate::ast::{Program, StatementNode, ExpressionNode, StmtV, ExprV, PrefixOperatorType,
    InfixOperatorType, BooleanType, stmt_view, expr_view, stmts_view, exprs_view, lemma_stmts_view_len,
    lemma_stmts_view_index, lemma_exprs_view_len, lemma_exprs_view_index, clone_statement};
use crate::object::{Object, ObjV, obj_view, obj_wf, lemma_obj_wf_mono, names_view, objs_view,
    clone_object};
use crate::env::{Enviroment, EnvV, envs_view, envs_wf, arena_inv, frame_objs_wf, spec_env_get,
    lemma_env_get_wf};
use crate::lexer::spec_is_digit;
use crate::token::clone_chars;

verus! {

/// Evaluation errors: an unbound identifier, a call of a value that is not
/// a function, an arithmetic failure (overflow or division by zero), a
/// malformed node reaching a handler that expects a different shape, and
/// an exhausted call-depth budget.
#[derive(Debug)]
pub enum EvalError {
    NameError { name: Vec<char> },
    TypeError,
    ArithmeticError,
    StructuralError,
    DepthExceeded,
}

/// Specification-level mirror of [`EvalError`].
pub enum EvalErrV {
    NameError { name: Seq<char> },
    TypeError,
    ArithmeticError,
    StructuralError,
    DepthExceeded,
}

impl View for EvalError {
    type V = EvalErrV;

    open spec fn view(&self) -> EvalErrV {
        match self {
            EvalError::NameError { name } => EvalErrV::NameError { name: name@ },
            EvalError::TypeError => EvalErrV::TypeError,
            EvalError::ArithmeticError => EvalErrV::ArithmeticError,
            EvalError::StructuralError => EvalErrV::StructuralError,
            EvalError::DepthExceeded => EvalErrV::DepthExceeded,
        }
    }
}

/// What one evaluation step leaves behind: the frames after it, and its
/// value or error.
pub struct EvalOut {
    pub envs: Seq<EnvV>,
    pub res: Result<ObjV, EvalErrV>,
}

/// Like [`EvalOut`], for an argument list evaluated left to right.
pub struct EvalArgsOut {
    pub envs: Seq<EnvV>,
    pub res: Result<Seq<ObjV>, EvalErrV>,
}

/// Truthiness: the null value and `false` are falsy; every other value,
/// zero included, is truthy.
pub open spec fn spec_is_truthy(o: ObjV) -> bool {
    match o {
        ObjV::Null => false,
        ObjV::Bool { value } => value,
        _ => true,
    }
}

/// Whether a mathematical integer fits in the 32-bit signed range.
pub open spec fn in_i32(v: int) -> bool {
    i32::MIN <= v <= i32::MAX
}

/// The integer object for an exact result, or the arithmetic error when it
/// does not fit.
pub open spec fn int_result(v: int) -> Result<ObjV, EvalErrV> {
    if in_i32(v) {
        Ok(ObjV::Int { value: v as i32 })
    } else {
        Err(EvalErrV::ArithmeticError)
    }
}

pub open spec fn abs_int(a: int) -> int {
    if a < 0 {
        -a
    } else {
        a
    }
}

/// Division truncating toward zero, as 32-bit machine division does.
pub open spec fn spec_div_trunc(a: int, b: int) -> int {
    if (a < 0) == (b < 0) {
        abs_int(a) / abs_int(b)
    } else {
        -(abs_int(a) / abs_int(b))
    }
}

/// A prefix operator applied to a value: negation needs an integer,
/// logical not needs a boolean; any other combination is the null value,
/// not an error.
pub open spec fn spec_prefix(op: PrefixOperatorType, r: ObjV) -> Result<ObjV, EvalErrV> {
    match (op, r) {
        (PrefixOperatorType::Minus, ObjV::Int { value }) => int_result(-(value as int)),
        (PrefixOperatorType::Bang, ObjV::Bool { value }) => Ok(ObjV::Bool { value: !value }),
        _ => Ok(ObjV::Null),
    }
}

/// An infix operator applied to two values.  Arithmetic and comparisons
/// need two integers; equality is also defined on two booleans; any other
/// combination is the null value, not an error.
pub open spec fn spec_infix(op: InfixOperatorType, l: ObjV, r: ObjV) -> Result<ObjV, EvalErrV> {
    match (l, r) {
        (ObjV::Int { value: a }, ObjV::Int { value: b }) => match op {
            InfixOperatorType::Plus => int_result(a + b),
            InfixOperatorType::Minus => int_result(a - b),
            InfixOperatorType::Asterisk => int_result(a * b),
            InfixOperatorType::Slash => if b == 0 {
                Err(EvalErrV::ArithmeticError)
            } else {
                int_result(spec_div_trunc(a as int, b as int))
            },
            InfixOperatorType::Lt => Ok(ObjV::Bool { value: a < b }),
            InfixOperatorType::Gt => Ok(ObjV::Bool { value: a > b }),
            InfixOperatorType::Eq => Ok(ObjV::Bool { value: a == b }),
            InfixOperatorType::NotEq => Ok(ObjV::Bool { value: a != b }),
        },
        (ObjV::Bool { value: a }, ObjV::Bool { value: b }) => match op {
            InfixOperatorType::Eq => Ok(ObjV::Bool { value: a == b }),
            InfixOperatorType::NotEq => Ok(ObjV::Bool { value: a != b }),
            _ => Ok(ObjV::Null),
        },
        _ => Ok(ObjV::Null),
    }
}

/// The numeric value of a digit character.
pub open spec fn digit_val(c: char) -> int {
    (c as u32) - ('0' as u32)
}

/// The number the digit characters denote, most significant first.
pub open spec fn digits_value(s: Seq<char>) -> int
    decreases s.len(),
{
    if s.len() == 0 {
        0
    } else {
        digits_value(s.drop_last()) * 10 + digit_val(s.last())
    }
}

/// A non-empty, all-digit character run.
pub open spec fn all_digits(s: Seq<char>) -> bool {
    s.len() > 0 && forall|i: int| 0 <= i < s.len() ==> spec_is_digit(#[trigger] s[i])
}

/// The value of an integer literal: its digits' number when it fits the
/// 32-bit signed range, the arithmetic error when it is too large, and
/// the structural error when the stored characters are not digits.
pub open spec fn spec_eval_int(digits: Seq<char>) -> Result<ObjV, EvalErrV> {
    if !all_digits(digits) {
        Err(EvalErrV::StructuralError)
    } else if digits_value(digits) > i32::MAX {
        Err(EvalErrV::ArithmeticError)
    } else {
        Ok(ObjV::Int { value: digits_value(digits) as i32 })
    }
}

/// Digit prefixes denote values no larger than the whole run's value, and
/// no digit run denotes a negative value.
proof fn lemma_digits_value_mono(s: Seq<char>, k: int)
    requires
        0 <= k <= s.len(),
        forall|i: int| 0 <= i < s.len() ==> spec_is_digit(#[trigger] s[i]),
    ensures
        0 <= digits_value(s.subrange(0, k)),
        digits_value(s.subrange(0, k)) <= digits_value(s),
    decreases s.len(),
{
    if s.len() == 0 {
        assert(s.subrange(0, k) =~= s);
    } else if k == s.len() {
        assert(s.subrange(0, k) =~= s);
        lemma_digits_value_mono(s.drop_last(), k - 1);
        assert(s.drop_last().subrange(0, k - 1) =~= s.drop_last());
    } else {
        assert(s.subrange(0, k) =~= s.drop_last().subrange(0, k));
        lemma_digits_value_mono(s.drop_last(), k);
    }
}

/// The parameter names of a function literal, when every parameter node is
/// an identifier.
pub open spec fn spec_param_names(ps: Seq<ExprV>) -> Option<Seq<Seq<char>>>
    decreases ps.len(),
{
    if ps.len() == 0 {
        Some(Seq::empty())
    } else {
        match (spec_param_names(ps.drop_last()), ps.last()) {
            (Some(ns), ExprV::Ident { name }) => Some(ns.push(name)),
            _ => None,
        }
    }
}

/// The bindings of the first `k` parameter-argument pairs, bound left to
/// right.
pub open spec fn spec_bind(params: Seq<Seq<char>>, args: Seq<ObjV>, k: nat) -> Map<
    Seq<char>,
    ObjV,
>
    decreases k,
{
    if k == 0 {
        Map::empty()
    } else {
        spec_bind(params, args, (k - 1) as nat).insert(params[k - 1], args[k - 1])
    }
}

/// How many parameters a call binds: parameters and arguments are zipped
/// positionally, the longer list's surplus ignored.
pub open spec fn spec_bind_count(params: Seq<Seq<char>>, args: Seq<ObjV>) -> nat {
    if params.len() <= args.len() {
        params.len()
    } else {
        args.len()
    }
}

/// Evaluates one expression: the frames afterwards, and the value or
/// error.
pub open spec fn spec_eval_expr(fuel: nat, envs: Seq<EnvV>, cur: nat, e: ExprV) -> EvalOut
    decreases fuel, e, 3int,
{
    match e {
        ExprV::Ident { name } => EvalOut {
            envs,
            res: match spec_env_get(envs, cur, name) {
                Some(o) => Ok(o),
                None => Err(EvalErrV::NameError { name }),
            },
        },
        ExprV::Int { digits } => EvalOut { envs, res: spec_eval_int(digits) },
        ExprV::Bool { value } => EvalOut { envs, res: Ok(ObjV::Bool { value }) },
        ExprV::Prefix { op, right } => {
            let ro = spec_eval_expr(fuel, envs, cur, *right);
            match ro.res {
                Ok(r) => EvalOut { envs: ro.envs, res: spec_prefix(op, r) },
                Err(e) => ro,
            }
        },
        ExprV::Infix { op, left, right } => {
            let lo = spec_eval_expr(fuel, envs, cur, *left);
            match lo.res {
                Ok(l) => {
                    let ro = spec_eval_expr(fuel, lo.envs, cur, *right);
                    match ro.res {
                        Ok(r) => EvalOut { envs: ro.envs, res: spec_infix(op, l, r) },
                        Err(e) => ro,
                    }
                },
                Err(e) => lo,
            }
        },
        ExprV::If { condition, consequence, alternative } => {
            let co = spec_eval_expr(fuel, envs, cur, *condition);
            match co.res {
                Ok(c) => {
                    if spec_is_truthy(c) {
                        spec_eval_stmt(fuel, co.envs, cur, *consequence)
                    } else {
                        match alternative {
                            Some(a) => spec_eval_stmt(fuel, co.envs, cur, *a),
                            None => EvalOut { envs: co.envs, res: Ok(ObjV::Null) },
                        }
                    }
                },
                Err(e) => co,
            }
        },
        ExprV::Func { parameters, body } => EvalOut {
            envs,
            res: match spec_param_names(parameters) {
                Some(names) => Ok(
                    ObjV::Func { parameters: names, body: *body, env: cur },
                ),
                None => Err(EvalErrV::StructuralError),
            },
        },
        ExprV::Call { function, arguments } => {
            let fo = spec_eval_expr(fuel, envs, cur, *function);
            match fo.res {
                Ok(fv) => match fv {
                    ObjV::Func { parameters, body, env } => {
                        let ao = spec_eval_exprs(fuel, fo.envs, cur, arguments);
                        match ao.res {
                            Ok(args) => {
                                if fuel == 0 {
                                    EvalOut {
                                        envs: ao.envs,
                                        res: Err(EvalErrV::DepthExceeded),
                                    }
                                } else {
                                    spec_apply(
                                        (fuel - 1) as nat,
                                        ao.envs,
                                        parameters,
                                        body,
                                        env,
                                        args,
                                    )
                                }
                            },
                            Err(e) => EvalOut { envs: ao.envs, res: Err(e) },
                        }
                    },
                    _ => EvalOut { envs: fo.envs, res: Err(EvalErrV::TypeError) },
                },
                Err(e) => fo,
            }
        },
    }
}

/// Evaluates an argument list left to right in the caller's frame.
pub open spec fn spec_eval_exprs(fuel: nat, envs: Seq<EnvV>, cur: nat, es: Seq<ExprV>) -> EvalArgsOut
    decreases fuel, es, 2int,
{
    if es.len() == 0 {
        EvalArgsOut { envs, res: Ok(Seq::empty()) }
    } else {
        let fo = spec_eval_expr(fuel, envs, cur, es[0]);
        match fo.res {
            Ok(v) => {
                let rest = spec_eval_exprs(fuel, fo.envs, cur, es.drop_first());
                match rest.res {
                    Ok(vs) => EvalArgsOut { envs: rest.envs, res: Ok(seq![v] + vs) },
                    Err(e) => rest,
                }
            },
            Err(e) => EvalArgsOut { envs: fo.envs, res: Err(e) },
        }
    }
}

/// Applies a function value: a fresh frame whose outer frame is the one
/// the function captured, parameters bound positionally, the body
/// evaluated there, and a return marker unwrapped at this boundary.
pub open spec fn spec_apply(
    fuel: nat,
    envs: Seq<EnvV>,
    params: Seq<Seq<char>>,
    body: StmtV,
    fenv: nat,
    args: Seq<ObjV>,
) -> EvalOut
    decreases fuel, body, 4int,
{
    let frame = EnvV {
        store: spec_bind(params, args, spec_bind_count(params, args)),
        outer: Some(fenv),
    };
    let idx = envs.len();
    let bo = spec_eval_stmt(fuel, envs.push(frame), idx, body);
    match bo.res {
        Ok(ObjV::Ret { value }) => EvalOut { envs: bo.envs, res: Ok(*value) },
        _ => bo,
    }
}

/// Evaluates one statement.  A `let` binds in the current frame and
/// yields the null value; a `return` wraps its value in the return
/// marker; a block runs its statements in the same frame and stops at a
/// return marker, propagating it intact.
pub open spec fn spec_eval_stmt(fuel: nat, envs: Seq<EnvV>, cur: nat, s: StmtV) -> EvalOut
    decreases fuel, s, 3int,
{
    match s {
        StmtV::Let { identifier, value } => {
            match identifier {
                ExprV::Ident { name } => {
                    let vo = spec_eval_expr(fuel, envs, cur, value);
                    match vo.res {
                        Ok(v) => {
                            if cur < vo.envs.len() {
                                let f = vo.envs[cur as int];
                                let f2 = EnvV { store: f.store.insert(name, v), outer: f.outer };
                                EvalOut {
                                    envs: vo.envs.update(cur as int, f2),
                                    res: Ok(ObjV::Null),
                                }
                            } else {
                                EvalOut { envs: vo.envs, res: Err(EvalErrV::StructuralError) }
                            }
                        },
                        Err(e) => vo,
                    }
                },
                _ => EvalOut { envs, res: Err(EvalErrV::StructuralError) },
            }
        },
        StmtV::Return { value } => {
            let vo = spec_eval_expr(fuel, envs, cur, value);
            match vo.res {
                Ok(v) => EvalOut {
                    envs: vo.envs,
                    res: Ok(ObjV::Ret { value: Box::new(v) }),
                },
                Err(e) => vo,
            }
        },
        StmtV::Expr { expression } => spec_eval_expr(fuel, envs, cur, expression),
        StmtV::Block { statements } => spec_eval_block(fuel, envs, cur, statements, ObjV::Null),
    }
}

/// Evaluates a block's statements in order; the result is the last
/// statement's value, or the first return marker or error encountered.
pub open spec fn spec_eval_block(
    fuel: nat,
    envs: Seq<EnvV>,
    cur: nat,
    ss: Seq<StmtV>,
    last: ObjV,
) -> EvalOut
    decreases fuel, ss, 2int,
{
    if ss.len() == 0 {
        EvalOut { envs, res: Ok(last) }
    } else {
        let so = spec_eval_stmt(fuel, envs, cur, ss[0]);
        match so.res {
            Ok(o) => {
                if o is Ret {
                    so
                } else {
                    spec_eval_block(fuel, so.envs, cur, ss.drop_first(), o)
                }
            },
            Err(e) => so,
        }
    }
}

/// Evaluates top-level statements in order; a return marker stops the
/// program and unwraps to its inner value.
pub open spec fn spec_eval_program(
    fuel: nat,
    envs: Seq<EnvV>,
    cur: nat,
    ss: Seq<StmtV>,
    last: ObjV,
) -> EvalOut
    decreases fuel, ss, 5int,
{
    if ss.len() == 0 {
        EvalOut { envs, res: Ok(last) }
    } else {
        let so = spec_eval_stmt(fuel, envs, cur, ss[0]);
        match so.res {
            Ok(ObjV::Ret { value }) => EvalOut { envs: so.envs, res: Ok(*value) },
            Ok(o) => spec_eval_program(fuel, so.envs, cur, ss.drop_first(), o),
            Err(e) => so,
        }
    }
}

/// The whole meaning of a program evaluated against the given frames with
/// the given call-depth budget: the root frame is frame `0`.
pub open spec fn spec_eval(fuel: nat, envs: Seq<EnvV>, prog: Seq<StmtV>) -> EvalOut {
    spec_eval_program(fuel, envs, 0, prog, ObjV::Null)
}

/// How an executable step's outcome realises a specification step: same
/// frames, same value or error, the arena never shrinking, and a returned
/// value always well-formed.
pub open spec fn eval_matches(
    out: EvalOut,
    pre: Seq<EnvV>,
    post: Seq<EnvV>,
    r: Result<Object, EvalError>,
) -> bool {
    &&& out.envs == post
    &&& pre.len() <= post.len()
    &&& match (r, out.res) {
        (Ok(o), Ok(ov)) => o@ == ov && obj_wf(ov, post.len()),
        (Err(e), Err(ev)) => e@ == ev,
        _ => false,
    }
}

/// Same value or error, for steps that leave the frames alone.
pub open spec fn result_matches(r: Result<Object, EvalError>, s: Result<ObjV, EvalErrV>) -> bool {
    match (r, s) {
        (Ok(o), Ok(ov)) => o@ == ov,
        (Err(e), Err(ev)) => e@ == ev,
        _ => false,
    }
}

/// An argument list's worth of results, prefixed by already-evaluated
/// values.
pub open spec fn compose_args(prefix: Seq<ObjV>, out: EvalArgsOut) -> EvalArgsOut {
    EvalArgsOut {
        envs: out.envs,
        res: match out.res {
            Ok(vs) => Ok(prefix + vs),
            Err(e) => Err(e),
        },
    }
}

/// A parameter list with a non-identifier entry has no names.
proof fn lemma_param_names_none(ps: Seq<ExprV>, i: int)
    requires
        0 <= i < ps.len(),
        !(ps[i] is Ident),
    ensures
        spec_param_names(ps) is None,
    decreases ps.len(),
{
    if i < ps.len() - 1 {
        lemma_param_names_none(ps.drop_last(), i);
    }
}

/// Values bound from well-formed arguments are well-formed.
proof fn lemma_bind_wf(params: Seq<Seq<char>>, args: Seq<ObjV>, k: nat, n: nat)
    requires
        k <= args.len(),
        forall|j: int| 0 <= j < args.len() ==> obj_wf(#[trigger] args[j], n),
    ensures
        forall|key: Seq<char>|
            #[trigger] spec_bind(params, args, k).contains_key(key) ==> obj_wf(
                spec_bind(params, args, k)[key],
                n,
            ),
    decreases k,
{
    if k > 0 {
        lemma_bind_wf(params, args, (k - 1) as nat, n);
        let prev = spec_bind(params, args, (k - 1) as nat);
        let curm = spec_bind(params, args, k);
        assert(obj_wf(args[k - 1], n));
        assert forall|key: Seq<char>| #[trigger] curm.contains_key(key) implies obj_wf(
            curm[key],
            n,
        ) by {
            if key != params[k - 1] {
                assert(prev.contains_key(key));
                assert(curm[key] == prev[key]);
            }
        }
    }
}

/// Frame well-formedness survives growing the arena.
proof fn lemma_frame_objs_wf_mono(f: EnvV, n: nat, m: nat)
    requires
        frame_objs_wf(f, n),
        n <= m,
    ensures
        frame_objs_wf(f, m),
{
    assert forall|k: Seq<char>| #[trigger] f.store.contains_key(k) implies obj_wf(
        f.store[k],
        m,
    ) by {
        lemma_obj_wf_mono(f.store[k], n, m);
    }
}

/// Pushing a frame whose outer link points into the arena keeps the arena
/// well-formed.
proof fn lemma_envs_wf_push(es: Seq<EnvV>, f: EnvV)
    requires
        envs_wf(es),
        match f.outer {
            Some(o) => o < es.len(),
            None => true,
        },
        frame_objs_wf(f, es.len() + 1),
    ensures
        envs_wf(es.push(f)),
{
    let es2 = es.push(f);
    assert forall|i: int| 0 <= i < es2.len() implies {
        &&& match (#[trigger] es2[i]).outer {
            Some(o) => o < i,
            None => true,
        }
        &&& frame_objs_wf(es2[i], es2.len())
    } by {
        if i < es.len() {
            assert(es2[i] == es[i]);
            lemma_frame_objs_wf_mono(es[i], es.len(), es2.len());
        } else {
            assert(es2[i] == f);
        }
    }
}

/// The call-depth budget of a program evaluation.
pub const EVAL_DEPTH: u64 = 1000;

/// The frames a fresh evaluator starts from: one empty root frame.
pub open spec fn initial_envs() -> Seq<EnvV> {
    seq![(EnvV { store: Map::<Seq<char>, ObjV>::empty(), outer: None::<nat> })]
}

/// Law: evaluation is deterministic.  Two evaluations of the same program,
/// each against an independent fresh environment, are prescribed the very
/// same outcome; together with the contracts of [`Evaluator::new`] and
/// [`Evaluator::eavl_program`], two such runs return identical values or
/// identical errors.
pub proof fn lemma_evaluation_deterministic(prog: Seq<StmtV>, out1: EvalOut, out2: EvalOut)
    requires
        out1 == spec_eval(EVAL_DEPTH as nat, initial_envs(), prog),
        out2 == spec_eval(EVAL_DEPTH as nat, initial_envs(), prog),
    ensures
        out1.res == out2.res,
        out1.envs == out2.envs,
{
}

/// The tree-walking evaluator: it owns the arena of environment frames;
/// frame `0` is the root environment of program evaluation.
pub struct Evaluator {
    envs: Vec<Enviroment>,
}

impl View for Evaluator {
    type V = Seq<EnvV>;

    closed spec fn view(&self) -> Seq<EnvV> {
        envs_view(self.envs@)
    }
}

impl Evaluator {
    /// The arena is well-formed: unique keys in every frame, outer links
    /// and captured frames in bounds, and a root frame present.
    pub closed spec fn wf(&self) -> bool {
        &&& arena_inv(self.envs@)
        &&& envs_wf(envs_view(self.envs@))
        &&& self.envs@.len() >= 1
    }

    /// A fresh evaluator: one empty root frame.
    pub fn new() -> (r: Self)
        ensures
            r.wf(),
            r@ == initial_envs(),
    {
        let mut envs: Vec<Enviroment> = Vec::new();
        envs.push(Enviroment::new());
        let r = Evaluator { envs };
        proof {
            assert(r@ =~= initial_envs());
            assert(r.wf());
        }
        r
    }

    /// Truthiness of a value: the null value and `false` are falsy,
    /// everything else (zero included) is truthy.
    pub fn is_truthy(&self, object: &Object) -> (r: bool)
        ensures
            r == spec_is_truthy(object@),
    {
        match object {
            Object::Null => false,
            Object::Boolean { value } => *value,
            _ => true,
        }
    }

    /// The value of an integer literal node.
    pub fn eval_integer(&self, expression: &ExpressionNode) -> (r: Result<Object, EvalError>)
        requires
            expression@ is Int,
        ensures
            ({
                match expression@ {
                    ExprV::Int { digits } => result_matches(r, spec_eval_int(digits)),
                    _ => false,
                }
            }),
    {
        match expression {
            ExpressionNode::Integer { literal } => {
                let n = literal.len();
                if n == 0 {
                    return Err(EvalError::StructuralError);
                }
                let mut i: usize = 0;
                while i < n
                    invariant
                        expression@ == (ExprV::Int { digits: literal@ }),
                        n == literal.len(),
                        i <= n,
                        forall|j: int| 0 <= j < i ==> spec_is_digit(#[trigger] literal@[j]),
                    decreases n - i,
                {
                    if !crate::lexer::Lexer::is_digit(literal[i]) {
                        proof {
                            assert(!spec_is_digit(literal@[i as int]));
                            assert(!all_digits(literal@));
                        }
                        return Err(EvalError::StructuralError);
                    }
                    i += 1;
                }
                let mut acc: u32 = 0;
                i = 0;
                while i < n
                    invariant
                        expression@ == (ExprV::Int { digits: literal@ }),
                        n == literal.len(),
                        n > 0,
                        i <= n,
                        all_digits(literal@),
                        acc == digits_value(literal@.subrange(0, i as int)),
                        acc <= i32::MAX,
                    decreases n - i,
                {
                    let c = literal[i];
                    let d: u32 = (c as u32) - 48;
                    proof {
                        assert(spec_is_digit(literal@[i as int]));
                        assert(d == digit_val(c));
                        assert(d <= 9);
                        assert(literal@.subrange(0, i + 1int).drop_last() =~= literal@.subrange(
                            0,
                            i as int,
                        ));
                        assert(literal@.subrange(0, i + 1int).last() == c);
                    }
                    if acc > 214748364 || (acc == 214748364 && d > 7) {
                        proof {
                            let pre1 = literal@.subrange(0, i + 1int);
                            assert(digits_value(pre1.drop_last()) == acc);
                            assert(digits_value(pre1) == acc * 10 + d);
                            assert(digits_value(pre1) > i32::MAX);
                            lemma_digits_value_mono(literal@, i + 1);
                            assert(digits_value(pre1) <= digits_value(literal@));
                            assert(digits_value(literal@) > i32::MAX);
                            assert(spec_eval_int(literal@) == Err::<ObjV, EvalErrV>(
                                EvalErrV::ArithmeticError,
                            ));
                        }
                        return Err(EvalError::ArithmeticError);
                    }
                    acc = acc * 10 + d;
                    i += 1;
                }
                proof {
                    assert(literal@.subrange(0, n as int) =~= literal@);
                }
                Ok(Object::Integer { value: acc as i32 })
            },
            _ => {
                proof {
                    assert(false);
                }
                Err(EvalError::StructuralError)
            },
        }
    }

    /// The value of a boolean literal node.
    pub fn eval_boolean(&self, expression: &ExpressionNode) -> (r: Result<Object, EvalError>)
        requires
            expression@ is Bool,
        ensures
            ({
                match expression@ {
                    ExprV::Bool { value } => r == Ok::<Object, EvalError>(
                        Object::Boolean { value },
                    ),
                    _ => false,
                }
            }),
    {
        match expression {
            ExpressionNode::Boolean { boolean_type } => {
                let value = match boolean_type {
                    BooleanType::True => true,
                    BooleanType::False => false,
                };
                Ok(Object::Boolean { value })
            },
            _ => {
                proof {
                    assert(false);
                }
                Err(EvalError::StructuralError)
            },
        }
    }

    /// The value bound to an identifier, found through the frame chain.
    #[verifier::rlimit(30)]
    fn eval_identifier(&self, expression: &ExpressionNode, cur: usize) -> (r: Result<
        Object,
        EvalError,
    >)
        requires
            self.wf(),
            cur < self@.len(),
            expression@ is Ident,
        ensures
            ({
                match expression@ {
                    ExprV::Ident { name } => {
                        &&& match (r, spec_env_get(self@, cur as nat, name)) {
                            (Ok(o), Some(ov)) => o@ == ov && obj_wf(ov, self@.len()),
                            (Err(e), None) => e@ == (EvalErrV::NameError { name }),
                            _ => false,
                        }
                    },
                    _ => false,
                }
            }),
    {
        match expression {
            ExpressionNode::Identifier { literal } => {
                proof {
                    lemma_env_get_wf(self@, cur as nat, literal@);
                }
                match Enviroment::get(&self.envs, cur, literal) {
                    Some(o) => Ok(o),
                    None => Err(EvalError::NameError { name: clone_chars(literal) }),
                }
            },
            _ => {
                proof {
                    assert(false);
                }
                Err(EvalError::StructuralError)
            },
        }
    }
}


/// Truncated 32-bit division via magnitudes; the overflowing quotient is
/// excluded by the caller.
fn div_trunc_i32(a: i32, b: i32) -> (r: i32)
    requires
        b != 0,
        !(a == i32::MIN && b == -1),
    ensures
        r as int == spec_div_trunc(a as int, b as int),
{
    let ua: u32 = if a < 0 {
        (-(a as i64)) as u32
    } else {
        a as u32
    };
    let ub: u32 = if b < 0 {
        (-(b as i64)) as u32
    } else {
        b as u32
    };
    proof {
        assert(ua == abs_int(a as int));
        assert(ub == abs_int(b as int));
        assert(ub >= 1);
    }
    let q: u32 = ua / ub;
    proof {
        vstd::arithmetic::div_mod::lemma_div_nonincreasing(ua as int, ub as int);
        assert(q <= ua);
    }
    if (a < 0) != (b < 0) {
        let r64: i64 = -(q as i64);
        proof {
            assert(i32::MIN as i64 <= r64 <= 0);
        }
        r64 as i32
    } else {
        proof {
            if ua >= 2147483648u32 {
                assert(a == i32::MIN);
                assert(b < 0 && b != -1);
                assert(ub >= 2);
                vstd::arithmetic::div_mod::lemma_div_is_ordered_by_denominator(
                    ua as int,
                    2,
                    ub as int,
                );
                assert(q <= ua as int / 2);
            }
            assert(q <= i32::MAX);
        }
        q as i32
    }
}

impl Evaluator {
    /// A prefix operator: evaluate the operand, then apply the operator.
    pub fn eval_prefix_operator(
        &mut self,
        expression: &ExpressionNode,
        cur: usize,
        fuel: u64,
    ) -> (r: Result<Object, EvalError>)
        requires
            old(self).wf(),
            cur < old(self)@.len(),
            expression@ is Prefix,
        ensures
            final(self).wf(),
            eval_matches(
                spec_eval_expr(fuel as nat, old(self)@, cur as nat, expression@),
                old(self)@,
                final(self)@,
                r,
            ),
        decreases fuel, expression, 2int,
    {
        match expression {
            ExpressionNode::PrefixOperator { operator_type, right } => {
                let ro = self.eval_expression(right, cur, fuel);
                match ro {
                    Ok(robj) => {
                        match (operator_type, &robj) {
                            (PrefixOperatorType::Minus, Object::Integer { value }) => {
                                if *value == i32::MIN {
                                    Err(EvalError::ArithmeticError)
                                } else {
                                    Ok(Object::Integer { value: -*value })
                                }
                            },
                            (PrefixOperatorType::Bang, Object::Boolean { value }) => {
                                Ok(Object::Boolean { value: !*value })
                            },
                            (_, _) => Ok(Object::Null),
                        }
                    },
                    Err(e) => Err(e),
                }
            },
            _ => {
                proof {
                    assert(false);
                }
                Err(EvalError::StructuralError)
            },
        }
    }

    /// An infix operator: evaluate the left operand, then the right, then
    /// apply the operator.
    pub fn eval_infix_operator(
        &mut self,
        expression: &ExpressionNode,
        cur: usize,
        fuel: u64,
    ) -> (r: Result<Object, EvalError>)
        requires
            old(self).wf(),
            cur < old(self)@.len(),
            expression@ is Infix,
        ensures
            final(self).wf(),
            eval_matches(
                spec_eval_expr(fuel as nat, old(self)@, cur as nat, expression@),
                old(self)@,
                final(self)@,
                r,
            ),
        decreases fuel, expression, 2int,
    {
        match expression {
            ExpressionNode::InfixOperator { operator_type, left, right } => {
                let lo = self.eval_expression(left, cur, fuel);
                match lo {
                    Ok(lobj) => {
                        let ro = self.eval_expression(right, cur, fuel);
                        match ro {
                            Ok(robj) => Ok(
                                match self.apply_infix(*operator_type, lobj, robj) {
                                    Ok(o) => o,
                                    Err(e) => {
                                        return Err(e);
                                    },
                                },
                            ),
                            Err(e) => Err(e),
                        }
                    },
                    Err(e) => Err(e),
                }
            },
            _ => {
                proof {
                    assert(false);
                }
                Err(EvalError::StructuralError)
            },
        }
    }

    /// The pure step of an infix operator on two already-evaluated values.
    fn apply_infix(&self, op: InfixOperatorType, lobj: Object, robj: Object) -> (r: Result<
        Object,
        EvalError,
    >)
        ensures
            result_matches(r, spec_infix(op, lobj@, robj@)),
            r matches Ok(o) ==> obj_wf(o@, 0),
    {
        match (op, &lobj, &robj) {
            (InfixOperatorType::Plus, Object::Integer { value: a }, Object::Integer {
                value: b,
            }) => {
                let s64: i64 = (*a as i64) + (*b as i64);
                if s64 > i32::MAX as i64 || s64 < i32::MIN as i64 {
                    Err(EvalError::ArithmeticError)
                } else {
                    Ok(Object::Integer { value: s64 as i32 })
                }
            },
            (InfixOperatorType::Minus, Object::Integer { value: a }, Object::Integer {
                value: b,
            }) => {
                let s64: i64 = (*a as i64) - (*b as i64);
                if s64 > i32::MAX as i64 || s64 < i32::MIN as i64 {
                    Err(EvalError::ArithmeticError)
                } else {
                    Ok(Object::Integer { value: s64 as i32 })
                }
            },
            (InfixOperatorType::Asterisk, Object::Integer { value: a }, Object::Integer {
                value: b,
            }) => {
                proof {
                    let ai = *a as int;
                    let bi = *b as int;
                    assert(ai * bi <= 4611686018427387904int && ai * bi
                        >= -4611686018427387904int) by (nonlinear_arith)
                        requires
                            -2147483648 <= ai <= 2147483647,
                            -2147483648 <= bi <= 2147483647,
                    ;
                }
                let s64: i64 = (*a as i64) * (*b as i64);
                if s64 > i32::MAX as i64 || s64 < i32::MIN as i64 {
                    Err(EvalError::ArithmeticError)
                } else {
                    Ok(Object::Integer { value: s64 as i32 })
                }
            },
            (InfixOperatorType::Slash, Object::Integer { value: a }, Object::Integer {
                value: b,
            }) => {
                if *b == 0 {
                    Err(EvalError::ArithmeticError)
                } else if *a == i32::MIN && *b == -1 {
                    proof {
                        assert(abs_int(i32::MIN as int) / abs_int(-1int) == 2147483648int);
                    }
                    Err(EvalError::ArithmeticError)
                } else {
                    Ok(Object::Integer { value: div_trunc_i32(*a, *b) })
                }
            },
            (InfixOperatorType::Lt, Object::Integer { value: a }, Object::Integer {
                value: b,
            }) => Ok(Object::Boolean { value: *a < *b }),
            (InfixOperatorType::Gt, Object::Integer { value: a }, Object::Integer {
                value: b,
            }) => Ok(Object::Boolean { value: *a > *b }),
            (InfixOperatorType::Eq, Object::Integer { value: a }, Object::Integer {
                value: b,
            }) => Ok(Object::Boolean { value: *a == *b }),
            (InfixOperatorType::NotEq, Object::Integer { value: a }, Object::Integer {
                value: b,
            }) => Ok(Object::Boolean { value: *a != *b }),
            (InfixOperatorType::Eq, Object::Boolean { value: a }, Object::Boolean {
                value: b,
            }) => Ok(Object::Boolean { value: *a == *b }),
            (InfixOperatorType::NotEq, Object::Boolean { value: a }, Object::Boolean {
                value: b,
            }) => Ok(Object::Boolean { value: *a != *b }),
            (_, _, _) => Ok(Object::Null),
        }
    }

    /// An `if` expression: evaluate the condition; a truthy value selects
    /// the consequence, otherwise the alternative if present, otherwise
    /// the null value.
    pub fn eval_if_expression(
        &mut self,
        expression: &ExpressionNode,
        cur: usize,
        fuel: u64,
    ) -> (r: Result<Object, EvalError>)
        requires
            old(self).wf(),
            cur < old(self)@.len(),
            expression@ is If,
        ensures
            final(self).wf(),
            eval_matches(
                spec_eval_expr(fuel as nat, old(self)@, cur as nat, expression@),
                old(self)@,
                final(self)@,
                r,
            ),
        decreases fuel, expression, 2int,
    {
        match expression {
            ExpressionNode::IfExpression { condition, consequence, alternative } => {
                let co = self.eval_expression(condition, cur, fuel);
                match co {
                    Ok(cobj) => {
                        if self.is_truthy(&cobj) {
                            self.eval_statement(consequence, cur, fuel)
                        } else {
                            match alternative {
                                Some(a) => self.eval_statement(a, cur, fuel),
                                None => Ok(Object::Null),
                            }
                        }
                    },
                    Err(e) => Err(e),
                }
            },
            _ => {
                proof {
                    assert(false);
                }
                Err(EvalError::StructuralError)
            },
        }
    }

    /// A function literal: extract the parameter names and capture the
    /// current frame by index.
    fn eval_function_literal(&self, expression: &ExpressionNode, cur: usize) -> (r: Result<
        Object,
        EvalError,
    >)
        requires
            self.wf(),
            cur < self@.len(),
            expression@ is Func,
        ensures
            ({
                let out = spec_eval_expr(0, self@, cur as nat, expression@);
                match (r, out.res) {
                    (Ok(o), Ok(ov)) => o@ == ov && obj_wf(ov, self@.len()),
                    (Err(e), Err(ev)) => e@ == ev,
                    _ => false,
                }
            }),
    {
        match expression {
            ExpressionNode::FunctionLiteral { parameters, body } => {
                let n = parameters.len();
                let mut names: Vec<Vec<char>> = Vec::new();
                let mut i: usize = 0;
                proof {
                    lemma_exprs_view_len(parameters@);
                    assert(exprs_view(parameters@).subrange(0, 0) =~= Seq::<ExprV>::empty());
                    assert(names_view(names@) =~= Seq::<Seq<char>>::empty());
                }
                while i < n
                    invariant
                        expression@ == (ExprV::Func {
                            parameters: exprs_view(parameters@),
                            body: Box::new(stmt_view(**body)),
                        }),
                        n == parameters.len(),
                        exprs_view(parameters@).len() == n,
                        i <= n,
                        names@.len() == i,
                        spec_param_names(exprs_view(parameters@).subrange(0, i as int)) == Some(
                            names_view(names@),
                        ),
                    decreases n - i,
                {
                    proof {
                        lemma_exprs_view_index(parameters@, i as int);
                    }
                    match &*parameters[i] {
                        ExpressionNode::Identifier { literal } => {
                            let ghost names_pre = names@;
                            names.push(clone_chars(literal));
                            proof {
                                let whole = exprs_view(parameters@);
                                let p1 = whole.subrange(0, i + 1int);
                                assert(p1.drop_last() =~= whole.subrange(0, i as int));
                                assert(p1.last() == expr_view(*parameters@[i as int]));
                                assert(names_view(names@) =~= names_view(names_pre).push(
                                    literal@,
                                ));
                            }
                        },
                        _ => {
                            proof {
                                lemma_exprs_view_index(parameters@, i as int);
                                lemma_param_names_none(exprs_view(parameters@), i as int);
                            }
                            return Err(EvalError::StructuralError);
                        },
                    }
                    i += 1;
                }
                proof {
                    assert(exprs_view(parameters@).subrange(0, n as int) =~= exprs_view(
                        parameters@,
                    ));
                }
                Ok(
                    Object::FunctionObject {
                        parameters: names,
                        body: Box::new(clone_statement(body)),
                        env: cur,
                    },
                )
            },
            _ => {
                proof {
                    assert(false);
                }
                Err(EvalError::StructuralError)
            },
        }
    }

    /// A call: evaluate the callee, then the arguments left to right in
    /// the caller's frame, then apply.
    fn eval_call_expression(
        &mut self,
        expression: &ExpressionNode,
        cur: usize,
        fuel: u64,
    ) -> (r: Result<Object, EvalError>)
        requires
            old(self).wf(),
            cur < old(self)@.len(),
            expression@ is Call,
        ensures
            final(self).wf(),
            eval_matches(
                spec_eval_expr(fuel as nat, old(self)@, cur as nat, expression@),
                old(self)@,
                final(self)@,
                r,
            ),
        decreases fuel, expression, 2int,
    {
        match expression {
            ExpressionNode::CallExpression { function, arguments } => {
                let fo = self.eval_expression(function, cur, fuel);
                match fo {
                    Ok(fv) => {
                        match fv {
                            Object::FunctionObject { parameters, body, env } => {
                                let ghost len1 = self@.len();
                                let ao = self.eval_expressions(arguments, cur, fuel);
                                match ao {
                                    Ok(args) => {
                                        if fuel == 0 {
                                            Err(EvalError::DepthExceeded)
                                        } else {
                                            proof {
                                                lemma_obj_wf_mono(
                                                    ObjV::Func {
                                                        parameters: names_view(parameters@),
                                                        body: stmt_view(*body),
                                                        env: env as nat,
                                                    },
                                                    len1,
                                                    self@.len(),
                                                );
                                            }
                                            self.apply_function(
                                                parameters,
                                                body,
                                                env,
                                                args,
                                                fuel - 1,
                                            )
                                        }
                                    },
                                    Err(e) => Err(e),
                                }
                            },
                            _ => Err(EvalError::TypeError),
                        }
                    },
                    Err(e) => Err(e),
                }
            },
            _ => {
                proof {
                    assert(false);
                }
                Err(EvalError::StructuralError)
            },
        }
    }

    /// Evaluates an argument list left to right in the caller's frame.
    fn eval_expressions(
        &mut self,
        arguments: &Vec<Box<ExpressionNode>>,
        cur: usize,
        fuel: u64,
    ) -> (r: Result<Vec<Object>, EvalError>)
        requires
            old(self).wf(),
            cur < old(self)@.len(),
        ensures
            final(self).wf(),
            old(self)@.len() <= final(self)@.len(),
            ({
                let out = spec_eval_exprs(
                    fuel as nat,
                    old(self)@,
                    cur as nat,
                    exprs_view(arguments@),
                );
                &&& final(self)@ == out.envs
                &&& match (r, out.res) {
                    (Ok(vs), Ok(vvs)) => objs_view(vs@) == vvs && (forall|j: int|
                        0 <= j < vs@.len() ==> obj_wf(
                            #[trigger] vs@[j]@,
                            final(self)@.len(),
                        )),
                    (Err(e), Err(ev)) => e@ == ev,
                    _ => false,
                }
            }),
        decreases fuel, arguments, 1int,
    {
        let ghost es_v = exprs_view(arguments@);
        let ghost e0 = self@;
        let ghost fnat = fuel as nat;
        let ghost curn = cur as nat;
        let n = arguments.len();
        let mut results: Vec<Object> = Vec::new();
        let mut i: usize = 0;
        proof {
            lemma_exprs_view_len(arguments@);
            assert(es_v.skip(0) =~= es_v);
            assert(objs_view(results@) =~= Seq::<ObjV>::empty());
            assert(compose_args(objs_view(results@), spec_eval_exprs(fnat, self@, curn, es_v))
                == spec_eval_exprs(fnat, e0, curn, es_v)) by {
                let w = spec_eval_exprs(fnat, e0, curn, es_v);
                match w.res {
                    Ok(vs) => {
                        assert(Seq::<ObjV>::empty() + vs =~= vs);
                    },
                    Err(_) => {},
                }
            }
        }
        while i < n
            invariant
                self.wf(),
                cur < self@.len(),
                curn == cur as nat,
                fnat == fuel as nat,
                e0 == old(self)@,
                e0.len() <= self@.len(),
                n == arguments.len(),
                i <= n,
                es_v == exprs_view(arguments@),
                es_v.len() == n,
                results@.len() == i,
                forall|j: int|
                    0 <= j < i ==> obj_wf(#[trigger] results@[j]@, self@.len()),
                compose_args(
                    objs_view(results@),
                    spec_eval_exprs(fnat, self@, curn, es_v.skip(i as int)),
                ) == spec_eval_exprs(fnat, e0, curn, es_v),
            decreases n - i,
        {
            proof {
                assert(decreases_to!(*arguments => arguments@));
                assert(decreases_to!(arguments@ => arguments@[i as int]));
                lemma_exprs_view_index(arguments@, i as int);
                assert(es_v.skip(i as int)[0] == expr_view(*arguments@[i as int]));
            }
            let ghost pre = self@;
            let ghost p_prefix = objs_view(results@);
            let ro = self.eval_expression(&arguments[i], cur, fuel);
            match ro {
                Ok(v) => {
                    proof {
                        let so = spec_eval_expr(fnat, pre, curn, es_v.skip(i as int)[0]);
                        assert(so.envs == self@);
                        assert(es_v.skip(i as int).drop_first() =~= es_v.skip(i + 1int));
                        let rest = spec_eval_exprs(fnat, self@, curn, es_v.skip(i + 1int));
                        assert(spec_eval_exprs(fnat, pre, curn, es_v.skip(i as int))
                            == match rest.res {
                            Ok(vs) => EvalArgsOut { envs: rest.envs, res: Ok(seq![v@] + vs) },
                            Err(_) => rest,
                        });
                        match rest.res {
                            Ok(vs) => {
                                assert(p_prefix + (seq![v@] + vs) =~= p_prefix.push(v@) + vs);
                            },
                            Err(_) => {},
                        }
                    }
                    let ghost old_results = results@;
                    results.push(v);
                    proof {
                        assert(objs_view(results@) =~= objs_view(old_results).push(v@));
                        assert forall|j: int| 0 <= j < results@.len() implies obj_wf(
                            #[trigger] results@[j]@,
                            self@.len(),
                        ) by {
                            if j < old_results.len() {
                                assert(results@[j] == old_results[j]);
                                lemma_obj_wf_mono(old_results[j]@, pre.len(), self@.len());
                            }
                        }
                        let rest = spec_eval_exprs(fnat, self@, curn, es_v.skip(i + 1int));
                        assert(compose_args(
                            objs_view(results@),
                            spec_eval_exprs(fnat, self@, curn, es_v.skip(i + 1int)),
                        ) == compose_args(
                            p_prefix,
                            spec_eval_exprs(fnat, pre, curn, es_v.skip(i as int)),
                        )) by {
                            match rest.res {
                                Ok(vs) => {
                                    assert(p_prefix + (seq![v@] + vs) =~= p_prefix.push(v@)
                                        + vs);
                                },
                                Err(_) => {},
                            }
                        }
                        assert(compose_args(
                            objs_view(results@),
                            spec_eval_exprs(fnat, self@, curn, es_v.skip(i + 1int)),
                        ) == spec_eval_exprs(fnat, e0, curn, es_v));
                    }
                },
                Err(e) => {
                    proof {
                        let so = spec_eval_expr(fnat, pre, curn, es_v.skip(i as int)[0]);
                        assert(spec_eval_exprs(fnat, pre, curn, es_v.skip(i as int))
                            == (EvalArgsOut { envs: so.envs, res: Err(e@) }));
                    }
                    return Err(e);
                },
            }
            i += 1;
        }
        proof {
            assert(es_v.skip(n as int) =~= Seq::<ExprV>::empty());
            let fin = spec_eval_exprs(fnat, self@, curn, es_v.skip(n as int));
            assert(fin == (EvalArgsOut { envs: self@, res: Ok(Seq::<ObjV>::empty()) }));
            assert(objs_view(results@) + Seq::<ObjV>::empty() =~= objs_view(results@));
        }
        Ok(results)
    }

    /// Applies a function value: a fresh frame linked to the captured
    /// frame, parameters bound positionally to arguments (surplus on
    /// either side ignored), the body evaluated there, and a return
    /// marker unwrapped.
    fn apply_function(
        &mut self,
        parameters: Vec<Vec<char>>,
        body: Box<StatementNode>,
        fenv: usize,
        args: Vec<Object>,
        fuel: u64,
    ) -> (r: Result<Object, EvalError>)
        requires
            old(self).wf(),
            fenv < old(self)@.len(),
            forall|j: int| 0 <= j < args@.len() ==> obj_wf(#[trigger] args@[j]@, old(self)@.len()),
        ensures
            final(self).wf(),
            eval_matches(
                spec_apply(
                    fuel as nat,
                    old(self)@,
                    names_view(parameters@),
                    stmt_view(*body),
                    fenv as nat,
                    objs_view(args@),
                ),
                old(self)@,
                final(self)@,
                r,
            ),
        decreases fuel, body, 5int,
    {
        let ghost e0 = self@;
        let ghost ps_v = names_view(parameters@);
        let ghost as_v = objs_view(args@);
        let mut frame = Enviroment::new();
        frame.add_outer(fenv);
        let n = if parameters.len() <= args.len() {
            parameters.len()
        } else {
            args.len()
        };
        proof {
            assert(n as nat == spec_bind_count(ps_v, as_v));
            assert(frame@.store =~= spec_bind(ps_v, as_v, 0));
        }
        let mut i: usize = 0;
        while i < n
            invariant
                frame.inv(),
                n <= parameters.len(),
                n <= args.len(),
                i <= n,
                ps_v == names_view(parameters@),
                as_v == objs_view(args@),
                frame@.store == spec_bind(ps_v, as_v, i as nat),
                frame@.outer == Some(fenv as nat),
            decreases n - i,
        {
            let v = clone_object(&args[i]);
            frame.set(&parameters[i], v);
            i += 1;
        }
        let idx = self.envs.len();
        proof {
            assert(idx == self@.len());
        }
        let ghost frame_v = frame@;
        self.envs.push(frame);
        proof {
            assert(self@ =~= e0.push(frame_v));
            assert(arena_inv(self.envs@));
            assert forall|j: int| 0 <= j < as_v.len() implies obj_wf(
                #[trigger] as_v[j],
                e0.len() + 1,
            ) by {
                lemma_obj_wf_mono(as_v[j], e0.len(), e0.len() + 1);
            }
            lemma_bind_wf(ps_v, as_v, n as nat, e0.len() + 1);
            assert(frame_objs_wf(frame_v, e0.len() + 1));
            lemma_envs_wf_push(e0, frame_v);
        }
        let ro = self.eval_statement(&body, idx, fuel);
        match ro {
            Ok(o) => {
                match o {
                    Object::ReturnValue { value } => Ok(*value),
                    other => Ok(other),
                }
            },
            Err(e) => Err(e),
        }
    }

    /// Evaluates one expression in the frame at index `cur`.
    pub fn eval_expression(
        &mut self,
        expression: &ExpressionNode,
        cur: usize,
        fuel: u64,
    ) -> (r: Result<Object, EvalError>)
        requires
            old(self).wf(),
            cur < old(self)@.len(),
        ensures
            final(self).wf(),
            eval_matches(
                spec_eval_expr(fuel as nat, old(self)@, cur as nat, expression@),
                old(self)@,
                final(self)@,
                r,
            ),
        decreases fuel, expression, 3int,
    {
        match expression {
            ExpressionNode::Identifier { .. } => self.eval_identifier(expression, cur),
            ExpressionNode::Integer { .. } => self.eval_integer(expression),
            ExpressionNode::Boolean { .. } => self.eval_boolean(expression),
            ExpressionNode::PrefixOperator { .. } => self.eval_prefix_operator(
                expression,
                cur,
                fuel,
            ),
            ExpressionNode::InfixOperator { .. } => self.eval_infix_operator(
                expression,
                cur,
                fuel,
            ),
            ExpressionNode::IfExpression { .. } => self.eval_if_expression(expression, cur, fuel),
            ExpressionNode::FunctionLiteral { .. } => self.eval_function_literal(expression, cur),
            ExpressionNode::CallExpression { .. } => self.eval_call_expression(
                expression,
                cur,
                fuel,
            ),
        }
    }

    /// Evaluates one statement in the frame at index `cur`.
    pub fn eval_statement(
        &mut self,
        statement: &StatementNode,
        cur: usize,
        fuel: u64,
    ) -> (r: Result<Object, EvalError>)
        requires
            old(self).wf(),
            cur < old(self)@.len(),
        ensures
            final(self).wf(),
            eval_matches(
                spec_eval_stmt(fuel as nat, old(self)@, cur as nat, statement@),
                old(self)@,
                final(self)@,
                r,
            ),
        decreases fuel, statement, 4int,
    {
        match statement {
            StatementNode::ReturnStatement { .. } => self.eval_return_statement(
                statement,
                cur,
                fuel,
            ),
            StatementNode::LetStatement { .. } => self.eval_let_statement(statement, cur, fuel),
            StatementNode::ExpressionStatement { .. } => self.eval_expression_statement(
                statement,
                cur,
                fuel,
            ),
            StatementNode::BlockStatement { .. } => self.eval_block_statement(
                statement,
                cur,
                fuel,
            ),
        }
    }

    /// A `let` statement: evaluate the value, bind the name in the
    /// current frame, yield the null value.
    pub fn eval_let_statement(
        &mut self,
        statement: &StatementNode,
        cur: usize,
        fuel: u64,
    ) -> (r: Result<Object, EvalError>)
        requires
            old(self).wf(),
            cur < old(self)@.len(),
            statement@ is Let,
        ensures
            final(self).wf(),
            eval_matches(
                spec_eval_stmt(fuel as nat, old(self)@, cur as nat, statement@),
                old(self)@,
                final(self)@,
                r,
            ),
        decreases fuel, statement, 3int,
    {
        match statement {
            StatementNode::LetStatement { identifier, value } => {
                match &**identifier {
                    ExpressionNode::Identifier { literal } => {
                        let vo = self.eval_expression(value, cur, fuel);
                        match vo {
                            Ok(v) => {
                                let ghost mid = self@;
                                let ghost v_w = v@;
                                proof {
                                    assert(self@[cur as int] == self.envs@[cur as int]@);
                                    assert(self.envs@[cur as int].inv());
                                }
                                self.envs[cur].set(literal, v);
                                proof {
                                    assert(self@ =~= mid.update(
                                        cur as int,
                                        self.envs@[cur as int]@,
                                    ));
                                    let f = mid[cur as int];
                                    let f2 = EnvV {
                                        store: f.store.insert(literal@, v_w),
                                        outer: f.outer,
                                    };
                                    assert(self.envs@[cur as int]@ == f2);
                                    assert(arena_inv(self.envs@));
                                    assert(envs_wf(self@)) by {
                                        assert forall|k: int| 0 <= k < self@.len() implies {
                                            &&& match (#[trigger] self@[k]).outer {
                                                Some(o) => o < k,
                                                None => true,
                                            }
                                            &&& frame_objs_wf(self@[k], self@.len())
                                        } by {
                                            if k == cur as int {
                                                assert(frame_objs_wf(f2, self@.len()))
                                                    by {
                                                    assert forall|key: Seq<char>|
                                                        #[trigger] f2.store.contains_key(key)
                                                        implies obj_wf(
                                                        f2.store[key],
                                                        self@.len(),
                                                    ) by {
                                                        if key != literal@ {
                                                            assert(f.store.contains_key(key));
                                                        }
                                                    }
                                                }
                                            } else {
                                                assert(self@[k] == mid[k]);
                                            }
                                        }
                                    }
                                }
                                Ok(Object::Null)
                            },
                            Err(e) => Err(e),
                        }
                    },
                    _ => Err(EvalError::StructuralError),
                }
            },
            _ => {
                proof {
                    assert(false);
                }
                Err(EvalError::StructuralError)
            },
        }
    }

    /// A `return` statement: evaluate the value and wrap it in the return
    /// marker.
    pub fn eval_return_statement(
        &mut self,
        statement: &StatementNode,
        cur: usize,
        fuel: u64,
    ) -> (r: Result<Object, EvalError>)
        requires
            old(self).wf(),
            cur < old(self)@.len(),
            statement@ is Return,
        ensures
            final(self).wf(),
            eval_matches(
                spec_eval_stmt(fuel as nat, old(self)@, cur as nat, statement@),
                old(self)@,
                final(self)@,
                r,
            ),
        decreases fuel, statement, 3int,
    {
        match statement {
            StatementNode::ReturnStatement { return_value } => {
                let vo = self.eval_expression(return_value, cur, fuel);
                match vo {
                    Ok(v) => Ok(Object::ReturnValue { value: Box::new(v) }),
                    Err(e) => Err(e),
                }
            },
            _ => {
                proof {
                    assert(false);
                }
                Err(EvalError::StructuralError)
            },
        }
    }

    /// An expression statement: the expression's value.
    pub fn eval_expression_statement(
        &mut self,
        statement: &StatementNode,
        cur: usize,
        fuel: u64,
    ) -> (r: Result<Object, EvalError>)
        requires
            old(self).wf(),
            cur < old(self)@.len(),
            statement@ is Expr,
        ensures
            final(self).wf(),
            eval_matches(
                spec_eval_stmt(fuel as nat, old(self)@, cur as nat, statement@),
                old(self)@,
                final(self)@,
                r,
            ),
        decreases fuel, statement, 3int,
    {
        match statement {
            StatementNode::ExpressionStatement { expression } => self.eval_expression(
                expression,
                cur,
                fuel,
            ),
            _ => {
                proof {
                    assert(false);
                }
                Err(EvalError::StructuralError)
            },
        }
    }

    /// A block: its statements in order, in the same frame; a return
    /// marker stops the block and propagates intact.
    pub fn eval_block_statement(
        &mut self,
        statement: &StatementNode,
        cur: usize,
        fuel: u64,
    ) -> (r: Result<Object, EvalError>)
        requires
            old(self).wf(),
            cur < old(self)@.len(),
            statement@ is Block,
        ensures
            final(self).wf(),
            eval_matches(
                spec_eval_stmt(fuel as nat, old(self)@, cur as nat, statement@),
                old(self)@,
                final(self)@,
                r,
            ),
        decreases fuel, statement, 3int,
    {
        match statement {
            StatementNode::BlockStatement { statements } => self.eval_statement_sequence(
                statements,
                cur,
                fuel,
            ),
            _ => {
                proof {
                    assert(false);
                }
                Err(EvalError::StructuralError)
            },
        }
    }

    /// The statements of a block, in order, in the same frame.
    fn eval_statement_sequence(
        &mut self,
        statements: &Vec<StatementNode>,
        cur: usize,
        fuel: u64,
    ) -> (r: Result<Object, EvalError>)
        requires
            old(self).wf(),
            cur < old(self)@.len(),
        ensures
            final(self).wf(),
            eval_matches(
                spec_eval_block(
                    fuel as nat,
                    old(self)@,
                    cur as nat,
                    stmts_view(statements@),
                    ObjV::Null,
                ),
                old(self)@,
                final(self)@,
                r,
            ),
        decreases fuel, statements, 2int,
    {
        let ghost e0 = self@;
        let ghost ss_v = stmts_view(statements@);
        let ghost fnat = fuel as nat;
        let ghost curn = cur as nat;
        let n = statements.len();
        let mut result = Object::Null;
        let mut i: usize = 0;
        proof {
            lemma_stmts_view_len(statements@);
            assert(ss_v.skip(0) =~= ss_v);
        }
        while i < n
            invariant
                self.wf(),
                cur < self@.len(),
                curn == cur as nat,
                fnat == fuel as nat,
                e0 == old(self)@,
                e0.len() <= self@.len(),
                n == statements.len(),
                i <= n,
                ss_v == stmts_view(statements@),
                ss_v.len() == n,
                !(result@ is Ret),
                obj_wf(result@, self@.len()),
                spec_eval_block(fnat, self@, curn, ss_v.skip(i as int), result@)
                    == spec_eval_block(fnat, e0, curn, ss_v, ObjV::Null),
            decreases n - i,
        {
            proof {
                assert(decreases_to!(*statements => statements@));
                assert(decreases_to!(statements@ => statements@[i as int]));
                lemma_stmts_view_index(statements@, i as int);
                assert(ss_v.skip(i as int)[0] == stmt_view(statements@[i as int]));
            }
            let ghost pre = self@;
            let ghost prev_result = result@;
            let so = self.eval_statement(&statements[i], cur, fuel);
            match so {
                Ok(o) => {
                    if matches!(o, Object::ReturnValue { .. }) {
                        proof {
                            assert(spec_eval_block(fnat, pre, curn, ss_v.skip(i as int),
                                prev_result) == spec_eval_stmt(fnat, pre, curn,
                                ss_v.skip(i as int)[0]));
                        }
                        return Ok(o);
                    }
                    proof {
                        assert(ss_v.skip(i as int).drop_first() =~= ss_v.skip(i + 1int));
                        assert(spec_eval_block(fnat, pre, curn, ss_v.skip(i as int),
                            prev_result) == spec_eval_block(fnat, self@, curn,
                            ss_v.skip(i + 1int), o@));
                        lemma_obj_wf_mono(o@, self@.len(), self@.len());
                    }
                    result = o;
                },
                Err(e) => {
                    return Err(e);
                },
            }
            i += 1;
        }
        proof {
            assert(ss_v.skip(n as int) =~= Seq::<StmtV>::empty());
        }
        Ok(result)
    }

    /// Evaluates a whole program in the root frame    /// Evaluates a whole program in the root frame: statements in order,
    /// the last statement's value as the result, a return marker stopping
    /// the program and unwrapping to its inner value.  The call-depth
    /// budget is [`EVAL_DEPTH`].
    pub fn eavl_program(&mut self, program: &Program) -> (r: Result<Object, EvalError>)
        requires
            old(self).wf(),
        ensures
            final(self).wf(),
            eval_matches(
                spec_eval(EVAL_DEPTH as nat, old(self)@, program@),
                old(self)@,
                final(self)@,
                r,
            ),
    {
        let ghost e0 = self@;
        let ghost prog_v = program@;
        let ghost fnat = EVAL_DEPTH as nat;
        let statements = program.statement_iter();
        let n = statements.len();
        let mut result = Object::Null;
        let mut i: usize = 0;
        proof {
            lemma_stmts_view_len(statements@);
            assert(prog_v.skip(0) =~= prog_v);
        }
        while i < n
            invariant
                self.wf(),
                fnat == EVAL_DEPTH as nat,
                e0 == old(self)@,
                e0.len() <= self@.len(),
                n == statements.len(),
                i <= n,
                prog_v == program@,
                prog_v == stmts_view(statements@),
                prog_v.len() == n,
                !(result@ is Ret),
                obj_wf(result@, self@.len()),
                spec_eval_program(fnat, self@, 0, prog_v.skip(i as int), result@)
                    == spec_eval_program(fnat, e0, 0, prog_v, ObjV::Null),
            decreases n - i,
        {
            proof {
                lemma_stmts_view_index(statements@, i as int);
                assert(prog_v.skip(i as int)[0] == stmt_view(statements@[i as int]));
            }
            let ghost pre = self@;
            let ghost prev_result = result@;
            let so = self.eval_statement(&statements[i], 0, EVAL_DEPTH);
            match so {
                Ok(o) => {
                    match o {
                        Object::ReturnValue { value } => {
                            proof {
                                assert(spec_eval_program(fnat, pre, 0, prog_v.skip(i as int),
                                    prev_result) == (EvalOut {
                                    envs: self@,
                                    res: Ok(*o@->Ret_value),
                                }));
                            }
                            return Ok(*value);
                        },
                        other => {
                            proof {
                                assert(prog_v.skip(i as int).drop_first() =~= prog_v.skip(
                                    i + 1int,
                                ));
                                assert(spec_eval_program(fnat, pre, 0, prog_v.skip(i as int),
                                    prev_result) == spec_eval_program(fnat, self@, 0,
                                    prog_v.skip(i + 1int), other@));
                            }
                            result = other;
                        },
                    }
                },
                Err(e) => {
                    return Err(e);
                },
            }
            i += 1;
        }
        proof {
            assert(prog_v.skip(n as int) =~= Seq::<StmtV>::empty());
        }
        Ok(result)
    }
}

} // verus!
