//! Runtime values produced by the evaluator.
//!
//! A function value holds the index of the environment frame it captured
//! (see the `env` module); the specification-level mirror [`ObjV`] models
//! parameter names as `Seq<char>` and the body as a `StmtV`.

use vstd::prelude::*;
use crate::ast::{StatementNode, StmtV, stmt_view, render_stmt, clone_statement, chars_to_string};
use crate::token::clone_chars;

verus! {

/// Specification-level mirror of [`Object`].
pub enum ObjV {
    Int { value: i32 },
    Bool { value: bool },
    Ret { value: Box<ObjV> },
    Func { parameters: Seq<Seq<char>>, body: StmtV, env: nat },
    Null,
}

/// One runtime value.  `ReturnValue` is a control-flow marker wrapping the
/// value of a `return` statement; `FunctionObject` is a closure: parameter
/// names, body, and the index of the captured environment frame.
#[derive(Debug)]
pub enum Object {
    Integer { value: i32 },
    Boolean { value: bool },
    ReturnValue { value: Box<Object> },
    FunctionObject { parameters: Vec<Vec<char>>, body: Box<StatementNode>, env: usize },
    Null,
}

/// The value views of an object sequence, element by element.
pub open spec fn objs_view(os: Seq<Object>) -> Seq<ObjV> {
    Seq::new(os.len(), |i: int| os[i]@)
}

/// The name views of a parameter list, element by element.
pub open spec fn names_view(ps: Seq<Vec<char>>) -> Seq<Seq<char>> {
    Seq::new(ps.len(), |i: int| ps[i]@)
}

pub open spec fn obj_view(o: Object) -> ObjV
    decreases o,
{
    match o {
        Object::Integer { value } => ObjV::Int { value },
        Object::Boolean { value } => ObjV::Bool { value },
        Object::ReturnValue { value } => ObjV::Ret { value: Box::new(obj_view(*value)) },
        Object::FunctionObject { parameters, body, env } => ObjV::Func {
            parameters: names_view(parameters@),
            body: stmt_view(*body),
            env: env as nat,
        },
        Object::Null => ObjV::Null,
    }
}

impl View for Object {
    type V = ObjV;

    open spec fn view(&self) -> ObjV {
        obj_view(*self)
    }
}

/// Every environment index held by the value points into an arena of `n`
/// frames.
pub open spec fn obj_wf(o: ObjV, n: nat) -> bool
    decreases o,
{
    match o {
        ObjV::Ret { value } => obj_wf(*value, n),
        ObjV::Func { parameters, body, env } => env < n,
        _ => true,
    }
}

/// Well-formedness is preserved when the arena grows.
pub proof fn lemma_obj_wf_mono(o: ObjV, n: nat, m: nat)
    requires
        obj_wf(o, n),
        n <= m,
    ensures
        obj_wf(o, m),
    decreases o,
{
    match o {
        ObjV::Ret { value } => lemma_obj_wf_mono(*value, n, m),
        _ => {},
    }
}

/// The decimal digit character for `d`.
pub open spec fn digit_char(d: int) -> char {
    if d == 0 {
        '0'
    } else if d == 1 {
        '1'
    } else if d == 2 {
        '2'
    } else if d == 3 {
        '3'
    } else if d == 4 {
        '4'
    } else if d == 5 {
        '5'
    } else if d == 6 {
        '6'
    } else if d == 7 {
        '7'
    } else if d == 8 {
        '8'
    } else {
        '9'
    }
}

/// The decimal digits of a non-negative number, most significant first.
pub open spec fn nat_to_chars(n: int) -> Seq<char>
    decreases n,
{
    if n < 10 {
        seq![digit_char(n)]
    } else {
        nat_to_chars(n / 10) + seq![digit_char(n % 10)]
    }
}

/// The decimal rendering of an integer, with a leading minus sign when
/// negative.
pub open spec fn int_to_chars(v: int) -> Seq<char> {
    if v < 0 {
        seq!['-'] + nat_to_chars(-v)
    } else {
        nat_to_chars(v)
    }
}

/// A comma-separated name list.
pub open spec fn render_name_list(ns: Seq<Seq<char>>) -> Seq<char>
    decreases ns,
{
    if ns.len() == 0 {
        Seq::empty()
    } else if ns.len() == 1 {
        ns[0]
    } else {
        render_name_list(ns.drop_last()) + seq![',', ' '] + ns.last()
    }
}

/// Canonical display text of a runtime value: integers in decimal,
/// booleans as `true`/`false`, the null value as `null`, a return marker
/// as its wrapped value, and a function as `fn(<params>) <body>`.
pub open spec fn render_obj(o: ObjV) -> Seq<char>
    decreases o,
{
    match o {
        ObjV::Int { value } => int_to_chars(value as int),
        ObjV::Bool { value } => if value {
            crate::token::kw_true()
        } else {
            crate::token::kw_false()
        },
        ObjV::Ret { value } => render_obj(*value),
        ObjV::Func { parameters, body, env } => crate::token::kw_fn() + seq!['(']
            + render_name_list(parameters) + seq![')', ' '] + render_stmt(body),
        ObjV::Null => seq!['n', 'u', 'l', 'l'],
    }
}

/// The character for decimal digit `d`.
fn digit_to_char(d: u32) -> (r: char)
    requires
        d < 10,
    ensures
        r == digit_char(d as int),
{
    if d == 0 {
        '0'
    } else if d == 1 {
        '1'
    } else if d == 2 {
        '2'
    } else if d == 3 {
        '3'
    } else if d == 4 {
        '4'
    } else if d == 5 {
        '5'
    } else if d == 6 {
        '6'
    } else if d == 7 {
        '7'
    } else if d == 8 {
        '8'
    } else {
        '9'
    }
}

/// Appends the decimal digits of `n` to `out`.
fn push_u32_digits(out: &mut Vec<char>, n: u32)
    ensures
        final(out)@ == old(out)@ + nat_to_chars(n as int),
    decreases n,
{
    if n < 10 {
        out.push(digit_to_char(n));
        proof {
            assert(out@ =~= old(out)@ + nat_to_chars(n as int));
        }
    } else {
        push_u32_digits(out, n / 10);
        out.push(digit_to_char(n % 10));
        proof {
            assert(out@ =~= old(out)@ + nat_to_chars(n as int));
        }
    }
}

/// Appends the decimal rendering of `v` to `out`.
fn push_i32_chars(out: &mut Vec<char>, v: i32)
    ensures
        final(out)@ == old(out)@ + int_to_chars(v as int),
{
    if v < 0 {
        out.push('-');
        let magnitude: u32 = (-(v as i64)) as u32;
        push_u32_digits(out, magnitude);
        proof {
            assert(out@ =~= old(out)@ + int_to_chars(v as int));
        }
    } else {
        push_u32_digits(out, v as u32);
    }
}

/// Appends the comma-separated parameter names to `out`.
fn write_name_list(ps: &Vec<Vec<char>>, out: &mut Vec<char>)
    ensures
        final(out)@ == old(out)@ + render_name_list(names_view(ps@)),
{
    let n = ps.len();
    let mut i: usize = 0;
    while i < n
        invariant
            n == ps.len(),
            i <= n,
            out@ == old(out)@ + render_name_list(names_view(ps@).subrange(0, i as int)),
        decreases n - i,
    {
        if i > 0 {
            out.push(',');
            out.push(' ');
        }
        let name = &ps[i];
        let mut j: usize = 0;
        let m = name.len();
        while j < m
            invariant
                m == name.len(),
                j <= m,
                out@ == old(out)@ + render_name_list(names_view(ps@).subrange(0, i as int)) + (
                if i > 0 {
                    seq![',', ' ']
                } else {
                    Seq::<char>::empty()
                }) + name@.subrange(0, j as int),
            decreases m - j,
        {
            out.push(name[j]);
            proof {
                assert(out@ =~= old(out)@ + render_name_list(
                    names_view(ps@).subrange(0, i as int),
                ) + (if i > 0 {
                    seq![',', ' ']
                } else {
                    Seq::<char>::empty()
                }) + name@.subrange(0, j + 1int));
            }
            j += 1;
        }
        proof {
            let whole = names_view(ps@);
            let prefix = whole.subrange(0, i as int);
            let prefix1 = whole.subrange(0, i + 1int);
            assert(prefix1.drop_last() =~= prefix);
            assert(prefix1.last() == ps@[i as int]@);
            assert(name@.subrange(0, m as int) =~= name@);
            assert(out@ =~= old(out)@ + render_name_list(prefix1));
        }
        i += 1;
    }
    proof {
        assert(names_view(ps@).subrange(0, n as int) =~= names_view(ps@));
    }
}

/// Appends the canonical display text of `o` to `out`.
fn write_obj(o: &Object, out: &mut Vec<char>)
    ensures
        final(out)@ == old(out)@ + render_obj(o@),
    decreases o,
{
    match o {
        Object::Integer { value } => {
            push_i32_chars(out, *value);
        },
        Object::Boolean { value } => {
            if *value {
                out.push('t');
                out.push('r');
                out.push('u');
                out.push('e');
            } else {
                out.push('f');
                out.push('a');
                out.push('l');
                out.push('s');
                out.push('e');
            }
            proof {
                assert(out@ =~= old(out)@ + render_obj(o@));
            }
        },
        Object::ReturnValue { value } => {
            write_obj(value, out);
        },
        Object::FunctionObject { parameters, body, env } => {
            out.push('f');
            out.push('n');
            out.push('(');
            write_name_list(parameters, out);
            out.push(')');
            out.push(' ');
            body.write_literal(out);
            proof {
                assert(out@ =~= old(out)@ + render_obj(o@));
            }
        },
        Object::Null => {
            out.push('n');
            out.push('u');
            out.push('l');
            out.push('l');
            proof {
                assert(out@ =~= old(out)@ + render_obj(o@));
            }
        },
    }
}

impl Object {
    /// The canonical display text of this value.
    pub fn literal(&self) -> (r: String)
        ensures
            r@ == render_obj(self@),
    {
        let mut out: Vec<char> = Vec::new();
        write_obj(self, &mut out);
        chars_to_string(&out)
    }
}

/// Deep copy of a runtime value.
pub fn clone_object(o: &Object) -> (r: Object)
    ensures
        r@ == o@,
    decreases o,
{
    match o {
        Object::Integer { value } => Object::Integer { value: *value },
        Object::Boolean { value } => Object::Boolean { value: *value },
        Object::ReturnValue { value } => Object::ReturnValue {
            value: Box::new(clone_object(value)),
        },
        Object::FunctionObject { parameters, body, env } => {
            let n = parameters.len();
            let mut ps: Vec<Vec<char>> = Vec::new();
            let mut i: usize = 0;
            while i < n
                invariant
                    n == parameters.len(),
                    i <= n,
                    ps@.len() == i,
                    forall|j: int| 0 <= j < i ==> ps@[j]@ == parameters@[j]@,
                decreases n - i,
            {
                ps.push(clone_chars(&parameters[i]));
                i += 1;
            }
            let r = Object::FunctionObject {
                parameters: ps,
                body: Box::new(clone_statement(body)),
                env: *env,
            };
            proof {
                assert(names_view(ps@) =~= names_view(parameters@));
            }
            r
        },
        Object::Null => Object::Null,
    }
}

} // verus!
