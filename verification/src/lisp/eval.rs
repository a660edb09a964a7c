use vstd::prelude::*;
use crate::lisp::ast::{Expr, SExpr, exprs_view, lemma_exprs_view, lemma_exprs_view_take, copy_expr};
use crate::lisp::effect::{
    CapabilityId, Eff, Effect, SEffect, effect_view, effects_view, append_effects,
};
use crate::lisp::value::{
    Env, SEnv, SValue, Value, copy_env, copy_value, copy_values, env_get, env_insert,
    lemma_values_view, strings_view, value_text, values_view,
};
use crate::text::{is_word, push_all};

verus! {

broadcast use vstd::std_specs::vec::group_vec_axioms;

/// Why an expression has no value.
#[derive(Debug, PartialEq, Eq)]
pub enum EvalError {
    UnboundSymbol(String),
    NotAFunction(String),
    BadForm(String),
    ArityMismatch { expected: usize, got: usize },
    TypeError(String),
}

/// The model of an evaluation error.
pub enum SEvalError {
    UnboundSymbol(Seq<char>),
    NotAFunction(Seq<char>),
    BadForm(Seq<char>),
    ArityMismatch { expected: usize, got: usize },
    TypeError(Seq<char>),
}

pub open spec fn error_view(e: EvalError) -> SEvalError {
    match e {
        EvalError::UnboundSymbol(s) => SEvalError::UnboundSymbol(s@),
        EvalError::NotAFunction(s) => SEvalError::NotAFunction(s@),
        EvalError::BadForm(s) => SEvalError::BadForm(s@),
        EvalError::ArityMismatch { expected, got } => SEvalError::ArityMismatch { expected, got },
        EvalError::TypeError(s) => SEvalError::TypeError(s@),
    }
}

impl View for EvalError {
    type V = SEvalError;

    open spec fn view(&self) -> SEvalError {
        error_view(*self)
    }
}

/// The model of an evaluation result: a value and its ordered effect log.
pub struct SEff {
    pub value: SValue,
    pub effects: Seq<SEffect>,
}

pub open spec fn eff_view(r: Eff<Value>) -> SEff {
    SEff { value: r.value@, effects: effects_view(r.effects@) }
}

/// How evaluation stops short of a value: an evaluation error, or a point where
/// evaluation cannot go on (an `i64` overflow, or nesting deeper than the bound).
pub enum SHalt {
    Fail(SEvalError),
    Stuck,
}

enum Halt {
    Fail(EvalError),
    Stuck,
}

spec fn halt_view(h: Halt) -> SHalt {
    match h {
        Halt::Fail(e) => SHalt::Fail(e@),
        Halt::Stuck => SHalt::Stuck,
    }
}

spec fn run_view(r: Result<Eff<Value>, Halt>) -> Result<SEff, SHalt> {
    match r {
        Ok(x) => Ok(eff_view(x)),
        Err(h) => Err(halt_view(h)),
    }
}

pub open spec fn pure_s(v: SValue) -> SEff {
    SEff { value: v, effects: Seq::empty() }
}

pub open spec fn bad_form(msg: Seq<char>) -> Result<SEff, SHalt> {
    Err(SHalt::Fail(SEvalError::BadForm(msg)))
}

/// Whether the list's head is the symbol `w`.
pub open spec fn head_is(es: Seq<SExpr>, w: Seq<char>) -> bool {
    es.len() > 0 && (es[0] matches SExpr::Symbol(h) && h == w)
}

/// Quoted data as a value.
pub open spec fn quote_value(e: SExpr) -> SValue
    decreases e,
{
    match e {
        SExpr::Number(n) => SValue::Number(n),
        SExpr::Symbol(s) => SValue::Symbol(s),
        SExpr::List(es) => SValue::List(quote_values(es)),
    }
}

pub open spec fn quote_values(es: Seq<SExpr>) -> Seq<SValue>
    decreases es,
{
    if es.len() == 0 {
        Seq::empty()
    } else {
        quote_values(es.drop_last()).push(quote_value(es[es.len() - 1]))
    }
}

/// `nil`, `false` and zero are false; every other value is true.
pub open spec fn truthy(v: SValue) -> bool {
    match v {
        SValue::Nil => false,
        SValue::Bool(b) => b,
        SValue::Number(n) => n != 0,
        _ => true,
    }
}

/// The names of a parameter list, when every element is a symbol.
pub open spec fn param_names(ps: Seq<SExpr>) -> Option<Seq<Seq<char>>>
    decreases ps.len(),
{
    if ps.len() == 0 {
        Some(Seq::empty())
    } else {
        match param_names(ps.drop_last()) {
            None => None,
            Some(ns) => match ps[ps.len() - 1] {
                SExpr::Symbol(s) => Some(ns.push(s)),
                _ => None,
            },
        }
    }
}

/// The environment `env` with each parameter bound to its argument, in order.
pub open spec fn bind_params(env: SEnv, ps: Seq<Seq<char>>, vs: Seq<SValue>) -> SEnv
    decreases ps.len(),
{
    if ps.len() == 0 || vs.len() == 0 {
        env
    } else {
        env_insert(
            bind_params(env, ps.drop_last(), vs.drop_last()),
            ps[ps.len() - 1],
            vs[vs.len() - 1],
        )
    }
}

pub open spec fn is_builtin_name(name: Seq<char>) -> bool {
    ||| name == "+"@
    ||| name == "-"@
    ||| name == "*"@
    ||| name == "="@
    ||| name == "<"@
    ||| name == "list"@
    ||| name == "car"@
    ||| name == "cdr"@
    ||| name == "cons"@
    ||| name == "null?"@
    ||| name == "not"@
}

pub open spec fn check_arity_s(expected: usize, args: Seq<SValue>) -> bool {
    args.len() == expected
}

pub open spec fn arity_error(expected: usize, args: Seq<SValue>) -> Result<SValue, SHalt> {
    Err(SHalt::Fail(SEvalError::ArityMismatch { expected, got: args.len() as usize }))
}

pub open spec fn type_error(msg: Seq<char>) -> Result<SValue, SHalt> {
    Err(SHalt::Fail(SEvalError::TypeError(msg)))
}

pub open spec fn as_number_s(v: SValue) -> Result<i64, SHalt> {
    match v {
        SValue::Number(n) => Ok(n),
        _ => Err(SHalt::Fail(SEvalError::TypeError("expected number, got "@ + value_text(v)))),
    }
}

/// An `i64` result of integer arithmetic; outside the range of `i64` evaluation is stuck.
pub open spec fn checked(r: int) -> Result<SValue, SHalt> {
    if i64::MIN <= r <= i64::MAX {
        Ok(SValue::Number(r as i64))
    } else {
        Err(SHalt::Stuck)
    }
}

/// Applies a numeric builtin to two arguments.
pub open spec fn numeric_s(name: Seq<char>, args: Seq<SValue>) -> Result<SValue, SHalt> {
    if !check_arity_s(2, args) {
        arity_error(2, args)
    } else {
        match as_number_s(args[0]) {
            Err(h) => Err(h),
            Ok(a) => match as_number_s(args[1]) {
                Err(h) => Err(h),
                Ok(b) => if name == "+"@ {
                    checked(a + b)
                } else if name == "-"@ {
                    checked(a - b)
                } else if name == "*"@ {
                    checked(a * b)
                } else if name == "="@ {
                    Ok(SValue::Bool(a == b))
                } else {
                    Ok(SValue::Bool(a < b))
                },
            },
        }
    }
}

/// The value of a builtin function applied to argument values.
pub open spec fn builtin_s(name: Seq<char>, args: Seq<SValue>) -> Result<SValue, SHalt> {
    if name == "+"@ || name == "-"@ || name == "*"@ || name == "="@ || name == "<"@ {
        numeric_s(name, args)
    } else if name == "list"@ {
        Ok(SValue::List(args))
    } else if name == "car"@ {
        if !check_arity_s(1, args) {
            arity_error(1, args)
        } else {
            match args[0] {
                SValue::List(vs) => if vs.len() > 0 {
                    Ok(vs[0])
                } else {
                    type_error("car requires a non-empty list"@)
                },
                _ => type_error("car requires a non-empty list"@),
            }
        }
    } else if name == "cdr"@ {
        if !check_arity_s(1, args) {
            arity_error(1, args)
        } else {
            match args[0] {
                SValue::List(vs) => if vs.len() > 0 {
                    Ok(SValue::List(vs.subrange(1, vs.len() as int)))
                } else {
                    type_error("cdr requires a non-empty list"@)
                },
                _ => type_error("cdr requires a non-empty list"@),
            }
        }
    } else if name == "cons"@ {
        if !check_arity_s(2, args) {
            arity_error(2, args)
        } else {
            match args[1] {
                SValue::List(vs) => Ok(SValue::List(seq![args[0]] + vs)),
                SValue::Nil => Ok(SValue::List(seq![args[0]])),
                _ => Ok(SValue::List(seq![args[0], args[1]])),
            }
        }
    } else if name == "null?"@ {
        if !check_arity_s(1, args) {
            arity_error(1, args)
        } else {
            match args[0] {
                SValue::Nil => Ok(SValue::Bool(true)),
                SValue::List(vs) => Ok(SValue::Bool(vs.len() == 0)),
                _ => Ok(SValue::Bool(false)),
            }
        }
    } else if name == "not"@ {
        if !check_arity_s(1, args) {
            arity_error(1, args)
        } else {
            Ok(SValue::Bool(!truthy(args[0])))
        }
    } else {
        Err(SHalt::Fail(SEvalError::UnboundSymbol(name)))
    }
}

/// Applying a closure evaluates the head, then the arguments from left to
/// right, then the closure's body with its parameters bound to the
/// arguments' values; the effects come in that order and none is dropped.
pub proof fn law_application_order(
    f: nat,
    es: Seq<SExpr>,
    env: SEnv,
    g: SEnv,
    head: SEff,
    vs: Seq<SValue>,
    args_log: Seq<SEffect>,
    body: SEff,
)
    requires
        es.len() > 0,
        !head_is(es, "quote"@),
        !head_is(es, "if"@),
        !head_is(es, "lambda"@),
        !head_is(es, "define"@),
        !head_is(es, "let"@),
        !head_is(es, "begin"@),
        !head_is(es, "effect"@),
        builtin_head(es) is None,
        eval_s(f, es[0], env, g) == Ok::<SEff, SHalt>(head),
        head.value is Lambda,
        args_s(f, es.subrange(1, es.len() as int), env, g) == Ok::<
            (Seq<SValue>, Seq<SEffect>),
            SHalt,
        >((vs, args_log)),
        head.value->Lambda_params.len() == vs.len(),
        eval_s(
            f,
            head.value->Lambda_body,
            bind_params(head.value->Lambda_env, head.value->Lambda_params, vs),
            g,
        ) == Ok::<SEff, SHalt>(body),
    ensures
        eval_s(f + 1, SExpr::List(es), env, g) == Ok::<SEff, SHalt>(
            SEff { value: body.value, effects: head.effects + args_log + body.effects },
        ),
{
    assert(eval_s(f + 1, SExpr::List(es), env, g) == app_s(f, es, env, g));
}

/// `not` negates its one operand's truth: `false` and `nil` give `true`, and
/// so does the number 0; `true`, every other number and every other value
/// give `false`.
pub proof fn law_not(v: SValue)
    ensures
        builtin_s("not"@, seq![v]) == Ok::<SValue, SHalt>(
            SValue::Bool(
                match v {
                    SValue::Bool(b) => !b,
                    SValue::Nil => true,
                    SValue::Number(n) => n == 0,
                    _ => false,
                },
            ),
        ),
        builtin_s("not"@, seq![SValue::Bool(true)]) == Ok::<SValue, SHalt>(SValue::Bool(false)),
        builtin_s("not"@, seq![SValue::Bool(false)]) == Ok::<SValue, SHalt>(SValue::Bool(true)),
{
    reveal_strlit("not");
    reveal_strlit("+");
    reveal_strlit("-");
    reveal_strlit("*");
    reveal_strlit("=");
    reveal_strlit("<");
    reveal_strlit("list");
    reveal_strlit("car");
    reveal_strlit("cdr");
    reveal_strlit("cons");
    reveal_strlit("null?");
    assert("not"@.len() == 3 && "car"@.len() == 3 && "cdr"@.len() == 3);
    assert("not"@[0] != "car"@[0] && "not"@[0] != "cdr"@[0]);
    assert("+"@.len() == 1 && "-"@.len() == 1 && "*"@.len() == 1 && "="@.len() == 1);
    assert("<"@.len() == 1 && "list"@.len() == 4 && "cons"@.len() == 4 && "null?"@.len() == 5);
    let a = seq![v];
    assert(a.len() == 1 && a[0] == v);
}

/// `cons` puts a value in front of a list (an empty one for `nil`, a pair for
/// any other value), and `car` and `cdr` take it apart again; `null?` holds of
/// `nil` and of the empty list.
pub proof fn law_cons_car_cdr(x: SValue, vs: Seq<SValue>, y: SValue)
    requires
        !(y is List),
        !(y is Nil),
    ensures
        builtin_s("cons"@, seq![x, SValue::List(vs)]) == Ok::<SValue, SHalt>(
            SValue::List(seq![x] + vs),
        ),
        builtin_s("car"@, seq![SValue::List(seq![x] + vs)]) == Ok::<SValue, SHalt>(x),
        builtin_s("cdr"@, seq![SValue::List(seq![x] + vs)]) == Ok::<SValue, SHalt>(
            SValue::List(vs),
        ),
        builtin_s("cons"@, seq![x, SValue::Nil]) == Ok::<SValue, SHalt>(SValue::List(seq![x])),
        builtin_s("cons"@, seq![x, y]) == Ok::<SValue, SHalt>(SValue::List(seq![x, y])),
        builtin_s("null?"@, seq![SValue::Nil]) == Ok::<SValue, SHalt>(SValue::Bool(true)),
        builtin_s("null?"@, seq![SValue::List(Seq::empty())]) == Ok::<SValue, SHalt>(
            SValue::Bool(true),
        ),
{
    reveal_strlit("cons");
    reveal_strlit("car");
    reveal_strlit("cdr");
    reveal_strlit("null?");
    reveal_strlit("+");
    reveal_strlit("-");
    reveal_strlit("*");
    reveal_strlit("=");
    reveal_strlit("<");
    reveal_strlit("list");
    assert("+"@.len() == 1 && "-"@.len() == 1 && "*"@.len() == 1 && "="@.len() == 1);
    assert("<"@.len() == 1 && "list"@.len() == 4 && "car"@.len() == 3 && "cdr"@.len() == 3);
    assert("cons"@.len() == 4 && "null?"@.len() == 5);
    assert("cons"@[0] != "list"@[0]);
    assert("cons"@[0] != "car"@[0] || "cons"@.len() != "car"@.len());
    assert("car"@[1] != "cdr"@[1]);
    assert("car"@.len() != "list"@.len() && "car"@.len() != "+"@.len());
    let l = seq![x] + vs;
    assert(l.subrange(1, l.len() as int) =~= vs);
    assert(l[0] == x);
    assert(l.len() > 0);
    let a = seq![x, SValue::List(vs)];
    assert(a[0] == x && a[1] == SValue::List(vs) && a.len() == 2);
    let c = seq![SValue::List(l)];
    assert(c[0] == SValue::List(l) && c.len() == 1);
}

// ---------------------------------------------------------------------------
// Evaluation with a nesting bound
// ---------------------------------------------------------------------------

/// Big-step evaluation of `e` in `env`, with at most `fuel` nested evaluations.
/// A symbol that `env` does not bind is looked up in `g`, the environment of
/// the globally defined functions (empty outside a graph), which every nested
/// evaluation and every closure's body shares.
pub open spec fn eval_s(fuel: nat, e: SExpr, env: SEnv, g: SEnv) -> Result<SEff, SHalt>
    decreases fuel, 0nat, 0nat,
{
    if fuel == 0 {
        Err(SHalt::Stuck)
    } else {
        let f = (fuel - 1) as nat;
        match e {
            SExpr::Number(n) => Ok(pure_s(SValue::Number(n))),
            SExpr::Symbol(s) => if s == "nil"@ {
                Ok(pure_s(SValue::Nil))
            } else if s == "true"@ {
                Ok(pure_s(SValue::Bool(true)))
            } else if s == "false"@ {
                Ok(pure_s(SValue::Bool(false)))
            } else {
                match env_get(env, s) {
                    Some(v) => Ok(pure_s(v)),
                    None => match env_get(g, s) {
                        Some(v) => Ok(pure_s(v)),
                        None => Err(SHalt::Fail(SEvalError::UnboundSymbol(s))),
                    },
                }
            },
            SExpr::List(es) => if es.len() == 0 {
                Ok(pure_s(SValue::Nil))
            } else if head_is(es, "quote"@) {
                if es.len() != 2 {
                    bad_form("quote requires exactly 1 argument"@)
                } else {
                    Ok(pure_s(quote_value(es[1])))
                }
            } else if head_is(es, "if"@) {
                if_s(f, es, env, g)
            } else if head_is(es, "lambda"@) {
                lambda_s(es, env)
            } else if head_is(es, "define"@) {
                define_s(f, es, env, g)
            } else if head_is(es, "let"@) {
                let_s(f, es, env, g)
            } else if head_is(es, "begin"@) {
                if es.len() < 2 {
                    Ok(pure_s(SValue::Nil))
                } else {
                    match begin_items_s(f, es.subrange(1, es.len() as int), env, g) {
                        Err(h) => Err(h),
                        Ok((_, v, log)) => Ok(SEff { value: v, effects: log }),
                    }
                }
            } else if head_is(es, "effect"@) {
                effect_s(f, es, env, g)
            } else {
                app_s(f, es, env, g)
            },
        }
    }
}

pub open spec fn if_s(f: nat, es: Seq<SExpr>, env: SEnv, g: SEnv) -> Result<SEff, SHalt>
    decreases f, 2nat, 0nat,
{
    if es.len() != 4 {
        bad_form("if requires exactly 3 arguments"@)
    } else {
        match eval_s(f, es[1], env, g) {
            Err(h) => Err(h),
            Ok(c) => {
                let branch = if truthy(c.value) {
                    es[2]
                } else {
                    es[3]
                };
                match eval_s(f, branch, env, g) {
                    Err(h) => Err(h),
                    Ok(b) => Ok(SEff { value: b.value, effects: c.effects + b.effects }),
                }
            },
        }
    }
}

pub open spec fn lambda_s(es: Seq<SExpr>, env: SEnv) -> Result<SEff, SHalt> {
    if es.len() != 3 {
        bad_form("lambda requires (lambda (params...) body)"@)
    } else {
        match es[1] {
            SExpr::List(ps) => match param_names(ps) {
                Some(names) => Ok(pure_s(SValue::Lambda { params: names, body: es[2], env })),
                None => bad_form("lambda params must be symbols"@),
            },
            _ => bad_form("lambda params must be a list"@),
        }
    }
}

pub open spec fn define_s(f: nat, es: Seq<SExpr>, env: SEnv, g: SEnv) -> Result<SEff, SHalt>
    decreases f, 2nat, 0nat,
{
    if es.len() != 3 {
        bad_form("define requires (define name expr)"@)
    } else {
        match es[1] {
            SExpr::Symbol(_) => eval_s(f, es[2], env, g),
            _ => bad_form("define name must be a symbol"@),
        }
    }
}

pub open spec fn let_s(f: nat, es: Seq<SExpr>, env: SEnv, g: SEnv) -> Result<SEff, SHalt>
    decreases f, 2nat, 0nat,
{
    if es.len() != 3 {
        bad_form("let requires (let ((bindings...)) body)"@)
    } else {
        match es[1] {
            SExpr::List(bs) => match bindings_s(f, bs, env, g) {
                Err(h) => Err(h),
                Ok((env2, log)) => match eval_s(f, es[2], env2, g) {
                    Err(h) => Err(h),
                    Ok(b) => Ok(SEff { value: b.value, effects: log + b.effects }),
                },
            },
            _ => bad_form("let bindings must be a list"@),
        }
    }
}

/// The environment and effect log after the `let` bindings `bs`, in order.
pub open spec fn bindings_s(f: nat, bs: Seq<SExpr>, env: SEnv, g: SEnv) -> Result<
    (SEnv, Seq<SEffect>),
    SHalt,
>
    decreases f, 1nat, bs.len(),
{
    if bs.len() == 0 {
        Ok((env, Seq::empty()))
    } else {
        match bindings_s(f, bs.drop_last(), env, g) {
            Err(h) => Err(h),
            Ok((env1, log)) => match bs[bs.len() - 1] {
                SExpr::List(pair) => if pair.len() == 2 {
                    match pair[0] {
                        SExpr::Symbol(name) => match eval_s(f, pair[1], env1, g) {
                            Err(h) => Err(h),
                            Ok(r) => Ok((env_insert(env1, name, r.value), log + r.effects)),
                        },
                        _ => Err(
                            SHalt::Fail(
                                SEvalError::BadForm("let binding name must be a symbol"@),
                            ),
                        ),
                    }
                } else {
                    Err(SHalt::Fail(SEvalError::BadForm("let binding must be (name expr)"@)))
                },
                _ => Err(SHalt::Fail(SEvalError::BadForm("let binding must be (name expr)"@))),
            },
        }
    }
}

/// The environment, last value and effect log after the items of a `begin`
/// (or of a program), in order; `(define name expr)` items extend the environment.
pub open spec fn begin_items_s(f: nat, items: Seq<SExpr>, env: SEnv, g: SEnv) -> Result<
    (SEnv, SValue, Seq<SEffect>),
    SHalt,
>
    decreases f, 1nat, items.len(),
{
    if items.len() == 0 {
        Ok((env, SValue::Nil, Seq::empty()))
    } else {
        match begin_items_s(f, items.drop_last(), env, g) {
            Err(h) => Err(h),
            Ok((env1, _, log)) => {
                let e = items[items.len() - 1];
                match define_target(e) {
                    Some((name, rhs)) => match eval_s(f, rhs, env1, g) {
                        Err(h) => Err(h),
                        Ok(r) => Ok((env_insert(env1, name, r.value), r.value, log + r.effects)),
                    },
                    None => match eval_s(f, e, env1, g) {
                        Err(h) => Err(h),
                        Ok(r) => Ok((env1, r.value, log + r.effects)),
                    },
                }
            },
        }
    }
}

/// The name and defining expression of a `(define name expr)` item.
pub open spec fn define_target(e: SExpr) -> Option<(Seq<char>, SExpr)> {
    match e {
        SExpr::List(inner) => if head_is(inner, "define"@) && inner.len() == 3 {
            match inner[1] {
                SExpr::Symbol(name) => Some((name, inner[2])),
                _ => None,
            }
        } else {
            None
        },
        _ => None,
    }
}

/// The values and effect log of evaluating `es` in order in `env`.
pub open spec fn args_s(f: nat, es: Seq<SExpr>, env: SEnv, g: SEnv) -> Result<
    (Seq<SValue>, Seq<SEffect>),
    SHalt,
>
    decreases f, 1nat, es.len(),
{
    if es.len() == 0 {
        Ok((Seq::empty(), Seq::empty()))
    } else {
        match args_s(f, es.drop_last(), env, g) {
            Err(h) => Err(h),
            Ok((vs, log)) => match eval_s(f, es[es.len() - 1], env, g) {
                Err(h) => Err(h),
                Ok(r) => Ok((vs.push(r.value), log + r.effects)),
            },
        }
    }
}

/// The operation name of an `effect` form and the effects of computing it.
pub open spec fn effect_op_s(f: nat, e: SExpr, env: SEnv, g: SEnv) -> Result<(Seq<char>, Seq<SEffect>), SHalt>
    decreases f, 1nat, 0nat,
{
    match e {
        SExpr::Symbol(s) => Ok((s, Seq::empty())),
        _ => match eval_s(f, e, env, g) {
            Err(h) => Err(h),
            Ok(r) => match r.value {
                SValue::Symbol(s) => Ok((s, r.effects)),
                SValue::Str(s) => Ok((s, r.effects)),
                _ => Err(
                    SHalt::Fail(SEvalError::TypeError("effect op must be a symbol or string"@)),
                ),
            },
        },
    }
}

pub open spec fn effect_s(f: nat, es: Seq<SExpr>, env: SEnv, g: SEnv) -> Result<SEff, SHalt>
    decreases f, 2nat, 0nat,
{
    if es.len() < 3 {
        bad_form("effect requires at least (effect cap op)"@)
    } else {
        match eval_s(f, es[1], env, g) {
            Err(h) => Err(h),
            Ok(c) => match c.value {
                SValue::Number(n) => match effect_op_s(f, es[2], env, g) {
                    Err(h) => Err(h),
                    Ok((op, log_op)) => match args_s(f, es.subrange(3, es.len() as int), env, g) {
                        Err(h) => Err(h),
                        Ok((vs, log_args)) => Ok(
                            SEff {
                                value: SValue::Nil,
                                effects: c.effects + log_op + log_args + seq![
                                    SEffect { cap: n as u64, op, args: vs },
                                ],
                            },
                        ),
                    },
                },
                _ => Err(SHalt::Fail(SEvalError::TypeError("effect cap must be a number"@))),
            },
        }
    }
}

/// The name of a list's head when it is a builtin function's symbol.
pub open spec fn builtin_head(es: Seq<SExpr>) -> Option<Seq<char>> {
    if es.len() > 0 && (es[0] matches SExpr::Symbol(name) && is_builtin_name(name)) {
        Some(es[0]->Symbol_0)
    } else {
        None
    }
}

/// Applies the value of the head of `es` to the values of the rest.
pub open spec fn app_s(f: nat, es: Seq<SExpr>, env: SEnv, g: SEnv) -> Result<SEff, SHalt>
    decreases f, 2nat, 0nat,
{
    let rest = es.subrange(1, es.len() as int);
    if builtin_head(es) is Some {
        match args_s(f, rest, env, g) {
            Err(h) => Err(h),
            Ok((vs, log)) => match builtin_s(builtin_head(es)->0, vs) {
                Err(h) => Err(h),
                Ok(v) => Ok(SEff { value: v, effects: log }),
            },
        }
    } else {
        match eval_s(f, es[0], env, g) {
            Err(h) => Err(h),
            Ok(fr) => match args_s(f, rest, env, g) {
                Err(h) => Err(h),
                Ok((vs, log)) => {
                    let log1 = fr.effects + log;
                    match fr.value {
                        SValue::Lambda { params, body, env: cenv } => if params.len()
                            != vs.len() {
                            Err(
                                SHalt::Fail(
                                    SEvalError::ArityMismatch {
                                        expected: params.len() as usize,
                                        got: vs.len() as usize,
                                    },
                                ),
                            )
                        } else {
                            match eval_s(f, body, bind_params(cenv, params, vs), g) {
                                Err(h) => Err(h),
                                Ok(b) => Ok(SEff { value: b.value, effects: log1 + b.effects }),
                            }
                        },
                        _ => match es[0] {
                            SExpr::Symbol(name) => match builtin_s(name, vs) {
                                Err(h) => Err(h),
                                Ok(v) => Ok(SEff { value: v, effects: log1 }),
                            },
                            _ => Err(
                                SHalt::Fail(SEvalError::NotAFunction(value_text(fr.value))),
                            ),
                        },
                    }
                },
            },
        }
    }
}

// ---------------------------------------------------------------------------
// Facts about the folds
// ---------------------------------------------------------------------------

proof fn lemma_args_prefix(f: nat, es: Seq<SExpr>, env: SEnv, g: SEnv, k: int)
    requires
        0 <= k <= es.len(),
        args_s(f, es.take(k), env, g) is Err,
    ensures
        args_s(f, es, env, g) == args_s(f, es.take(k), env, g),
    decreases es.len() - k,
{
    if k < es.len() {
        assert(es.take(k + 1).drop_last() == es.take(k));
        lemma_args_prefix(f, es, env, g, k + 1);
    } else {
        assert(es.take(k) == es);
    }
}

proof fn lemma_bindings_prefix(f: nat, bs: Seq<SExpr>, env: SEnv, g: SEnv, k: int)
    requires
        0 <= k <= bs.len(),
        bindings_s(f, bs.take(k), env, g) is Err,
    ensures
        bindings_s(f, bs, env, g) == bindings_s(f, bs.take(k), env, g),
    decreases bs.len() - k,
{
    if k < bs.len() {
        assert(bs.take(k + 1).drop_last() == bs.take(k));
        lemma_bindings_prefix(f, bs, env, g, k + 1);
    } else {
        assert(bs.take(k) == bs);
    }
}

proof fn lemma_begin_prefix(f: nat, items: Seq<SExpr>, env: SEnv, g: SEnv, k: int)
    requires
        0 <= k <= items.len(),
        begin_items_s(f, items.take(k), env, g) is Err,
    ensures
        begin_items_s(f, items, env, g) == begin_items_s(f, items.take(k), env, g),
    decreases items.len() - k,
{
    if k < items.len() {
        assert(items.take(k + 1).drop_last() == items.take(k));
        lemma_begin_prefix(f, items, env, g, k + 1);
    } else {
        assert(items.take(k) == items);
    }
}

proof fn lemma_values_push(vs: Seq<Value>, v: Value)
    ensures
        values_view(vs.push(v)) == values_view(vs).push(v@),
{
    assert(vs.push(v).drop_last() == vs);
}

// ---------------------------------------------------------------------------
// The evaluator
// ---------------------------------------------------------------------------

fn pure_value(v: Value) -> (r: Eff<Value>)
    ensures
        eff_view(r) == pure_s(v@),
{
    let r = Eff::pure(v);
    assert(effects_view(r.effects@) =~= Seq::<SEffect>::empty());
    r
}

fn bad(msg: &str) -> (r: Result<Eff<Value>, Halt>)
    ensures
        run_view(r) == bad_form(msg@),
{
    Err(Halt::Fail(EvalError::BadForm(String::from_str(msg))))
}

fn head_word(elems: &Vec<Expr>, w: &str) -> (b: bool)
    ensures
        b == head_is(exprs_view(elems@), w@),
{
    proof {
        lemma_exprs_view(elems@);
    }
    if elems.len() == 0 {
        return false;
    }
    match &elems[0] {
        Expr::Symbol(h) => is_word(h, w),
        _ => false,
    }
}

/// Whether `v` counts as true in a condition.
fn is_truthy(v: &Value) -> (b: bool)
    ensures
        b == truthy(v@),
{
    match v {
        Value::Nil => false,
        Value::Bool(b) => *b,
        Value::Number(n) => *n != 0,
        _ => true,
    }
}

/// Converts quoted data to a value.
fn expr_to_value(e: &Expr) -> (v: Value)
    ensures
        v@ == quote_value(e@),
    decreases e,
{
    match e {
        Expr::Number(n) => Value::Number(*n),
        Expr::Symbol(s) => Value::Symbol(s.clone()),
        Expr::List(es) => {
            let mut out: Vec<Value> = Vec::new();
            let mut i: usize = 0;
            while i < es.len()
                invariant
                    i <= es.len(),
                    *e == Expr::List(*es),
                    values_view(out@) == quote_values(exprs_view(es@.take(i as int))),
                decreases es.len() - i,
            {
                proof {
                    assert(decreases_to!(*es => es[i as int]));
                    assert(decreases_to!(*e => (*e)->List_0));
                    lemma_exprs_view_take(es@, i as int);
                }
                let v = expr_to_value(&es[i]);
                let ghost prev = out@;
                out.push(v);
                proof {
                    lemma_values_push(prev, v);
                    let x = exprs_view(es@.take(i + 1));
                    assert(x.drop_last() == exprs_view(es@.take(i as int)));
                }
                i += 1;
            }
            assert(es@.take(es.len() as int) == es@);
            Value::List(out)
        },
    }
}

fn eval_quote(elems: &Vec<Expr>) -> (r: Result<Eff<Value>, Halt>)
    ensures
        run_view(r) == (if elems@.len() != 2 {
            bad_form("quote requires exactly 1 argument"@)
        } else {
            Ok(pure_s(quote_value(exprs_view(elems@)[1])))
        }),
{
    proof {
        lemma_exprs_view(elems@);
    }
    if elems.len() != 2 {
        return bad("quote requires exactly 1 argument");
    }
    Ok(pure_value(expr_to_value(&elems[1])))
}

fn is_builtin_fn(name: &String) -> (b: bool)
    ensures
        b == is_builtin_name(name@),
{
    is_word(name, "+") || is_word(name, "-") || is_word(name, "*") || is_word(name, "=")
        || is_word(name, "<") || is_word(name, "list") || is_word(name, "car") || is_word(
        name,
        "cdr",
    ) || is_word(name, "cons") || is_word(name, "null?") || is_word(name, "not")
}

fn check_arity(expected: usize, got: usize) -> (r: Result<(), Halt>)
    ensures
        r is Ok <==> expected == got,
        r matches Err(h) ==> halt_view(h) == SHalt::Fail(
            SEvalError::ArityMismatch { expected, got },
        ),
{
    if expected != got {
        Err(Halt::Fail(EvalError::ArityMismatch { expected, got }))
    } else {
        Ok(())
    }
}

fn as_number(v: &Value) -> (r: Result<i64, Halt>)
    ensures
        match as_number_s(v@) {
            Ok(n) => r == Ok::<i64, Halt>(n),
            Err(h) => r matches Err(x) && halt_view(x) == h,
        },
{
    match v {
        Value::Number(n) => Ok(*n),
        _ => {
            let mut m = String::from_str("expected number, got ");
            let t = v.to_string();
            push_all(&mut m, &t);
            Err(Halt::Fail(EvalError::TypeError(m)))
        },
    }
}

spec fn value_result_view(r: Result<Value, Halt>) -> Result<SValue, SHalt> {
    match r {
        Ok(v) => Ok(v@),
        Err(h) => Err(halt_view(h)),
    }
}

fn type_err(msg: &str) -> (r: Result<Value, Halt>)
    ensures
        value_result_view(r) == type_error(msg@),
{
    Err(Halt::Fail(EvalError::TypeError(String::from_str(msg))))
}

fn eval_numeric(name: &String, args: &Vec<Value>) -> (r: Result<Value, Halt>)
    requires
        name@ == "+"@ || name@ == "-"@ || name@ == "*"@ || name@ == "="@ || name@ == "<"@,
    ensures
        value_result_view(r) == numeric_s(name@, values_view(args@)),
{
    proof {
        lemma_values_view(args@);
    }
    if let Err(h) = check_arity(2, args.len()) {
        return Err(h);
    }
    let a = match as_number(&args[0]) {
        Ok(a) => a,
        Err(h) => return Err(h),
    };
    let b = match as_number(&args[1]) {
        Ok(b) => b,
        Err(h) => return Err(h),
    };
    if is_word(name, "+") {
        match a.checked_add(b) {
            Some(c) => Ok(Value::Number(c)),
            None => Err(Halt::Stuck),
        }
    } else if is_word(name, "-") {
        match a.checked_sub(b) {
            Some(c) => Ok(Value::Number(c)),
            None => Err(Halt::Stuck),
        }
    } else if is_word(name, "*") {
        match a.checked_mul(b) {
            Some(c) => Ok(Value::Number(c)),
            None => Err(Halt::Stuck),
        }
    } else if is_word(name, "=") {
        Ok(Value::Bool(a == b))
    } else {
        Ok(Value::Bool(a < b))
    }
}

fn eval_builtin(name: &String, args: &Vec<Value>) -> (r: Result<Value, Halt>)
    ensures
        value_result_view(r) == builtin_s(name@, values_view(args@)),
{
    proof {
        lemma_values_view(args@);
    }
    if is_word(name, "+") || is_word(name, "-") || is_word(name, "*") || is_word(name, "=")
        || is_word(name, "<") {
        eval_numeric(name, args)
    } else if is_word(name, "list") {
        Ok(Value::List(copy_values(args)))
    } else if is_word(name, "car") {
        if let Err(h) = check_arity(1, args.len()) {
            return Err(h);
        }
        match &args[0] {
            Value::List(vs) => {
                proof {
                    lemma_values_view(vs@);
                }
                if vs.len() > 0 {
                    Ok(copy_value(&vs[0]))
                } else {
                    type_err("car requires a non-empty list")
                }
            },
            _ => type_err("car requires a non-empty list"),
        }
    } else if is_word(name, "cdr") {
        if let Err(h) = check_arity(1, args.len()) {
            return Err(h);
        }
        match &args[0] {
            Value::List(vs) => {
                proof {
                    lemma_values_view(vs@);
                }
                if vs.len() > 0 {
                    let mut out: Vec<Value> = Vec::new();
                    let mut i: usize = 1;
                    while i < vs.len()
                        invariant
                            1 <= i <= vs.len(),
                            values_view(vs@).len() == vs@.len(),
                            forall|j: int|
                                0 <= j < vs@.len() ==> #[trigger] values_view(vs@)[j]
                                    == vs@[j]@,
                            out@.len() == i - 1,
                            forall|j: int| 0 <= j < i - 1 ==> #[trigger] out@[j]@ == vs@[j + 1]@,
                        decreases vs.len() - i,
                    {
                        out.push(copy_value(&vs[i]));
                        i += 1;
                    }
                    proof {
                        lemma_values_view(out@);
                        assert forall|j: int| 0 <= j < out@.len() implies #[trigger] values_view(
                            out@,
                        )[j] == values_view(vs@).subrange(1, vs@.len() as int)[j] by {
                            assert(values_view(out@)[j] == out@[j]@);
                            assert(values_view(vs@)[j + 1] == vs@[j + 1]@);
                        }
                        assert(values_view(out@) =~= values_view(vs@).subrange(
                            1,
                            vs@.len() as int,
                        ));
                    }
                    Ok(Value::List(out))
                } else {
                    type_err("cdr requires a non-empty list")
                }
            },
            _ => type_err("cdr requires a non-empty list"),
        }
    } else if is_word(name, "cons") {
        if let Err(h) = check_arity(2, args.len()) {
            return Err(h);
        }
        match &args[1] {
            Value::List(vs) => {
                let mut out: Vec<Value> = Vec::new();
                out.push(copy_value(&args[0]));
                let rest = copy_values(vs);
                let mut rest = rest;
                let ghost r0 = rest@;
                out.append(&mut rest);
                proof {
                    lemma_values_view(out@);
                    lemma_values_view(r0);
                    lemma_values_view(vs@);
                    assert(values_view(out@) =~= seq![args@[0]@] + values_view(vs@));
                }
                Ok(Value::List(out))
            },
            Value::Nil => {
                let mut out: Vec<Value> = Vec::new();
                out.push(copy_value(&args[0]));
                proof {
                    lemma_values_view(out@);
                    assert(values_view(out@) =~= seq![args@[0]@]);
                }
                Ok(Value::List(out))
            },
            _ => {
                let mut out: Vec<Value> = Vec::new();
                out.push(copy_value(&args[0]));
                out.push(copy_value(&args[1]));
                proof {
                    lemma_values_view(out@);
                    assert(values_view(out@) =~= seq![args@[0]@, args@[1]@]);
                }
                Ok(Value::List(out))
            },
        }
    } else if is_word(name, "null?") {
        if let Err(h) = check_arity(1, args.len()) {
            return Err(h);
        }
        match &args[0] {
            Value::Nil => Ok(Value::Bool(true)),
            Value::List(vs) => {
                proof {
                    lemma_values_view(vs@);
                }
                Ok(Value::Bool(vs.len() == 0))
            },
            _ => Ok(Value::Bool(false)),
        }
    } else if is_word(name, "not") {
        if let Err(h) = check_arity(1, args.len()) {
            return Err(h);
        }
        Ok(Value::Bool(!is_truthy(&args[0])))
    } else {
        Err(Halt::Fail(EvalError::UnboundSymbol(name.clone())))
    }
}

spec fn args_view(r: Result<(Vec<Value>, Vec<Effect>), Halt>) -> Result<
    (Seq<SValue>, Seq<SEffect>),
    SHalt,
> {
    match r {
        Ok((vs, log)) => Ok((values_view(vs@), effects_view(log@))),
        Err(h) => Err(halt_view(h)),
    }
}

/// Evaluates `elems[from..]` in order.
fn eval_args(elems: &Vec<Expr>, from: usize, env: &Env, g: &Env, f: u64) -> (r: Result<
    (Vec<Value>, Vec<Effect>),
    Halt,
>)
    requires
        from <= elems@.len(),
    ensures
        args_view(r) == args_s(
            f as nat,
            exprs_view(elems@).subrange(from as int, elems@.len() as int),
            env@, g@),
    decreases f, 1nat, 0nat,
{
    proof {
        lemma_exprs_view(elems@);
    }
    let ghost xs = exprs_view(elems@).subrange(from as int, elems@.len() as int);
    let mut vals: Vec<Value> = Vec::new();
    let mut log: Vec<Effect> = Vec::new();
    let mut i = from;
    proof {
        assert(xs.take(0) =~= Seq::<SExpr>::empty());
        assert(effects_view(log@) =~= Seq::<SEffect>::empty());
        assert(values_view(vals@) =~= Seq::<SValue>::empty());
    }
    while i < elems.len()
        invariant
            from <= i <= elems.len(),
            xs == exprs_view(elems@).subrange(from as int, elems@.len() as int),
            exprs_view(elems@).len() == elems@.len(),
            forall|j: int| 0 <= j < elems@.len() ==> #[trigger] exprs_view(elems@)[j] == elems@[j]@,
            args_s(f as nat, xs.take(i - from), env@, g@) == Ok::<
                (Seq<SValue>, Seq<SEffect>),
                SHalt,
            >((values_view(vals@), effects_view(log@))),
        decreases elems.len() - i,
    {
        proof {
            assert(xs.take(i - from + 1).drop_last() == xs.take(i - from));
            assert(xs.take(i - from + 1)[i - from] == elems@[i as int]@);
        }
        match eval_rec(&elems[i], env, g, f) {
            Err(h) => {
                proof {
                    lemma_args_prefix(f as nat, xs, env@, g@, i - from + 1);
                }
                return Err(h);
            },
            Ok(x) => {
                let ghost pv = vals@;
                vals.push(x.value);
                append_effects(&mut log, x.effects);
                proof {
                    lemma_values_push(pv, vals@[vals@.len() - 1]);
                    assert(vals@ == pv.push(vals@[vals@.len() - 1]));
                }
            },
        }
        i += 1;
    }
    proof {
        assert(xs.take(i - from) == xs);
    }
    Ok((vals, log))
}

fn eval_if(elems: &Vec<Expr>, env: &Env, g: &Env, f: u64) -> (r: Result<Eff<Value>, Halt>)
    ensures
        run_view(r) == if_s(f as nat, exprs_view(elems@), env@, g@),
    decreases f, 2nat, 0nat,
{
    proof {
        lemma_exprs_view(elems@);
    }
    if elems.len() != 4 {
        return bad("if requires exactly 3 arguments");
    }
    let c = match eval_rec(&elems[1], env, g, f) {
        Ok(c) => c,
        Err(h) => return Err(h),
    };
    let b = if is_truthy(&c.value) {
        eval_rec(&elems[2], env, g, f)
    } else {
        eval_rec(&elems[3], env, g, f)
    };
    match b {
        Err(h) => Err(h),
        Ok(b) => {
            let mut effects = c.effects;
            append_effects(&mut effects, b.effects);
            Ok(Eff { value: b.value, effects })
        },
    }
}

fn eval_lambda(elems: &Vec<Expr>, env: &Env) -> (r: Result<Eff<Value>, Halt>)
    ensures
        run_view(r) == lambda_s(exprs_view(elems@), env@),
{
    proof {
        lemma_exprs_view(elems@);
    }
    if elems.len() != 3 {
        return bad("lambda requires (lambda (params...) body)");
    }
    match &elems[1] {
        Expr::List(ps) => {
            proof {
                lemma_exprs_view(ps@);
            }
            let mut names: Vec<String> = Vec::new();
            let mut i: usize = 0;
            while i < ps.len()
                invariant
                    i <= ps.len(),
                    elems@.len() == 3,
                    exprs_view(elems@).len() == 3,
                    exprs_view(elems@)[1] == SExpr::List(exprs_view(ps@)),
                    exprs_view(ps@).len() == ps@.len(),
                    forall|j: int| 0 <= j < ps@.len() ==> #[trigger] exprs_view(ps@)[j] == ps@[j]@,
                    param_names(exprs_view(ps@).take(i as int)) == Some(strings_view(names@)),
                decreases ps.len() - i,
            {
                let ghost xs = exprs_view(ps@);
                proof {
                    assert(xs.take(i + 1).drop_last() == xs.take(i as int));
                    assert(xs.take(i + 1)[i as int] == ps@[i as int]@);
                }
                match &ps[i] {
                    Expr::Symbol(s) => {
                        let ghost pn = names@;
                        names.push(s.clone());
                        proof {
                            assert(strings_view(names@) =~= strings_view(pn).push(s@));
                        }
                    },
                    _ => {
                        proof {
                            assert(!(ps@[i as int]@ is Symbol));
                            assert(!(xs.take(i + 1)[i as int] is Symbol));
                            assert(param_names(xs.take(i + 1)) is None);
                            lemma_params_prefix(xs, i + 1);
                        }
                        return bad("lambda params must be symbols");
                    },
                }
                i += 1;
            }
            proof {
                assert(exprs_view(ps@).take(ps@.len() as int) == exprs_view(ps@));
            }
            let body = copy_expr(&elems[2]);
            let captured = copy_env(env);
            Ok(pure_value(Value::Lambda { params: names, body: Box::new(body), env: captured }))
        },
        _ => bad("lambda params must be a list"),
    }
}

proof fn lemma_params_prefix(ps: Seq<SExpr>, k: int)
    requires
        0 <= k <= ps.len(),
        param_names(ps.take(k)) is None,
    ensures
        param_names(ps) is None,
    decreases ps.len() - k,
{
    if k < ps.len() {
        assert(ps.take(k + 1).drop_last() == ps.take(k));
        lemma_params_prefix(ps, k + 1);
    } else {
        assert(ps.take(k) == ps);
    }
}

fn eval_define(elems: &Vec<Expr>, env: &Env, g: &Env, f: u64) -> (r: Result<Eff<Value>, Halt>)
    ensures
        run_view(r) == define_s(f as nat, exprs_view(elems@), env@, g@),
    decreases f, 2nat, 0nat,
{
    proof {
        lemma_exprs_view(elems@);
    }
    if elems.len() != 3 {
        return bad("define requires (define name expr)");
    }
    match &elems[1] {
        Expr::Symbol(_) => eval_rec(&elems[2], env, g, f),
        _ => bad("define name must be a symbol"),
    }
}

fn eval_let(elems: &Vec<Expr>, env: &Env, g: &Env, f: u64) -> (r: Result<Eff<Value>, Halt>)
    ensures
        run_view(r) == let_s(f as nat, exprs_view(elems@), env@, g@),
    decreases f, 2nat, 0nat,
{
    proof {
        lemma_exprs_view(elems@);
    }
    if elems.len() != 3 {
        return bad("let requires (let ((bindings...)) body)");
    }
    let bindings = match &elems[1] {
        Expr::List(bs) => bs,
        _ => return bad("let bindings must be a list"),
    };
    proof {
        lemma_exprs_view(bindings@);
    }
    let ghost bv = exprs_view(bindings@);
    let mut new_env = copy_env(env);
    let mut all: Vec<Effect> = Vec::new();
    let mut i: usize = 0;
    proof {
        assert(bv.take(0) =~= Seq::<SExpr>::empty());
        assert(effects_view(all@) =~= Seq::<SEffect>::empty());
    }
    while i < bindings.len()
        invariant
            i <= bindings.len(),
            elems@.len() == 3,
            exprs_view(elems@).len() == 3,
            exprs_view(elems@)[1] == SExpr::List(bv),
            bv == exprs_view(bindings@),
            bv.len() == bindings@.len(),
            forall|j: int| 0 <= j < bindings@.len() ==> #[trigger] bv[j] == bindings@[j]@,
            bindings_s(f as nat, bv.take(i as int), env@, g@) == Ok::<
                (SEnv, Seq<SEffect>),
                SHalt,
            >((new_env@, effects_view(all@))),
        decreases bindings.len() - i,
    {
        proof {
            assert(bv.take(i + 1).drop_last() == bv.take(i as int));
            assert(bv.take(i + 1)[i as int] == bindings@[i as int]@);
        }
        match &bindings[i] {
            Expr::List(pair) => {
                proof {
                    lemma_exprs_view(pair@);
                }
                if pair.len() == 2 {
                    match &pair[0] {
                        Expr::Symbol(name) => {
                            match eval_rec(&pair[1], &new_env, g, f) {
                                Err(h) => {
                                    proof {
                                        assert(bv.take(i + 1)[i as int] == SExpr::List(exprs_view(pair@)));
                                        assert(bindings_s(f as nat, bv.take(i + 1), env@, g@) == Err::<(SEnv, Seq<SEffect>), SHalt>(halt_view(h)));
                                        lemma_bindings_prefix(f as nat, bv, env@, g@, i + 1);
                                    }
                                    return Err(h);
                                },
                                Ok(x) => {
                                    append_effects(&mut all, x.effects);
                                    new_env.insert(name.clone(), x.value);
                                },
                            }
                        },
                        _ => {
                            proof {
                                assert(bv.take(i + 1)[i as int] == SExpr::List(exprs_view(pair@)));
                                assert(!(pair@[0]@ is Symbol));
                                lemma_bindings_prefix(f as nat, bv, env@, g@, i + 1);
                            }
                            return bad("let binding name must be a symbol");
                        },
                    }
                } else {
                    proof {
                        lemma_bindings_prefix(f as nat, bv, env@, g@, i + 1);
                    }
                    return bad("let binding must be (name expr)");
                }
            },
            _ => {
                proof {
                    lemma_bindings_prefix(f as nat, bv, env@, g@, i + 1);
                }
                return bad("let binding must be (name expr)");
            },
        }
        i += 1;
    }
    proof {
        assert(bv.take(i as int) == bv);
    }
    match eval_rec(&elems[2], &new_env, g, f) {
        Err(h) => Err(h),
        Ok(b) => {
            append_effects(&mut all, b.effects);
            Ok(Eff { value: b.value, effects: all })
        },
    }
}

spec fn begin_view(r: Result<(Env, Value, Vec<Effect>), Halt>) -> Result<
    (SEnv, SValue, Seq<SEffect>),
    SHalt,
> {
    match r {
        Ok((e, v, log)) => Ok((e@, v@, effects_view(log@))),
        Err(h) => Err(halt_view(h)),
    }
}

fn define_parts(e: &Expr) -> (r: Option<(&String, &Expr)>)
    ensures
        match define_target(e@) {
            Some((name, rhs)) => r matches Some((n, x)) && n@ == name && x@ == rhs,
            None => r is None,
        },
{
    match e {
        Expr::List(inner) => {
            proof {
                lemma_exprs_view(inner@);
            }
            if head_word(inner, "define") && inner.len() == 3 {
                match &inner[1] {
                    Expr::Symbol(name) => Some((name, &inner[2])),
                    _ => None,
                }
            } else {
                None
            }
        },
        _ => None,
    }
}

/// Evaluates the items `elems[from..]` in order, as `begin` and programs do.
fn eval_items(elems: &[Expr], from: usize, env: &Env, g: &Env, f: u64) -> (r: Result<
    (Env, Value, Vec<Effect>),
    Halt,
>)
    requires
        from <= elems@.len(),
    ensures
        begin_view(r) == begin_items_s(
            f as nat,
            exprs_view(elems@).subrange(from as int, elems@.len() as int),
            env@, g@),
    decreases f, 1nat, 0nat,
{
    proof {
        lemma_exprs_view(elems@);
    }
    let ghost xs = exprs_view(elems@).subrange(from as int, elems@.len() as int);
    let mut cur = copy_env(env);
    let mut last = Value::Nil;
    let mut all: Vec<Effect> = Vec::new();
    let mut i = from;
    proof {
        assert(xs.take(0) =~= Seq::<SExpr>::empty());
        assert(effects_view(all@) =~= Seq::<SEffect>::empty());
    }
    while i < elems.len()
        invariant
            from <= i <= elems.len(),
            xs == exprs_view(elems@).subrange(from as int, elems@.len() as int),
            exprs_view(elems@).len() == elems@.len(),
            forall|j: int| 0 <= j < elems@.len() ==> #[trigger] exprs_view(elems@)[j] == elems@[j]@,
            begin_items_s(f as nat, xs.take(i - from), env@, g@) == Ok::<
                (SEnv, SValue, Seq<SEffect>),
                SHalt,
            >((cur@, last@, effects_view(all@))),
        decreases elems.len() - i,
    {
        proof {
            assert(xs.take(i - from + 1).drop_last() == xs.take(i - from));
            assert(xs.take(i - from + 1)[i - from] == elems@[i as int]@);
        }
        match define_parts(&elems[i]) {
            Some((name, rhs)) => {
                match eval_rec(rhs, &cur, g, f) {
                    Err(h) => {
                        proof {
                            lemma_begin_prefix(f as nat, xs, env@, g@, i - from + 1);
                        }
                        return Err(h);
                    },
                    Ok(x) => {
                        append_effects(&mut all, x.effects);
                        cur.insert(name.clone(), copy_value(&x.value));
                        last = x.value;
                    },
                }
            },
            None => {
                match eval_rec(&elems[i], &cur, g, f) {
                    Err(h) => {
                        proof {
                            lemma_begin_prefix(f as nat, xs, env@, g@, i - from + 1);
                        }
                        return Err(h);
                    },
                    Ok(x) => {
                        append_effects(&mut all, x.effects);
                        last = x.value;
                    },
                }
            },
        }
        i += 1;
    }
    proof {
        assert(xs.take(i - from) == xs);
    }
    Ok((cur, last, all))
}

fn eval_begin(elems: &Vec<Expr>, env: &Env, g: &Env, f: u64) -> (r: Result<Eff<Value>, Halt>)
    requires
        head_is(exprs_view(elems@), "begin"@),
    ensures
        run_view(r) == (if elems@.len() < 2 {
            Ok(pure_s(SValue::Nil))
        } else {
            match begin_items_s(
                f as nat,
                exprs_view(elems@).subrange(1, elems@.len() as int),
                env@, g@) {
                Err(h) => Err(h),
                Ok((_, v, log)) => Ok(SEff { value: v, effects: log }),
            }
        }),
    decreases f, 2nat, 0nat,
{
    proof {
        lemma_exprs_view(elems@);
    }
    if elems.len() < 2 {
        return Ok(pure_value(Value::Nil));
    }
    match eval_items(elems.as_slice(), 1, env, g, f) {
        Err(h) => Err(h),
        Ok((_, v, log)) => Ok(Eff { value: v, effects: log }),
    }
}

fn eval_effect(elems: &Vec<Expr>, env: &Env, g: &Env, f: u64) -> (r: Result<Eff<Value>, Halt>)
    ensures
        run_view(r) == effect_s(f as nat, exprs_view(elems@), env@, g@),
    decreases f, 2nat, 0nat,
{
    proof {
        lemma_exprs_view(elems@);
    }
    if elems.len() < 3 {
        return bad("effect requires at least (effect cap op)");
    }
    let c = match eval_rec(&elems[1], env, g, f) {
        Ok(c) => c,
        Err(h) => return Err(h),
    };
    let cap_id = match &c.value {
        Value::Number(n) => CapabilityId(*n as u64),
        _ => return Err(Halt::Fail(EvalError::TypeError(String::from_str("effect cap must be a number")))),
    };
    let mut all = c.effects;
    let op = match &elems[2] {
        Expr::Symbol(s) => s.clone(),
        _ => {
            let o = match eval_rec(&elems[2], env, g, f) {
                Ok(o) => o,
                Err(h) => return Err(h),
            };
            let name = match &o.value {
                Value::Symbol(s) => s.clone(),
                Value::String(s) => s.clone(),
                _ => return Err(
                    Halt::Fail(
                        EvalError::TypeError(String::from_str("effect op must be a symbol or string")),
                    ),
                ),
            };
            append_effects(&mut all, o.effects);
            name
        },
    };
    let (args, log_args) = match eval_args(elems, 3, env, g, f) {
        Ok(x) => x,
        Err(h) => return Err(h),
    };
    append_effects(&mut all, log_args);
    let ghost before = all@;
    let effect = Effect { cap_id, op, args };
    all.push(effect);
    proof {
        assert(effects_view(all@) =~= effects_view(before).push(effect_view(effect)));
        assert(effects_view(before).push(effect_view(effect)) =~= effects_view(before) + seq![
            effect_view(effect),
        ]);
    }
    Ok(Eff { value: Value::Nil, effects: all })
}

fn eval_application(elems: &Vec<Expr>, env: &Env, g: &Env, f: u64) -> (r: Result<Eff<Value>, Halt>)
    requires
        elems@.len() > 0,
    ensures
        run_view(r) == app_s(f as nat, exprs_view(elems@), env@, g@),
    decreases f, 2nat, 0nat,
{
    proof {
        lemma_exprs_view(elems@);
    }
    if let Expr::Symbol(name) = &elems[0] {
        if is_builtin_fn(name) {
            let (vals, effects) = match eval_args(elems, 1, env, g, f) {
                Ok(x) => x,
                Err(h) => return Err(h),
            };
            return match eval_builtin(name, &vals) {
                Ok(v) => Ok(Eff { value: v, effects }),
                Err(h) => Err(h),
            };
        }
    }
    let func = match eval_rec(&elems[0], env, g, f) {
        Ok(x) => x,
        Err(h) => return Err(h),
    };
    let (vals, log) = match eval_args(elems, 1, env, g, f) {
        Ok(x) => x,
        Err(h) => return Err(h),
    };
    let Eff { value: fv, effects: mut all } = func;
    append_effects(&mut all, log);
    match &fv {
        Value::Lambda { params, body, env: closure_env } => {
            proof {
                lemma_values_view(vals@);
            }
            if params.len() != vals.len() {
                return Err(
                    Halt::Fail(
                        EvalError::ArityMismatch { expected: params.len(), got: vals.len() },
                    ),
                );
            }
            let mut call_env = copy_env(closure_env);
            let ghost ps = strings_view(params@);
            let ghost vs = values_view(vals@);
            let mut i: usize = 0;
            while i < params.len()
                invariant
                    i <= params.len(),
                    params@.len() == vals@.len(),
                    ps == strings_view(params@),
                    vs == values_view(vals@),
                    vs.len() == vals@.len(),
                    forall|j: int| 0 <= j < vals@.len() ==> #[trigger] vs[j] == vals@[j]@,
                    call_env@ == bind_params(
                        closure_env@,
                        ps.take(i as int),
                        vs.take(i as int),
                    ),
                decreases params.len() - i,
            {
                proof {
                    assert(ps.take(i + 1).drop_last() == ps.take(i as int));
                    assert(vs.take(i + 1).drop_last() == vs.take(i as int));
                    assert(ps.take(i + 1)[i as int] == params@[i as int]@);
                }
                call_env.insert(params[i].clone(), copy_value(&vals[i]));
                i += 1;
            }
            proof {
                assert(ps.take(i as int) == ps);
                assert(vs.take(i as int) == vs);
            }
            match eval_rec(body, &call_env, g, f) {
                Err(h) => Err(h),
                Ok(b) => {
                    append_effects(&mut all, b.effects);
                    Ok(Eff { value: b.value, effects: all })
                },
            }
        },
        _ => {
            match &elems[0] {
                Expr::Symbol(name) => match eval_builtin(name, &vals) {
                    Ok(v) => Ok(Eff { value: v, effects: all }),
                    Err(h) => Err(h),
                },
                _ => Err(Halt::Fail(EvalError::NotAFunction(fv.to_string()))),
            }
        },
    }
}

fn eval_rec(expr: &Expr, env: &Env, g: &Env, fuel: u64) -> (r: Result<Eff<Value>, Halt>)
    ensures
        run_view(r) == eval_s(fuel as nat, expr@, env@, g@),
    decreases fuel, 0nat, 0nat,
{
    if fuel == 0 {
        return Err(Halt::Stuck);
    }
    let f = fuel - 1;
    match expr {
        Expr::Number(n) => Ok(pure_value(Value::Number(*n))),
        Expr::Symbol(s) => {
            if is_word(s, "nil") {
                Ok(pure_value(Value::Nil))
            } else if is_word(s, "true") {
                Ok(pure_value(Value::Bool(true)))
            } else if is_word(s, "false") {
                Ok(pure_value(Value::Bool(false)))
            } else {
                match env.get(s) {
                    Some(v) => Ok(pure_value(copy_value(v))),
                    None => match g.get(s) {
                        Some(v) => Ok(pure_value(copy_value(v))),
                        None => Err(Halt::Fail(EvalError::UnboundSymbol(s.clone()))),
                    },
                }
            }
        },
        Expr::List(elems) => {
            proof {
                lemma_exprs_view(elems@);
            }
            if elems.len() == 0 {
                Ok(pure_value(Value::Nil))
            } else if head_word(elems, "quote") {
                eval_quote(elems)
            } else if head_word(elems, "if") {
                eval_if(elems, env, g, f)
            } else if head_word(elems, "lambda") {
                eval_lambda(elems, env)
            } else if head_word(elems, "define") {
                eval_define(elems, env, g, f)
            } else if head_word(elems, "let") {
                eval_let(elems, env, g, f)
            } else if head_word(elems, "begin") {
                eval_begin(elems, env, g, f)
            } else if head_word(elems, "effect") {
                eval_effect(elems, env, g, f)
            } else {
                eval_application(elems, env, g, f)
            }
        },
    }
}

// ---------------------------------------------------------------------------
// Public entry points
// ---------------------------------------------------------------------------

/// How deeply evaluations may nest. Each nested evaluation takes a native
/// stack frame, and this depth still fits in the 2 MiB stack that Rust gives a
/// spawned thread (twice this depth does not), so evaluation stops here rather
/// than abort the process, as it stops on integer overflow.
pub const EVAL_DEPTH: u64 = 2048;

/// The evaluation of `e` in `env`.
pub open spec fn eval_spec(e: SExpr, env: SEnv) -> Result<SEff, SHalt> {
    eval_s(EVAL_DEPTH as nat, e, env, Seq::empty())
}

/// The evaluation of `e` in `env` with the global functions `g`.
pub open spec fn eval_global_spec(e: SExpr, env: SEnv, g: SEnv) -> Result<SEff, SHalt> {
    eval_s(EVAL_DEPTH as nat, e, env, g)
}

/// Whether an evaluation reaches a value or an evaluation error (it does not
/// overflow an `i64` nor nest deeper than `EVAL_DEPTH`).
pub open spec fn completes<T>(r: Result<T, SHalt>) -> bool {
    !(r matches Err(SHalt::Stuck))
}

/// The value or error of a completed evaluation.
pub open spec fn outcome(r: Result<SEff, SHalt>) -> Result<SEff, SEvalError> {
    match r {
        Ok(x) => Ok(x),
        Err(SHalt::Fail(e)) => Err(e),
        Err(SHalt::Stuck) => Err(SEvalError::BadForm(Seq::empty())),
    }
}

pub open spec fn result_view(r: Result<Eff<Value>, EvalError>) -> Result<SEff, SEvalError> {
    match r {
        Ok(x) => Ok(eff_view(x)),
        Err(e) => Err(e@),
    }
}

fn finish(r: Result<Eff<Value>, Halt>) -> (out: Option<Result<Eff<Value>, EvalError>>)
    ensures
        out is None <==> !completes(run_view(r)),
        out matches Some(x) ==> result_view(x) == outcome(run_view(r)),
{
    match r {
        Ok(x) => Some(Ok(x)),
        Err(Halt::Fail(e)) => Some(Err(e)),
        Err(Halt::Stuck) => None,
    }
}

/// Evaluates `expr` in `env` when the evaluation completes, and tells when it
/// does not (`None`: an `i64` overflow, or nesting deeper than `EVAL_DEPTH`).
/// No effect is executed: effects are recorded, in order, as data.
pub fn try_eval(expr: &Expr, env: &Env) -> (r: Option<Result<Eff<Value>, EvalError>>)
    ensures
        r is None <==> !completes(eval_spec(expr@, env@)),
        r matches Some(x) ==> result_view(x) == outcome(eval_spec(expr@, env@)),
{
    let globals = Env::new();
    finish(eval_rec(expr, env, &globals, EVAL_DEPTH))
}

/// `try_eval` with the global functions `g`: a symbol that neither `env` nor
/// a closure's environment binds is looked up in `g`.
pub fn try_eval_global(expr: &Expr, env: &Env, g: &Env) -> (r: Option<
    Result<Eff<Value>, EvalError>,
>)
    ensures
        r is None <==> !completes(eval_global_spec(expr@, env@, g@)),
        r matches Some(x) ==> result_view(x) == outcome(eval_global_spec(expr@, env@, g@)),
{
    finish(eval_rec(expr, env, g, EVAL_DEPTH))
}

/// Evaluates an expression in the given environment, producing its value and
/// ordered effect log. No effect is executed: effects are recorded as data.
pub fn eval(expr: &Expr, env: &Env) -> (r: Result<Eff<Value>, EvalError>)
    requires
        completes(eval_spec(expr@, env@)),
    ensures
        result_view(r) == outcome(eval_spec(expr@, env@)),
{
    match try_eval(expr, env) {
        Some(x) => x,
        None => Err(EvalError::BadForm(String::new())),
    }
}

/// Evaluates a single expression in the environment of a graph's functions,
/// which also serves as the global environment: a name that a closure's own
/// environment does not bind is looked up in `env`, so functions defined
/// there can call themselves and one another at any depth.
pub fn eval_with_env(expr: &Expr, env: &Env) -> (r: Result<Eff<Value>, EvalError>)
    requires
        completes(eval_global_spec(expr@, env@, env@)),
    ensures
        result_view(r) == outcome(eval_global_spec(expr@, env@, env@)),
{
    match try_eval_global(expr, env, env) {
        Some(x) => x,
        None => Err(EvalError::BadForm(String::new())),
    }
}

/// The evaluation of a program: its top-level expressions in order, each with
/// the nesting bound, where `(define name expr)` extends the environment.
pub open spec fn program_spec(es: Seq<SExpr>) -> Result<SEff, SHalt> {
    match begin_items_s(EVAL_DEPTH as nat, es, Seq::empty(), Seq::empty()) {
        Err(h) => Err(h),
        Ok((_, v, log)) => Ok(SEff { value: v, effects: log }),
    }
}

/// Evaluates a program when the evaluation completes (see `try_eval`).
pub fn try_eval_program(exprs: &[Expr]) -> (r: Option<Result<Eff<Value>, EvalError>>)
    ensures
        r is None <==> !completes(program_spec(exprs_view(exprs@))),
        r matches Some(x) ==> result_view(x) == outcome(program_spec(exprs_view(exprs@))),
{
    let env = Env::new();
    proof {
        assert(exprs_view(exprs@).subrange(0, exprs@.len() as int) == exprs_view(exprs@)) by {
            lemma_exprs_view(exprs@);
        }
    }
    let r = match eval_items(exprs, 0, &env, &env, EVAL_DEPTH) {
        Err(h) => Err(h),
        Ok((_, v, log)) => Ok(Eff { value: v, effects: log }),
    };
    finish(r)
}

/// Evaluates a program (a sequence of expressions), building up an environment
/// from top-level `define`s; returns the last value and all effects in order.
pub fn eval_program(exprs: &[Expr]) -> (r: Result<Eff<Value>, EvalError>)
    requires
        completes(program_spec(exprs_view(exprs@))),
    ensures
        result_view(r) == outcome(program_spec(exprs_view(exprs@))),
{
    match try_eval_program(exprs) {
        Some(x) => x,
        None => Err(EvalError::BadForm(String::new())),
    }
}

/// The message of an evaluation error.
pub open spec fn eval_error_text(e: SEvalError) -> Seq<char> {
    match e {
        SEvalError::UnboundSymbol(s) => "unbound symbol: "@ + s,
        SEvalError::NotAFunction(s) => "not a function: "@ + s,
        SEvalError::BadForm(s) => "bad special form: "@ + s,
        SEvalError::ArityMismatch { expected, got } => "arity mismatch: expected "@ + crate::text::nat_text(
            expected as nat,
        ) + ", got "@ + crate::text::nat_text(got as nat),
        SEvalError::TypeError(s) => "type error: "@ + s,
    }
}

impl EvalError {
    /// The message that describes the error.
    pub fn message(&self) -> (m: String)
        ensures
            m@ == eval_error_text(self@),
    {
        match self {
            EvalError::UnboundSymbol(s) => {
                let mut m = String::from_str("unbound symbol: ");
                push_all(&mut m, s);
                m
            },
            EvalError::NotAFunction(s) => {
                let mut m = String::from_str("not a function: ");
                push_all(&mut m, s);
                m
            },
            EvalError::BadForm(s) => {
                let mut m = String::from_str("bad special form: ");
                push_all(&mut m, s);
                m
            },
            EvalError::ArityMismatch { expected, got } => {
                let mut m = String::from_str("arity mismatch: expected ");
                push_all(&mut m, &crate::text::u64_to_text(*expected as u64));
                m.append(", got ");
                push_all(&mut m, &crate::text::u64_to_text(*got as u64));
                m
            },
            EvalError::TypeError(s) => {
                let mut m = String::from_str("type error: ");
                push_all(&mut m, s);
                m
            },
        }
    }
}

} // verus!
