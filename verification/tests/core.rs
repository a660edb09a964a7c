use substrate::lisp::ast::Expr;
use substrate::lisp::effect::{CapabilityId, Eff, Effect};
use substrate::lisp::eval::{eval, eval_program, try_eval, EvalError};
use substrate::lisp::parse::{parse, parse_many, ParseError};
use substrate::lisp::value::{Env, Value};

#[test]
fn eval_number() {
    let expr = parse("42").unwrap();
    let result = eval(&expr, &Env::new()).unwrap();
    assert_eq!(result.value, Value::Number(42));
    assert!(result.effects.is_empty());
}

#[test]
fn eval_arithmetic() {
    let expr = parse("(+ 1 2)").unwrap();
    let result = eval(&expr, &Env::new()).unwrap();
    assert_eq!(result.value, Value::Number(3));
}

#[test]
fn eval_nested_arithmetic() {
    let expr = parse("(* (+ 2 3) (- 10 4))").unwrap();
    let result = eval(&expr, &Env::new()).unwrap();
    assert_eq!(result.value, Value::Number(30));
}

#[test]
fn eval_if_true() {
    let expr = parse("(if (< 1 2) 10 20)").unwrap();
    let result = eval(&expr, &Env::new()).unwrap();
    assert_eq!(result.value, Value::Number(10));
}

#[test]
fn eval_if_false() {
    let expr = parse("(if (< 2 1) 10 20)").unwrap();
    let result = eval(&expr, &Env::new()).unwrap();
    assert_eq!(result.value, Value::Number(20));
}

#[test]
fn eval_lambda_application() {
    let expr = parse("((lambda (x y) (+ x y)) 3 4)").unwrap();
    let result = eval(&expr, &Env::new()).unwrap();
    assert_eq!(result.value, Value::Number(7));
}

#[test]
fn eval_effect_form() {
    let expr = parse("(effect 0 write 42)").unwrap();
    let result = eval(&expr, &Env::new()).unwrap();
    assert_eq!(result.value, Value::Nil);
    assert_eq!(result.effects.len(), 1);
    assert_eq!(result.effects[0].cap_id, CapabilityId(0));
    assert_eq!(result.effects[0].op, "write");
    assert_eq!(result.effects[0].args, vec![Value::Number(42)]);
}

#[test]
fn eval_eval_deterministic() {
    let expr = parse("(+ (* 3 4) (- 10 5))").unwrap();
    let r1 = eval(&expr, &Env::new()).unwrap();
    let r2 = eval(&expr, &Env::new()).unwrap();
    assert_eq!(r1, r2);
}

#[test]
fn parse_number() {
    assert_eq!(parse("42").unwrap(), Expr::Number(42));
}

#[test]
fn parse_symbol() {
    assert_eq!(parse("foo").unwrap(), Expr::Symbol("foo".to_string()));
}

#[test]
fn parse_list() {
    let expr = parse("(+ 1 2)").unwrap();
    assert_eq!(
        expr,
        Expr::List(vec![
            Expr::Symbol("+".to_string()),
            Expr::Number(1),
            Expr::Number(2),
        ])
    );
}

#[test]
fn parse_nested() {
    let expr = parse("(if (< x 0) (- 0 x) x)").unwrap();
    assert!(matches!(expr, Expr::List(_)));
}

#[test]
fn roundtrip() {
    let input = "(define add (lambda (a b) (+ a b)))";
    let expr = parse(input).unwrap();
    let printed = expr.to_string();
    let reparsed = parse(&printed).unwrap();
    assert_eq!(expr, reparsed);
}

// ---------------------------------------------------------------------------
// Further cases
// ---------------------------------------------------------------------------

#[test]
fn parse_errors() {
    assert_eq!(parse(""), Err(ParseError::UnexpectedEof));
    assert_eq!(parse("(+ 1"), Err(ParseError::UnexpectedEof));
    assert_eq!(parse(")"), Err(ParseError::UnexpectedCloseParen));
    assert_eq!(parse("1 2"), Err(ParseError::TrailingInput));
    assert_eq!(
        ParseError::TrailingInput.message(),
        "trailing input after expression"
    );
}

#[test]
fn parse_quote_and_string_forms() {
    let quoted = parse("'x").unwrap();
    assert_eq!(quoted.to_string(), "(quote x)");
    let text = parse("\"hi\"").unwrap();
    assert_eq!(text.to_string(), "(quote hi)");
    let commented = parse("; note\n(+ 1 2)").unwrap();
    assert_eq!(commented.to_string(), "(+ 1 2)");
}

#[test]
fn parse_integer_limits() {
    assert_eq!(
        parse("-9223372036854775808").unwrap(),
        Expr::Number(i64::MIN)
    );
    assert_eq!(
        parse("9223372036854775808").unwrap(),
        Expr::Symbol("9223372036854775808".to_string())
    );
}

#[test]
fn parse_many_reads_every_expression() {
    let exprs = parse_many("(define x 10) (+ x 1)").unwrap();
    assert_eq!(exprs.len(), 2);
    let result = eval_program(&exprs).unwrap();
    assert_eq!(result.value, Value::Number(11));
}

#[test]
fn print_parse_roundtrip_cases() {
    for input in [
        "-7",
        "(a (b (c 1 -2)) ())",
        "(begin (define x 10) (+ x 1))",
        "(effect 0 write 42)",
    ] {
        let expr = parse(input).unwrap();
        assert_eq!(expr.to_string(), input);
        assert_eq!(parse(&expr.to_string()).unwrap(), expr);
    }
}

#[test]
fn eval_errors() {
    let unbound = eval(&parse("y").unwrap(), &Env::new());
    assert_eq!(unbound, Err(EvalError::UnboundSymbol("y".to_string())));
    assert_eq!(
        unbound.unwrap_err().message(),
        "unbound symbol: y"
    );
    let arity = eval(&parse("((lambda (x) x) 1 2)").unwrap(), &Env::new());
    assert!(matches!(arity, Err(EvalError::ArityMismatch { expected: 1, got: 2 })));
    let not_fn = eval(&parse("(1 2)").unwrap(), &Env::new());
    assert!(matches!(not_fn, Err(EvalError::NotAFunction(_))));
    let bad = eval(&parse("(if)").unwrap(), &Env::new());
    assert!(matches!(bad, Err(EvalError::BadForm(_))));
    let typed = eval(&parse("(+ 1 (quote a))").unwrap(), &Env::new());
    assert!(matches!(typed, Err(EvalError::TypeError(_))));
}

#[test]
fn eval_overflow_does_not_complete() {
    let expr = parse("(+ 9223372036854775807 1)").unwrap();
    assert!(try_eval(&expr, &Env::new()).is_none());
    let ok = parse("(+ 1 2)").unwrap();
    assert!(try_eval(&ok, &Env::new()).is_some());
}

#[test]
fn effects_are_recorded_in_order() {
    let expr = parse("(begin (effect 0 first 1) (effect 1 second 2))").unwrap();
    let result = eval(&expr, &Env::new()).unwrap();
    let ops: Vec<&str> = result.effects.iter().map(|e| e.op.as_str()).collect();
    assert_eq!(ops, vec!["first", "second"]);
    assert_eq!(result.effects[1].cap_id, CapabilityId(1));
}

#[test]
fn eff_monad_laws_on_values() {
    let record = |op: &str| Effect {
        cap_id: CapabilityId(0),
        op: op.to_string(),
        args: vec![],
    };
    let f = |x: i64| Eff {
        value: x + 1,
        effects: vec![Effect {
            cap_id: CapabilityId(0),
            op: "f".to_string(),
            args: vec![],
        }],
    };
    // Left identity: pure(a).bind(f) == f(a).
    assert_eq!(Eff::pure(1i64).bind(f), f(1));
    // Right identity: m.bind(pure) == m.
    let m = Eff { value: 5i64, effects: vec![record("m")] };
    assert_eq!(m.clone().bind(Eff::pure), m);
    // Effects concatenate in order.
    let bound = m.clone().bind(f);
    assert_eq!(bound.value, 6);
    assert_eq!(bound.effects, vec![record("m"), record("f")]);
    // map keeps the effects.
    assert_eq!(m.clone().map(|v| v * 2).effects, m.effects);
}

fn nested_sum(depth: usize) -> Expr {
    let mut e = Expr::Number(0);
    for _ in 0..depth {
        e = Expr::List(vec![Expr::Symbol("+".to_string()), Expr::Number(1), e]);
    }
    e
}

#[test]
fn deep_nesting_within_the_bound_evaluates() {
    let depth = (substrate::lisp::eval::EVAL_DEPTH - 6) as usize;
    let e = nested_sum(depth);
    let r = eval(&e, &Env::new()).unwrap();
    assert_eq!(r.value, Value::Number(depth as i64));
    // One level past the bound does not complete.
    let too_deep = nested_sum(substrate::lisp::eval::EVAL_DEPTH as usize);
    assert!(try_eval(&too_deep, &Env::new()).is_none());
}

#[test]
fn application_effects_come_head_arguments_body() {
    let e = parse("((begin (effect 0 h 0) (lambda (x) (effect 0 b x))) (begin (effect 0 a 1) 2) 5)")
        .unwrap();
    // Arity mismatch still evaluates head and arguments first.
    assert!(eval(&e, &Env::new()).is_err());
    let e = parse("((begin (effect 0 h 0) (lambda (x) (effect 0 b x))) (begin (effect 0 a 1) 2))")
        .unwrap();
    let r = eval(&e, &Env::new()).unwrap();
    let ops: Vec<String> = r.effects.iter().map(|x| x.op.clone()).collect();
    assert_eq!(ops, vec!["h".to_string(), "a".to_string(), "b".to_string()]);
    assert_eq!(r.effects[2].args, vec![Value::Number(2)]);
}
