use vstd::prelude::*;
use crate::graph::node::{NodeKind, SNode};
use crate::lisp::ast::{Expr, SExpr, exprs_view, lemma_exprs_view, lemma_exprs_view_take};
use crate::lisp::effect::{Effect, SEffect, effects_view};
use crate::lisp::value::{SValue, Value, lemma_values_view, lemma_values_view_take, strings_view, values_view};
use crate::text::{int_text, int_to_text, nat_text, push_all, push_char, u64_to_text};

verus! {

broadcast use vstd::std_specs::vec::group_vec_axioms;

// ---------------------------------------------------------------------------
// The JSON text of graph nodes and effect logs, as serde_json writes the
// serde-derived forms (externally tagged enums, fields in declaration order,
// no whitespace).
// ---------------------------------------------------------------------------

/// How serde_json writes one character inside a string literal: `"` and `\`
/// behind a backslash, backspace, tab, newline, form feed and carriage return
/// as `\b`, `\t`, `\n`, `\f`, `\r`, any other control character below
/// U+0020 as `\u00` and two lower-case hexadecimal digits, and every other
/// character as itself.
pub open spec fn json_escape(c: char) -> Seq<char> {
    if c == '"' {
        seq!['\\', '"']
    } else if c == '\\' {
        seq!['\\', '\\']
    } else if c == '\u{8}' {
        seq!['\\', 'b']
    } else if c == '\t' {
        seq!['\\', 't']
    } else if c == '\n' {
        seq!['\\', 'n']
    } else if c == '\u{c}' {
        seq!['\\', 'f']
    } else if c == '\r' {
        seq!['\\', 'r']
    } else if (c as u32) < 0x20 {
        seq![
            '\\',
            'u',
            '0',
            '0',
            crate::ledger::hash::hex_char((c as u32) as int / 16),
            crate::ledger::hash::hex_char((c as u32) as int % 16),
        ]
    } else {
        seq![c]
    }
}

/// The characters of `s`, each written as `json_escape` writes it.
pub open spec fn json_escaped(s: Seq<char>) -> Seq<char>
    decreases s.len(),
{
    if s.len() == 0 {
        Seq::empty()
    } else {
        json_escaped(s.drop_last()) + json_escape(s[s.len() - 1])
    }
}

/// The JSON string literal that `serde_json::to_string` writes for `s`.
pub open spec fn json_string(s: Seq<char>) -> Seq<char> {
    seq!['"'] + json_escaped(s) + seq!['"']
}

/// `serde_json::to_string` on a string slice: the string literal in double
/// quotes, each character escaped as serde_json's escape table says (see
/// `json_escape`). Serialising a `&str` cannot fail.
#[verifier::external_body]
fn json_quote(s: &str) -> (r: String)
    ensures
        r@ == json_string(s@),
{
    serde_json::to_string(s).unwrap_or_default()
}

/// Comma-separated parts.
pub open spec fn join_json(parts: Seq<Seq<char>>) -> Seq<char>
    decreases parts.len(),
{
    if parts.len() == 0 {
        Seq::empty()
    } else if parts.len() == 1 {
        parts[0]
    } else {
        join_json(parts.drop_last()) + seq![','] + parts[parts.len() - 1]
    }
}

/// A JSON array of strings.
pub open spec fn strings_json(ss: Seq<Seq<char>>) -> Seq<char> {
    seq!['['] + join_json(ss.map_values(|s: Seq<char>| json_string(s))) + seq![']']
}

/// The JSON form of an expression.
pub open spec fn expr_json(e: SExpr) -> Seq<char>
    decreases e,
{
    match e {
        SExpr::Number(n) => "{\"Number\":"@ + int_text(n as int) + seq!['}'],
        SExpr::Symbol(s) => "{\"Symbol\":"@ + json_string(s) + seq!['}'],
        SExpr::List(es) => "{\"List\":["@ + exprs_json(es) + seq![']', '}'],
    }
}

/// The JSON forms of expressions, comma-separated.
pub open spec fn exprs_json(es: Seq<SExpr>) -> Seq<char>
    decreases es,
{
    if es.len() == 0 {
        Seq::empty()
    } else if es.len() == 1 {
        expr_json(es[0])
    } else {
        exprs_json(es.drop_last()) + seq![','] + expr_json(es[es.len() - 1])
    }
}

/// The JSON form of a node.
pub open spec fn node_json(n: SNode) -> Seq<char> {
    match n {
        SNode::Sig { name, args, ret, effects } => "{\"FuncSig\":{\"name\":"@ + json_string(name)
            + ",\"args\":"@ + strings_json(args) + ",\"ret\":"@ + match ret {
            Some(r) => json_string(r),
            None => "null"@,
        } + ",\"effects\":"@ + strings_json(effects) + "}}"@,
        SNode::Body { sig, ast } => "{\"FuncBody\":{\"sig_id\":"@ + nat_text(sig as nat)
            + ",\"ast\":"@ + expr_json(ast) + "}}"@,
    }
}

/// The JSON form of a value; `None` for a closure (or a list holding one),
/// which has no serialized form.
pub open spec fn value_json(v: SValue) -> Option<Seq<char>>
    decreases v,
{
    match v {
        SValue::Number(n) => Some("{\"Number\":"@ + int_text(n as int) + seq!['}']),
        SValue::Symbol(s) => Some("{\"Symbol\":"@ + json_string(s) + seq!['}']),
        SValue::List(vs) => match values_json(vs) {
            Some(t) => Some("{\"List\":["@ + t + seq![']', '}']),
            None => None,
        },
        SValue::Nil => Some("\"Nil\""@),
        SValue::Bool(b) => Some(
            if b {
                "{\"Bool\":true}"@
            } else {
                "{\"Bool\":false}"@
            },
        ),
        SValue::Str(s) => Some("{\"String\":"@ + json_string(s) + seq!['}']),
        SValue::Lambda { .. } => None,
    }
}

/// The JSON forms of values, comma-separated; `None` if one has none.
pub open spec fn values_json(vs: Seq<SValue>) -> Option<Seq<char>>
    decreases vs,
{
    if vs.len() == 0 {
        Some(Seq::empty())
    } else if vs.len() == 1 {
        value_json(vs[0])
    } else {
        match (values_json(vs.drop_last()), value_json(vs[vs.len() - 1])) {
            (Some(a), Some(b)) => Some(a + seq![','] + b),
            _ => None,
        }
    }
}

/// The JSON form of an effect record.
pub open spec fn effect_json(e: SEffect) -> Option<Seq<char>> {
    match values_json(e.args) {
        Some(a) => Some(
            "{\"cap_id\":"@ + nat_text(e.cap as nat) + ",\"op\":"@ + json_string(e.op)
                + ",\"args\":["@ + a + seq![']', '}'],
        ),
        None => None,
    }
}

/// The effect records' JSON forms, comma-separated; `None` if one has none.
pub open spec fn effect_list_json(es: Seq<SEffect>) -> Option<Seq<char>>
    decreases es.len(),
{
    if es.len() == 0 {
        Some(Seq::empty())
    } else if es.len() == 1 {
        effect_json(es[0])
    } else {
        match (effect_list_json(es.drop_last()), effect_json(es[es.len() - 1])) {
            (Some(a), Some(b)) => Some(a + seq![','] + b),
            _ => None,
        }
    }
}

/// The JSON array of an effect log; `None` if a record holds a closure.
pub open spec fn effects_json(es: Seq<SEffect>) -> Option<Seq<char>> {
    match effect_list_json(es) {
        Some(t) => Some(seq!['['] + t + seq![']']),
        None => None,
    }
}

fn write_strings_json(out: &mut String, ss: &Vec<String>)
    ensures
        final(out)@ == old(out)@ + strings_json(strings_view(ss@)),
{
    let ghost q = strings_view(ss@).map_values(|s: Seq<char>| json_string(s));
    push_char(out, '[');
    let ghost start = out@;
    let mut i: usize = 0;
    while i < ss.len()
        invariant
            i <= ss.len(),
            q == strings_view(ss@).map_values(|s: Seq<char>| json_string(s)),
            q.len() == ss@.len(),
            forall|k: int| 0 <= k < ss@.len() ==> #[trigger] q[k] == json_string(ss@[k]@),
            out@ == start + join_json(q.take(i as int)),
        decreases ss.len() - i,
    {
        let t = json_quote(ss[i].as_str());
        if i > 0 {
            push_char(out, ',');
        }
        push_all(out, &t);
        proof {
            assert(q.take(i + 1).drop_last() == q.take(i as int));
            assert(q.take(i + 1)[i as int] == q[i as int]);
        }
        i += 1;
    }
    assert(q.take(ss@.len() as int) == q);
    push_char(out, ']');
}

fn write_expr_json(out: &mut String, e: &Expr)
    ensures
        final(out)@ == old(out)@ + expr_json(e@),
    decreases e,
{
    match e {
        Expr::Number(n) => {
            out.append("{\"Number\":");
            push_all(out, &int_to_text(*n));
            push_char(out, '}');
        },
        Expr::Symbol(s) => {
            out.append("{\"Symbol\":");
            push_all(out, &json_quote(s.as_str()));
            push_char(out, '}');
        },
        Expr::List(es) => {
            out.append("{\"List\":[");
            let ghost start = out@;
            let mut i: usize = 0;
            while i < es.len()
                invariant
                    i <= es.len(),
                    *e == Expr::List(*es),
                    out@ == start + exprs_json(exprs_view(es@.take(i as int))),
                decreases es.len() - i,
            {
                proof {
                    assert(decreases_to!(*es => es[i as int]));
                    assert(decreases_to!(*e => (*e)->List_0));
                    lemma_exprs_view_take(es@, i as int);
                    lemma_exprs_view(es@.take(i + 1));
                }
                if i > 0 {
                    push_char(out, ',');
                }
                write_expr_json(out, &es[i]);
                proof {
                    let v = exprs_view(es@.take(i + 1));
                    assert(v.drop_last() == exprs_view(es@.take(i as int)));
                    assert(v[v.len() - 1] == es@[i as int]@);
                }
                i += 1;
            }
            assert(es@.take(es.len() as int) == es@);
            push_char(out, ']');
            push_char(out, '}');
        },
    }
}

/// The JSON text of a node.
pub fn node_json_text(n: &NodeKind) -> (s: String)
    ensures
        s@ == node_json(n@),
{
    let mut out = String::new();
    match n {
        NodeKind::FuncSig { name, args, ret, effects } => {
            out.append("{\"FuncSig\":{\"name\":");
            push_all(&mut out, &json_quote(name.as_str()));
            out.append(",\"args\":");
            write_strings_json(&mut out, args);
            out.append(",\"ret\":");
            match ret {
                Some(r) => push_all(&mut out, &json_quote(r.as_str())),
                None => out.append("null"),
            }
            out.append(",\"effects\":");
            write_strings_json(&mut out, effects);
            out.append("}}");
        },
        NodeKind::FuncBody { sig_id, ast } => {
            out.append("{\"FuncBody\":{\"sig_id\":");
            push_all(&mut out, &u64_to_text(sig_id.0));
            out.append(",\"ast\":");
            write_expr_json(&mut out, ast);
            out.append("}}");
        },
    }
    out
}

fn write_value_json(out: &mut String, v: &Value) -> (ok: bool)
    ensures
        ok == value_json(v@) is Some,
        ok ==> final(out)@ == old(out)@ + value_json(v@)->0,
    decreases v,
{
    match v {
        Value::Number(n) => {
            out.append("{\"Number\":");
            push_all(out, &int_to_text(*n));
            push_char(out, '}');
            true
        },
        Value::Symbol(s) => {
            out.append("{\"Symbol\":");
            push_all(out, &json_quote(s.as_str()));
            push_char(out, '}');
            true
        },
        Value::List(vs) => {
            out.append("{\"List\":[");
            let ghost start = out@;
            let mut i: usize = 0;
            while i < vs.len()
                invariant
                    i <= vs.len(),
                    *v == Value::List(*vs),
                    values_json(values_view(vs@.take(i as int))) is Some,
                    out@ == start + values_json(values_view(vs@.take(i as int)))->0,
                decreases vs.len() - i,
            {
                proof {
                    assert(decreases_to!(*vs => vs[i as int]));
                    assert(decreases_to!(*v => (*v)->List_0));
                    lemma_values_view_take(vs@, i as int);
                    lemma_values_view(vs@.take(i + 1));
                    let w = values_view(vs@.take(i + 1));
                    assert(w.drop_last() == values_view(vs@.take(i as int)));
                    assert(w[w.len() - 1] == vs@[i as int]@);
                }
                if i > 0 {
                    push_char(out, ',');
                }
                if !write_value_json(out, &vs[i]) {
                    proof {
                        lemma_values_view(vs@);
                        lemma_values_json_none(values_view(vs@), i as int);
                    }
                    return false;
                }
                i += 1;
            }
            assert(vs@.take(vs.len() as int) == vs@);
            push_char(out, ']');
            push_char(out, '}');
            true
        },
        Value::Nil => {
            out.append("\"Nil\"");
            true
        },
        Value::Bool(b) => {
            if *b {
                out.append("{\"Bool\":true}");
            } else {
                out.append("{\"Bool\":false}");
            }
            true
        },
        Value::String(s) => {
            out.append("{\"String\":");
            push_all(out, &json_quote(s.as_str()));
            push_char(out, '}');
            true
        },
        Value::Lambda { .. } => false,
    }
}

proof fn lemma_values_json_none(vs: Seq<SValue>, i: int)
    requires
        0 <= i < vs.len(),
        value_json(vs[i]) is None,
    ensures
        values_json(vs) is None,
    decreases vs.len(),
{
    if i < vs.len() - 1 {
        assert(vs.drop_last()[i] == vs[i]);
        lemma_values_json_none(vs.drop_last(), i);
    }
}

proof fn lemma_effect_list_none(es: Seq<SEffect>, i: int)
    requires
        0 <= i < es.len(),
        effect_json(es[i]) is None,
    ensures
        effect_list_json(es) is None,
    decreases es.len(),
{
    if i < es.len() - 1 {
        assert(es.drop_last()[i] == es[i]);
        lemma_effect_list_none(es.drop_last(), i);
    }
}

fn write_effect_json(out: &mut String, e: &Effect) -> (ok: bool)
    ensures
        ok == effect_json(e@) is Some,
        ok ==> final(out)@ == old(out)@ + effect_json(e@)->0,
{
    out.append("{\"cap_id\":");
    push_all(out, &u64_to_text(e.cap_id.0));
    out.append(",\"op\":");
    push_all(out, &json_quote(e.op.as_str()));
    out.append(",\"args\":[");
    let ghost start = out@;
    let mut i: usize = 0;
    while i < e.args.len()
        invariant
            i <= e.args.len(),
            values_json(values_view(e.args@.take(i as int))) is Some,
            out@ == start + values_json(values_view(e.args@.take(i as int)))->0,
        decreases e.args.len() - i,
    {
        proof {
            lemma_values_view_take(e.args@, i as int);
            lemma_values_view(e.args@.take(i + 1));
            let w = values_view(e.args@.take(i + 1));
            assert(w.drop_last() == values_view(e.args@.take(i as int)));
            assert(w[w.len() - 1] == e.args@[i as int]@);
        }
        if i > 0 {
            push_char(out, ',');
        }
        if !write_value_json(out, &e.args[i]) {
            proof {
                lemma_values_view(e.args@);
                lemma_values_json_none(values_view(e.args@), i as int);
            }
            return false;
        }
        i += 1;
    }
    assert(e.args@.take(e.args.len() as int) == e.args@);
    push_char(out, ']');
    push_char(out, '}');
    true
}

/// The JSON text of an effect log, or `None` when a record holds a closure.
pub fn effects_json_text(es: &[Effect]) -> (r: Option<String>)
    ensures
        match effects_json(effects_view(es@)) {
            Some(t) => r matches Some(s) && s@ == t,
            None => r is None,
        },
{
    let ghost v = effects_view(es@);
    let mut out = String::new();
    push_char(&mut out, '[');
    let ghost start = out@;
    let mut i: usize = 0;
    while i < es.len()
        invariant
            i <= es.len(),
            v == effects_view(es@),
            v.len() == es@.len(),
            effect_list_json(v.take(i as int)) is Some,
            out@ == start + effect_list_json(v.take(i as int))->0,
        decreases es.len() - i,
    {
        proof {
            assert(v.take(i + 1).drop_last() == v.take(i as int));
            assert(v.take(i + 1)[i as int] == es@[i as int]@);
        }
        if i > 0 {
            push_char(&mut out, ',');
        }
        if !write_effect_json(&mut out, &es[i]) {
            proof {
                lemma_effect_list_none(v, i as int);
            }
            return None;
        }
        i += 1;
    }
    assert(v.take(es.len() as int) == v);
    push_char(&mut out, ']');
    Some(out)
}

} // verus!
