use vstd::prelude::*;
use crate::lisp::ast::{SExpr, expr_text, list_text};
use crate::lisp::parse::{
    all_digits, atom_end, comment_end, digits_value, is_delim, is_digit, is_ws, lemma_parse_advances,
    lemma_scan_bounds, parse_at, parse_i64, parse_items, parse_spec, quote_end, quote_symbol,
    tokenize_spec, tokens_from,
};
use crate::text::{digit_char, int_text, nat_text};

verus! {

// ---------------------------------------------------------------------------
// Printing an expression and parsing the text gives the expression back
// ---------------------------------------------------------------------------

/// A symbol that prints as a token of its own: not empty, without whitespace
/// or parentheses, not starting a comment, a quotation or a string literal,
/// and not spelling an integer.
pub open spec fn atom_symbol(s: Seq<char>) -> bool {
    &&& s.len() > 0
    &&& forall|i: int| 0 <= i < s.len() ==> !is_delim(#[trigger] s[i])
    &&& s[0] != ';' && s[0] != '\'' && s[0] != '"'
    &&& parse_i64(s) is None
}

/// An expression whose symbols are all atom symbols.
pub open spec fn printable(e: SExpr) -> bool
    decreases e,
{
    match e {
        SExpr::Number(_) => true,
        SExpr::Symbol(s) => atom_symbol(s),
        SExpr::List(es) => forall|i: int| 0 <= i < es.len() ==> printable(#[trigger] es[i]),
    }
}

/// The tokens of an expression's printed form.
pub open spec fn expr_tokens(e: SExpr) -> Seq<Seq<char>>
    decreases e,
{
    match e {
        SExpr::Number(n) => seq![int_text(n as int)],
        SExpr::Symbol(s) => seq![s],
        SExpr::List(es) => seq![seq!['(']] + list_tokens(es) + seq![seq![')']],
    }
}

/// The tokens of a list's printed elements.
pub open spec fn list_tokens(es: Seq<SExpr>) -> Seq<Seq<char>>
    decreases es,
{
    if es.len() == 0 {
        Seq::empty()
    } else {
        list_tokens(es.drop_last()) + expr_tokens(es[es.len() - 1])
    }
}

proof fn lemma_split<A>(s: Seq<A>, i: int, a: Seq<A>, b: Seq<A>)
    requires
        0 <= i,
        i + a.len() + b.len() <= s.len(),
        s.subrange(i, i + a.len() + b.len()) == a + b,
    ensures
        s.subrange(i, i + a.len()) == a,
        s.subrange(i + a.len(), i + a.len() + b.len()) == b,
{
    let w = s.subrange(i, i + a.len() + b.len());
    assert(w.len() == a.len() + b.len());
    assert forall|k: int| 0 <= k < a.len() implies s.subrange(i, i + a.len())[k] == a[k] by {
        assert(w[k] == s[i + k]);
        assert((a + b)[k] == a[k]);
    }
    assert forall|k: int| 0 <= k < b.len() implies s.subrange(
        i + a.len(),
        i + a.len() + b.len(),
    )[k] == b[k] by {
        let m = a.len() + k;
        assert(w[m] == s[i + m]);
        assert((a + b)[m] == b[k]);
    }
    assert(s.subrange(i, i + a.len()) =~= a);
    assert(s.subrange(i + a.len(), i + a.len() + b.len()) =~= b);
}

proof fn lemma_nat_text(n: nat)
    ensures
        nat_text(n).len() >= 1,
        all_digits(nat_text(n)),
        digits_value(nat_text(n)) == n,
    decreases n,
{
    let d = (n % 10) as int;
    assert(digit_char(d) as u32 == d + 48);
    if n >= 10 {
        lemma_nat_text(n / 10);
        let t = nat_text(n);
        let p = nat_text(n / 10);
        assert(t.drop_last() == p);
        assert(t[t.len() - 1] == digit_char(d));
        assert(digits_value(t) == digits_value(p) * 10 + d);
        assert((n / 10) * 10 + d == n);
        assert(forall|i: int| 0 <= i < p.len() ==> t[i] == p[i]);
        assert(is_digit(digit_char((n % 10) as int)));
    } else {
        let t = nat_text(n);
        assert(t == seq![digit_char(n as int)]);
        assert(t.drop_last() =~= Seq::<char>::empty());
        assert(digits_value(Seq::<char>::empty()) == 0);
        assert(d == n);
        assert(is_digit(digit_char(n as int)));
    }
}

proof fn lemma_int_text(n: i64)
    ensures
        parse_i64(int_text(n as int)) == Some(n),
        int_text(n as int).len() >= 1,
        int_text(n as int)[0] == '-' || is_digit(int_text(n as int)[0]),
        forall|i: int|
            0 <= i < int_text(n as int).len() ==> !is_delim(#[trigger] int_text(n as int)[i]),
{
    let t = int_text(n as int);
    if n < 0 {
        let m = (-(n as int)) as nat;
        lemma_nat_text(m);
        assert(t.drop_first() =~= nat_text(m));
        assert(forall|i: int| 0 < i < t.len() ==> t[i] == nat_text(m)[i - 1]);
    } else {
        lemma_nat_text(n as nat);
        assert(is_digit(t[0]));
    }
    assert forall|i: int| 0 <= i < t.len() implies !is_delim(#[trigger] t[i]) by {
        if n < 0 {
            if i > 0 {
                assert(t[i] == nat_text((-(n as int)) as nat)[i - 1]);
                assert(is_digit(nat_text((-(n as int)) as nat)[i - 1]));
            }
        } else {
            assert(is_digit(t[i]));
        }
    }
}

/// An atom runs to the first delimiter.
proof fn lemma_atom_run(cs: Seq<char>, i: int, j: int)
    requires
        0 <= i <= j <= cs.len(),
        forall|k: int| i <= k < j ==> !is_delim(#[trigger] cs[k]),
        j == cs.len() || is_delim(cs[j]),
    ensures
        atom_end(cs, i) == j,
    decreases j - i,
{
    if i < j {
        lemma_atom_run(cs, i + 1, j);
    }
}

/// Where an atom token's text stands, the tokens go on with it.
proof fn lemma_atom_tokens(cs: Seq<char>, i: int, t: Seq<char>)
    requires
        0 <= i,
        i + t.len() <= cs.len(),
        t.len() >= 1,
        cs.subrange(i, i + t.len()) == t,
        forall|k: int| 0 <= k < t.len() ==> !is_delim(#[trigger] t[k]),
        t[0] != ';' && t[0] != '\'' && t[0] != '"',
        i + t.len() == cs.len() || is_delim(cs[i + t.len()]),
    ensures
        tokens_from(cs, i) == seq![t] + tokens_from(cs, i + t.len()),
{
    assert forall|k: int| i <= k < i + t.len() implies !is_delim(#[trigger] cs[k]) by {
        assert(cs[k] == cs.subrange(i, i + t.len())[k - i]);
    }
    assert(cs[i] == t[0]) by {
        assert(cs[i] == cs.subrange(i, i + t.len())[0]);
    }
    lemma_atom_run(cs, i, i + t.len());
}

/// The tokens of the text where an expression's printed form stands: those of
/// the expression, then those after it (an atom must be followed by a
/// delimiter or the end).
proof fn lemma_expr_tokens(cs: Seq<char>, i: int, e: SExpr)
    requires
        printable(e),
        0 <= i,
        i + expr_text(e).len() <= cs.len(),
        cs.subrange(i, i + expr_text(e).len()) == expr_text(e),
        (e is List) || i + expr_text(e).len() == cs.len() || is_delim(cs[i + expr_text(e).len()]),
    ensures
        tokens_from(cs, i) == expr_tokens(e) + tokens_from(cs, i + expr_text(e).len()),
    decreases e,
{
    match e {
        SExpr::Number(n) => {
            lemma_int_text(n);
            lemma_atom_tokens(cs, i, int_text(n as int));
        },
        SExpr::Symbol(s) => {
            lemma_atom_tokens(cs, i, s);
        },
        SExpr::List(es) => {
            let lt = list_text(es);
            let t = expr_text(e);
            assert(t == seq!['('] + lt + seq![')']);
            lemma_split(cs, i, seq!['('] + lt, seq![')']);
            lemma_split(cs, i, seq!['('], lt);
            assert(cs[i] == '(') by {
                assert(cs.subrange(i, i + 1)[0] == cs[i]);
            }
            assert(cs[i + 1 + lt.len()] == ')') by {
                assert(cs.subrange(i + 1 + lt.len(), i + 2 + lt.len())[0] == cs[i + 1 + lt.len()]);
            }
            assert forall|k: int| 0 <= k < es.len() implies printable(#[trigger] es[k]) by {}
            lemma_list_tokens(cs, i + 1, es);
            assert(tokens_from(cs, i) == seq![seq!['(']] + tokens_from(cs, i + 1));
            assert(tokens_from(cs, i + 1 + lt.len()) == seq![seq![')']] + tokens_from(
                cs,
                i + 2 + lt.len(),
            ));
            assert(expr_tokens(e) + tokens_from(cs, i + t.len()) =~= seq![seq!['(']] + (
            list_tokens(es) + (seq![seq![')']] + tokens_from(cs, i + 2 + lt.len()))));
        },
    }
}

/// The tokens of the text where a list's printed elements stand, followed by a
/// delimiter: those of the elements, then those after them.
proof fn lemma_list_tokens(cs: Seq<char>, j: int, es: Seq<SExpr>)
    requires
        forall|k: int| 0 <= k < es.len() ==> printable(#[trigger] es[k]),
        0 <= j,
        j + list_text(es).len() < cs.len(),
        cs.subrange(j, j + list_text(es).len()) == list_text(es),
        is_delim(cs[j + list_text(es).len()]),
    ensures
        tokens_from(cs, j) == list_tokens(es) + tokens_from(cs, j + list_text(es).len()),
    decreases es,
{
    if es.len() == 0 {
        assert(list_tokens(es) + tokens_from(cs, j) =~= tokens_from(cs, j));
    } else if es.len() == 1 {
        assert(list_text(es) == expr_text(es[0]));
        assert(es.drop_last() =~= Seq::<SExpr>::empty());
        assert(list_tokens(Seq::<SExpr>::empty()) == Seq::<Seq<char>>::empty());
        assert(list_tokens(es) =~= expr_tokens(es[0]));
        lemma_expr_tokens(cs, j, es[0]);
    } else {
        let d = es.subrange(0, es.len() - 1);
        assert(d == es.drop_last());
        let last = es[es.len() - 1];
        let ld = list_text(d);
        let tl = expr_text(last);
        assert(list_text(es) == ld + seq![' '] + tl);
        lemma_split(cs, j, ld + seq![' '], tl);
        lemma_split(cs, j, ld, seq![' ']);
        assert(cs[j + ld.len()] == ' ') by {
            assert(cs.subrange(j + ld.len(), j + ld.len() + 1)[0] == cs[j + ld.len()]);
        }
        assert(decreases_to!(es => d));
        assert forall|k: int| 0 <= k < d.len() implies printable(#[trigger] d[k]) by {
            assert(d[k] == es[k]);
        }
        lemma_list_tokens(cs, j, d);
        assert(tokens_from(cs, j + ld.len()) == tokens_from(cs, j + ld.len() + 1));
        assert(printable(es[es.len() - 1]));
        lemma_expr_tokens(cs, j + ld.len() + 1, last);
        assert(list_tokens(es) == list_tokens(d) + expr_tokens(last));
        assert(list_tokens(es) + tokens_from(cs, j + list_text(es).len()) =~= list_tokens(d) + (
        expr_tokens(last) + tokens_from(cs, j + ld.len() + 1 + tl.len())));
    }
}

/// A list's tokens are its first element's, then the rest's.
proof fn lemma_list_tokens_front(es: Seq<SExpr>)
    requires
        es.len() >= 1,
    ensures
        list_tokens(es) == expr_tokens(es[0]) + list_tokens(es.drop_first()),
    decreases es.len(),
{
    if es.len() == 1 {
        assert(es.drop_last() =~= Seq::<SExpr>::empty());
        assert(es.drop_first() =~= Seq::<SExpr>::empty());
        assert(list_tokens(es) =~= expr_tokens(es[0]) + list_tokens(es.drop_first()));
    } else {
        let d = es.drop_last();
        lemma_list_tokens_front(d);
        let f = es.drop_first();
        assert(f.drop_last() =~= d.drop_first());
        assert(f[f.len() - 1] == es[es.len() - 1]);
        assert(d[0] == es[0]);
        assert(list_tokens(es) =~= expr_tokens(es[0]) + list_tokens(f));
    }
}

proof fn lemma_first_token(e: SExpr)
    requires
        printable(e),
    ensures
        expr_tokens(e).len() >= 1,
        expr_tokens(e)[0] != seq![')'],
{
    match e {
        SExpr::Number(n) => {
            lemma_int_text(n);
            assert(int_text(n as int)[0] != ')');
        },
        SExpr::Symbol(s) => {
            assert(!is_delim(s[0]));
        },
        SExpr::List(es) => {
            assert((seq![seq!['(']] + list_tokens(es) + seq![seq![')']])[0] == seq!['(']);
            assert(seq!['('][0] != seq![')'][0]);
        },
    }
}

/// Parsing the tokens of an expression gives the expression.
proof fn lemma_parse_expr(toks: Seq<Seq<char>>, pos: int, e: SExpr)
    requires
        printable(e),
        0 <= pos,
        pos + expr_tokens(e).len() <= toks.len(),
        toks.subrange(pos, pos + expr_tokens(e).len()) == expr_tokens(e),
    ensures
        parse_at(toks, pos) == Ok::<(SExpr, int), crate::lisp::parse::ParseError>(
            (e, pos + expr_tokens(e).len()),
        ),
    decreases e,
{
    assert(toks[pos] == expr_tokens(e)[0]) by {
        assert(toks.subrange(pos, pos + expr_tokens(e).len())[0] == toks[pos]);
    }
    match e {
        SExpr::Number(n) => {
            lemma_int_text(n);
            let t = int_text(n as int);
            assert(t != seq!['(']) by {
                assert(t[0] != '(');
            }
            assert(t != seq![')']) by {
                assert(t[0] != ')');
            }
            assert(t != seq!['\'']) by {
                assert(t[0] != '\'');
            }
        },
        SExpr::Symbol(s) => {
            assert(!is_delim(s[0]));
            assert(s != seq!['(']) by {
                assert(s[0] != '(');
            }
            assert(s != seq![')']) by {
                assert(s[0] != ')');
            }
            assert(s != seq!['\'']) by {
                assert(s[0] != '\'');
            }
        },
        SExpr::List(es) => {
            let lt = list_tokens(es);
            assert(expr_tokens(e) == seq![seq!['(']] + lt + seq![seq![')']]);
            assert(seq![seq!['(']] + lt + seq![seq![')']] =~= seq![seq!['(']] + (lt + seq![seq![')']]));
            lemma_split(toks, pos, seq![seq!['(']], lt + seq![seq![')']]);
            assert forall|k: int| 0 <= k < es.len() implies printable(#[trigger] es[k]) by {}
            lemma_parse_items(toks, pos + 1, Seq::empty(), es);
            assert(Seq::<SExpr>::empty() + es =~= es);
        },
    }
}

/// Parsing the tokens of a list's elements and its closing parenthesis, after
/// elements `acc`, gives the whole list.
proof fn lemma_parse_items(toks: Seq<Seq<char>>, pos: int, acc: Seq<SExpr>, es: Seq<SExpr>)
    requires
        forall|k: int| 0 <= k < es.len() ==> printable(#[trigger] es[k]),
        0 <= pos,
        pos + list_tokens(es).len() + 1 <= toks.len(),
        toks.subrange(pos, pos + list_tokens(es).len() + 1) == list_tokens(es) + seq![seq![')']],
    ensures
        parse_items(toks, pos, acc) == Ok::<(SExpr, int), crate::lisp::parse::ParseError>(
            (SExpr::List(acc + es), pos + list_tokens(es).len() + 1),
        ),
    decreases es,
{
    if es.len() == 0 {
        assert(toks[pos] == seq![')']) by {
            assert(toks.subrange(pos, pos + 1)[0] == toks[pos]);
        }
        assert(acc + es =~= acc);
    } else {
        let e0 = es[0];
        let rest = es.subrange(1, es.len() as int);
        assert(rest == es.drop_first());
        lemma_list_tokens_front(es);
        let t0 = expr_tokens(e0);
        let lr = list_tokens(rest);
        assert(list_tokens(es) + seq![seq![')']] =~= t0 + (lr + seq![seq![')']]));
        lemma_split(toks, pos, t0, lr + seq![seq![')']]);
        lemma_first_token(e0);
        assert(toks[pos] == t0[0]) by {
            assert(toks.subrange(pos, pos + t0.len())[0] == toks[pos]);
        }
        assert(decreases_to!(es => es[0]));
        lemma_parse_expr(toks, pos, e0);
        assert(decreases_to!(es => rest));
        assert forall|k: int| 0 <= k < rest.len() implies printable(#[trigger] rest[k]) by {
            assert(rest[k] == es[k + 1]);
        }
        lemma_parse_items(toks, pos + t0.len(), acc.push(e0), rest);
        assert(acc.push(e0) + rest =~= acc + es);
    }
}

/// Printing an expression whose symbols are atom symbols, then parsing the
/// text, gives the expression back.
pub proof fn law_print_parse_roundtrip(e: SExpr)
    requires
        printable(e),
    ensures
        parse_spec(expr_text(e)) == Ok::<SExpr, crate::lisp::parse::ParseError>(e),
{
    let cs = expr_text(e);
    assert(cs.subrange(0, cs.len() as int) =~= cs);
    lemma_expr_tokens(cs, 0, e);
    assert(tokens_from(cs, cs.len() as int) == Seq::<Seq<char>>::empty());
    let toks = tokenize_spec(cs);
    assert(toks =~= expr_tokens(e));
    lemma_first_token(e);
    assert(toks.subrange(0, toks.len() as int) =~= toks);
    lemma_parse_expr(toks, 0, e);
}

// ---------------------------------------------------------------------------
// What the parser reads from a text without string literals prints back
// ---------------------------------------------------------------------------

/// A token of a text without string literals: a parenthesis, the quote mark,
/// or a run of characters other than whitespace and parentheses that does not
/// start a comment, a quotation or a string literal.
pub open spec fn plain_token(t: Seq<char>) -> bool {
    ||| t == seq!['(']
    ||| t == seq![')']
    ||| t == seq!['\'']
    ||| (t.len() > 0 && (forall|i: int| 0 <= i < t.len() ==> !is_delim(#[trigger] t[i]))
        && t[0] != ';' && t[0] != '\'' && t[0] != '"')
}

proof fn lemma_atom_chars(cs: Seq<char>, i: int, k: int)
    requires
        0 <= i <= k < atom_end(cs, i),
        atom_end(cs, i) <= cs.len(),
    ensures
        !is_delim(cs[k]),
    decreases cs.len() - i,
{
    if i < k {
        lemma_atom_chars(cs, i + 1, k);
    }
}

proof fn lemma_plain_tokens(cs: Seq<char>, i: int)
    requires
        forall|k: int| 0 <= k < cs.len() ==> cs[k] != '"',
    ensures
        forall|k: int| 0 <= k < tokens_from(cs, i).len() ==> plain_token(#[trigger] tokens_from(cs, i)[k]),
    decreases cs.len() - i,
{
    if 0 <= i < cs.len() {
        let c = cs[i];
        assert(c != '"');
        lemma_scan_bounds(cs, i);
        if is_ws(c) {
            lemma_plain_tokens(cs, i + 1);
            assert(tokens_from(cs, i) == tokens_from(cs, i + 1));
        } else if c == ';' {
            let j = comment_end(cs, i);
            if i < j <= cs.len() {
                lemma_plain_tokens(cs, j);
                assert(tokens_from(cs, i) == tokens_from(cs, j));
            } else {
                assert(tokens_from(cs, i).len() == 0);
            }
        } else if c == '(' || c == ')' || c == '\'' {
            lemma_plain_tokens(cs, i + 1);
            let rest = tokens_from(cs, i + 1);
            assert forall|k: int| 0 <= k < tokens_from(cs, i).len() implies plain_token(
                #[trigger] tokens_from(cs, i)[k],
            ) by {
                if k > 0 {
                    assert(tokens_from(cs, i)[k] == rest[k - 1]);
                } else {
                    assert(tokens_from(cs, i)[0] == seq![c]);
                    if c == '(' {
                        assert(seq![c] =~= seq!['(']);
                    } else if c == ')' {
                        assert(seq![c] =~= seq![')']);
                    } else {
                        assert(seq![c] =~= seq!['\'']);
                    }
                }
            }
        } else {
            let j = atom_end(cs, i);
            if i < j <= cs.len() {
                lemma_plain_tokens(cs, j);
                let t = cs.subrange(i, j);
                assert forall|m: int| 0 <= m < t.len() implies !is_delim(#[trigger] t[m]) by {
                    lemma_atom_chars(cs, i, i + m);
                }
                assert(t[0] == c);
                assert(plain_token(t));
                let rest = tokens_from(cs, j);
                assert forall|k: int| 0 <= k < tokens_from(cs, i).len() implies plain_token(
                    #[trigger] tokens_from(cs, i)[k],
                ) by {
                    if k > 0 {
                        assert(tokens_from(cs, i)[k] == rest[k - 1]);
                    } else {
                        assert(tokens_from(cs, i)[0] == t);
                    }
                }
            }
        }
    }
}

proof fn lemma_quote_printable()
    ensures
        atom_symbol(quote_symbol()),
{
    let q = quote_symbol();
    assert(q[0] == 'q');
    assert(!is_digit(q[0]));
    assert(parse_i64(q) is None);
}

proof fn lemma_parse_printable(toks: Seq<Seq<char>>, pos: int)
    requires
        forall|k: int| 0 <= k < toks.len() ==> plain_token(#[trigger] toks[k]),
    ensures
        parse_at(toks, pos) matches Ok((e, _)) ==> printable(e),
    decreases toks.len() - pos, 0int,
{
    if 0 <= pos < toks.len() {
        let tok = toks[pos];
        if tok == seq!['('] {
            lemma_items_printable(toks, pos + 1, Seq::empty());
        } else if tok == seq![')'] {
        } else if tok == seq!['\''] {
            lemma_parse_printable(toks, pos + 1);
            if let Ok((e, _)) = parse_at(toks, pos + 1) {
                lemma_quote_printable();
                let l = seq![SExpr::Symbol(quote_symbol()), e];
                assert forall|i: int| 0 <= i < l.len() implies printable(#[trigger] l[i]) by {}
            }
        } else {
            assert(plain_token(tok));
            assert(tok[0] != '"');
        }
    }
}

proof fn lemma_items_printable(toks: Seq<Seq<char>>, pos: int, acc: Seq<SExpr>)
    requires
        forall|k: int| 0 <= k < toks.len() ==> plain_token(#[trigger] toks[k]),
        forall|i: int| 0 <= i < acc.len() ==> printable(#[trigger] acc[i]),
    ensures
        parse_items(toks, pos, acc) matches Ok((e, _)) ==> printable(e),
    decreases toks.len() - pos, 1int,
{
    if 0 <= pos < toks.len() && toks[pos] != seq![')'] {
        lemma_parse_printable(toks, pos);
        match parse_at(toks, pos) {
            Ok((e, p)) => {
                if pos < p <= toks.len() {
                    let acc2 = acc.push(e);
                    assert forall|i: int| 0 <= i < acc2.len() implies printable(#[trigger] acc2[i]) by {
                        if i < acc.len() {
                            assert(acc2[i] == acc[i]);
                        }
                    }
                    lemma_items_printable(toks, p, acc2);
                }
            },
            Err(_) => {},
        }
    }
}

/// What the parser reads from a text without string literals prints as text
/// that parses to the same expression: parse, print and parse again gives
/// what the first parse gave.
pub proof fn law_parse_print_parse(cs: Seq<char>)
    requires
        forall|k: int| 0 <= k < cs.len() ==> cs[k] != '"',
        parse_spec(cs) is Ok,
    ensures
        printable(parse_spec(cs)->Ok_0),
        parse_spec(expr_text(parse_spec(cs)->Ok_0)) == parse_spec(cs),
{
    lemma_plain_tokens(cs, 0);
    lemma_parse_printable(tokenize_spec(cs), 0);
    law_print_parse_roundtrip(parse_spec(cs)->Ok_0);
}

} // verus!
