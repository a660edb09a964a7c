use vstd::prelude::*;
use crate::text::{int_text, int_to_text, push_all, push_char};

verus! {

broadcast use vstd::std_specs::vec::group_vec_axioms;

/// Abstract syntax of the tiny Lisp: numbers, symbols and lists.
#[derive(Debug, PartialEq, Eq)]
pub enum Expr {
    Number(i64),
    Symbol(String),
    List(Vec<Expr>),
}

/// The mathematical model of an expression.
pub enum SExpr {
    Number(i64),
    Symbol(Seq<char>),
    List(Seq<SExpr>),
}

pub open spec fn expr_view(e: Expr) -> SExpr
    decreases e,
{
    match e {
        Expr::Number(n) => SExpr::Number(n),
        Expr::Symbol(s) => SExpr::Symbol(s@),
        Expr::List(es) => SExpr::List(exprs_view(es@)),
    }
}

pub open spec fn exprs_view(es: Seq<Expr>) -> Seq<SExpr>
    decreases es,
{
    if es.len() == 0 {
        Seq::empty()
    } else {
        exprs_view(es.drop_last()).push(expr_view(es.last()))
    }
}

/// The model of a sequence of expressions has the same length and element-wise models.
pub proof fn lemma_exprs_view(es: Seq<Expr>)
    ensures
        exprs_view(es).len() == es.len(),
        forall|i: int| 0 <= i < es.len() ==> #[trigger] exprs_view(es)[i] == expr_view(es[i]),
    decreases es.len(),
{
    if es.len() > 0 {
        lemma_exprs_view(es.drop_last());
    }
}

/// Taking one more element extends the model by that element's model.
pub proof fn lemma_exprs_view_take(es: Seq<Expr>, i: int)
    requires
        0 <= i < es.len(),
    ensures
        exprs_view(es.take(i + 1)) == exprs_view(es.take(i)).push(expr_view(es[i])),
{
    assert(es.take(i + 1).drop_last() == es.take(i));
}

/// Printed form of an expression: numbers in decimal, symbols verbatim, lists in
/// parentheses with elements separated by one space.
pub open spec fn expr_text(e: SExpr) -> Seq<char>
    decreases e,
{
    match e {
        SExpr::Number(n) => int_text(n as int),
        SExpr::Symbol(s) => s,
        SExpr::List(es) => seq!['('] + list_text(es) + seq![')'],
    }
}

/// Printed elements of a list, separated by single spaces.
pub open spec fn list_text(es: Seq<SExpr>) -> Seq<char>
    decreases es,
{
    if es.len() == 0 {
        Seq::empty()
    } else if es.len() == 1 {
        expr_text(es[0])
    } else {
        list_text(es.drop_last()) + seq![' '] + expr_text(es[es.len() - 1])
    }
}

impl View for Expr {
    type V = SExpr;

    open spec fn view(&self) -> SExpr {
        expr_view(*self)
    }
}

/// A deep copy of an expression.
pub fn copy_expr(e: &Expr) -> (r: Expr)
    ensures
        r@ == e@,
    decreases e,
{
    match e {
        Expr::Number(n) => Expr::Number(*n),
        Expr::Symbol(s) => Expr::Symbol(s.clone()),
        Expr::List(es) => {
            let mut out: Vec<Expr> = Vec::new();
            let mut i: usize = 0;
            while i < es.len()
                invariant
                    i <= es.len(),
                    *e == Expr::List(*es),
                    exprs_view(out@) == exprs_view(es@.take(i as int)),
                decreases es.len() - i,
            {
                proof {
                    assert(decreases_to!(*es => es[i as int]));
                    assert(decreases_to!(*e => (*e)->List_0));
                    assert(decreases_to!(*e => es[i as int]));
                }
                let c = copy_expr(&es[i]);
                let ghost prev = out@;
                out.push(c);
                assert(out@.drop_last() == prev);
                assert(es@.take(i + 1).drop_last() == es@.take(i as int));
                i += 1;
            }
            assert(es@.take(es.len() as int) == es@);
            Expr::List(out)
        },
    }
}

impl Expr {
    /// The printed form of the expression.
    pub fn to_string(&self) -> (s: String)
        ensures
            s@ == expr_text(self@),
        decreases self,
    {
        match self {
            Expr::Number(n) => int_to_text(*n),
            Expr::Symbol(s) => s.clone(),
            Expr::List(es) => {
                let mut inner = String::new();
                let mut i: usize = 0;
                while i < es.len()
                    invariant
                        i <= es.len(),
                        *self == Expr::List(*es),
                        inner@ == list_text(exprs_view(es@.take(i as int))),
                    decreases es.len() - i,
                {
                    proof {
                        assert(decreases_to!(*es => es[i as int]));
                        assert(decreases_to!(*self => (*self)->List_0));
                        lemma_exprs_view_take(es@, i as int);
                        lemma_exprs_view(es@.take(i + 1));
                    }
                    let t = es[i].to_string();
                    if i > 0 {
                        push_char(&mut inner, ' ');
                    }
                    push_all(&mut inner, &t);
                    proof {
                        let v = exprs_view(es@.take(i + 1));
                        assert(v.drop_last() == exprs_view(es@.take(i as int)));
                        assert(v[v.len() - 1] == es@[i as int]@);
                    }
                    i += 1;
                }
                assert(es@.take(es.len() as int) == es@);
                let mut s = String::new();
                push_char(&mut s, '(');
                push_all(&mut s, &inner);
                push_char(&mut s, ')');
                s
            },
        }
    }
}

impl Clone for Expr {
    fn clone(&self) -> (r: Self)
        ensures
            r@ == self@,
    {
        copy_expr(self)
    }
}

} // verus!
