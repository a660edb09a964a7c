use vstd::prelude::*;
use crate::lisp::ast::{Expr, SExpr, copy_expr, expr_view};
use crate::text::{int_text, int_to_text, push_all, push_char};

verus! {

broadcast use vstd::std_specs::vec::group_vec_axioms;

/// Runtime value produced by evaluation.
#[derive(Debug, PartialEq, Eq)]
pub enum Value {
    Number(i64),
    Symbol(String),
    List(Vec<Value>),
    Nil,
    Bool(bool),
    String(String),
    /// A closure: parameters, body and the environment captured when it was made.
    Lambda { params: Vec<String>, body: Box<Expr>, env: Env },
}

/// Variable bindings: each name bound at most once; binding a bound name
/// replaces its value in place.
#[derive(Debug, PartialEq, Eq)]
pub struct Env {
    pub entries: Vec<(String, Value)>,
}

/// The model of a runtime value.
pub enum SValue {
    Number(i64),
    Symbol(Seq<char>),
    List(Seq<SValue>),
    Nil,
    Bool(bool),
    Str(Seq<char>),
    Lambda { params: Seq<Seq<char>>, body: SExpr, env: Seq<(Seq<char>, SValue)> },
}

/// The model of an environment: its bindings in order.
pub type SEnv = Seq<(Seq<char>, SValue)>;

pub open spec fn value_view(v: Value) -> SValue
    decreases v,
{
    match v {
        Value::Number(n) => SValue::Number(n),
        Value::Symbol(s) => SValue::Symbol(s@),
        Value::List(vs) => SValue::List(values_view(vs@)),
        Value::Nil => SValue::Nil,
        Value::Bool(b) => SValue::Bool(b),
        Value::String(s) => SValue::Str(s@),
        Value::Lambda { params, body, env } => SValue::Lambda {
            params: strings_view(params@),
            body: expr_view(*body),
            env: entries_view(env.entries@),
        },
    }
}

pub open spec fn values_view(vs: Seq<Value>) -> Seq<SValue>
    decreases vs,
{
    if vs.len() == 0 {
        Seq::empty()
    } else {
        values_view(vs.drop_last()).push(value_view(vs[vs.len() - 1]))
    }
}

pub open spec fn entries_view(es: Seq<(String, Value)>) -> SEnv
    decreases es,
{
    if es.len() == 0 {
        Seq::empty()
    } else {
        entries_view(es.drop_last()).push((es[es.len() - 1].0@, value_view(es[es.len() - 1].1)))
    }
}

pub open spec fn strings_view(ss: Seq<String>) -> Seq<Seq<char>> {
    ss.map_values(|s: String| s@)
}

impl View for Value {
    type V = SValue;

    open spec fn view(&self) -> SValue {
        value_view(*self)
    }
}

impl View for Env {
    type V = SEnv;

    open spec fn view(&self) -> SEnv {
        entries_view(self.entries@)
    }
}

pub proof fn lemma_values_view(vs: Seq<Value>)
    ensures
        values_view(vs).len() == vs.len(),
        forall|i: int| 0 <= i < vs.len() ==> #[trigger] values_view(vs)[i] == value_view(vs[i]),
    decreases vs.len(),
{
    if vs.len() > 0 {
        lemma_values_view(vs.drop_last());
    }
}

pub proof fn lemma_values_view_take(vs: Seq<Value>, i: int)
    requires
        0 <= i < vs.len(),
    ensures
        values_view(vs.take(i + 1)) == values_view(vs.take(i)).push(value_view(vs[i])),
{
    assert(vs.take(i + 1).drop_last() == vs.take(i));
}

pub proof fn lemma_entries_view(es: Seq<(String, Value)>)
    ensures
        entries_view(es).len() == es.len(),
        forall|i: int|
            0 <= i < es.len() ==> #[trigger] entries_view(es)[i] == (es[i].0@, value_view(es[i].1)),
    decreases es.len(),
{
    if es.len() > 0 {
        lemma_entries_view(es.drop_last());
    }
}

/// Index of the first binding of `k`, or -1 when `k` is unbound.
pub open spec fn env_index(env: SEnv, k: Seq<char>) -> int
    decreases env.len(),
{
    if env.len() == 0 {
        -1
    } else {
        let j = env_index(env.drop_last(), k);
        if j >= 0 {
            j
        } else if env[env.len() - 1].0 == k {
            env.len() - 1
        } else {
            -1
        }
    }
}

/// The value bound to `k`, if any.
pub open spec fn env_get(env: SEnv, k: Seq<char>) -> Option<SValue> {
    let i = env_index(env, k);
    if i >= 0 {
        Some(env[i].1)
    } else {
        None
    }
}

/// Binding `k` to `v`: replaces an existing binding of `k` in place, else appends.
pub open spec fn env_insert(env: SEnv, k: Seq<char>, v: SValue) -> SEnv {
    let i = env_index(env, k);
    if i >= 0 {
        env.update(i, (k, v))
    } else {
        env.push((k, v))
    }
}

/// `env_index` is the first index holding `k`.
pub proof fn lemma_env_index(env: SEnv, k: Seq<char>)
    ensures
        -1 <= env_index(env, k) < env.len(),
        env_index(env, k) >= 0 ==> env[env_index(env, k)].0 == k,
        forall|j: int|
            0 <= j < env.len() && (env_index(env, k) < 0 || j < env_index(env, k)) ==> env[j].0
                != k,
    decreases env.len(),
{
    if env.len() > 0 {
        let d = env.drop_last();
        lemma_env_index(d, k);
        assert forall|j: int| 0 <= j < d.len() implies #[trigger] d[j] == env[j] by {}
        let r = env_index(env, k);
        assert forall|j: int| 0 <= j < env.len() && (r < 0 || j < r) implies env[j].0 != k by {
            if j < d.len() {
                assert(d[j] == env[j]);
            }
        }
    }
}

/// The printed form of a value.
pub open spec fn value_text(v: SValue) -> Seq<char>
    decreases v,
{
    match v {
        SValue::Number(n) => int_text(n as int),
        SValue::Symbol(s) => s,
        SValue::List(vs) => seq!['('] + values_text(vs) + seq![')'],
        SValue::Nil => seq!['n', 'i', 'l'],
        SValue::Bool(b) => if b {
            seq!['t', 'r', 'u', 'e']
        } else {
            seq!['f', 'a', 'l', 's', 'e']
        },
        SValue::Str(s) => seq!['"'] + s + seq!['"'],
        SValue::Lambda { .. } => seq!['#', '<', 'l', 'a', 'm', 'b', 'd', 'a', '>'],
    }
}

/// Printed values separated by single spaces.
pub open spec fn values_text(vs: Seq<SValue>) -> Seq<char>
    decreases vs,
{
    if vs.len() == 0 {
        Seq::empty()
    } else if vs.len() == 1 {
        value_text(vs[0])
    } else {
        values_text(vs.drop_last()) + seq![' '] + value_text(vs[vs.len() - 1])
    }
}

fn text_of(cs: &[char]) -> (s: String)
    ensures
        s@ == cs@,
{
    crate::text::string_from_chars(cs)
}

/// A deep copy of a value.
pub fn copy_value(v: &Value) -> (r: Value)
    ensures
        r@ == v@,
    decreases v,
{
    match v {
        Value::Number(n) => Value::Number(*n),
        Value::Symbol(s) => Value::Symbol(s.clone()),
        Value::List(vs) => Value::List(copy_values(vs)),
        Value::Nil => Value::Nil,
        Value::Bool(b) => Value::Bool(*b),
        Value::String(s) => Value::String(s.clone()),
        Value::Lambda { params, body, env } => {
            proof {
                assert(decreases_to!(*v => (*v)->env));
            }
            let p = copy_strings(params);
            let b = copy_expr(body);
            let e = copy_env(env);
            Value::Lambda { params: p, body: Box::new(b), env: e }
        },
    }
}

/// A deep copy of a sequence of values.
pub fn copy_values(vs: &Vec<Value>) -> (r: Vec<Value>)
    ensures
        values_view(r@) == values_view(vs@),
    decreases vs,
{
    let mut out: Vec<Value> = Vec::new();
    let mut i: usize = 0;
    while i < vs.len()
        invariant
            i <= vs.len(),
            values_view(out@) == values_view(vs@.take(i as int)),
        decreases vs.len() - i,
    {
        proof {
            assert(decreases_to!(*vs => vs[i as int]));
        }
        let c = copy_value(&vs[i]);
        let ghost prev = out@;
        out.push(c);
        proof {
            assert(out@.drop_last() == prev);
            lemma_values_view_take(vs@, i as int);
        }
        i += 1;
    }
    assert(vs@.take(vs.len() as int) == vs@);
    out
}

/// A copy of a sequence of strings.
pub fn copy_strings(ss: &Vec<String>) -> (r: Vec<String>)
    ensures
        strings_view(r@) == strings_view(ss@),
{
    let mut out: Vec<String> = Vec::new();
    let mut i: usize = 0;
    while i < ss.len()
        invariant
            i <= ss.len(),
            out@.len() == i,
            forall|j: int| 0 <= j < i ==> #[trigger] out@[j]@ == ss@[j]@,
        decreases ss.len() - i,
    {
        out.push(ss[i].clone());
        i += 1;
    }
    assert(strings_view(out@) =~= strings_view(ss@));
    out
}

/// A deep copy of an environment.
pub fn copy_env(env: &Env) -> (r: Env)
    ensures
        r@ == env@,
    decreases env,
{
    let mut out: Vec<(String, Value)> = Vec::new();
    let mut i: usize = 0;
    while i < env.entries.len()
        invariant
            i <= env.entries.len(),
            entries_view(out@) == entries_view(env.entries@.take(i as int)),
        decreases env.entries.len() - i,
    {
        proof {
            assert(decreases_to!(*env => env.entries));
            assert(decreases_to!(env.entries => env.entries[i as int]));
            assert(decreases_to!(env.entries[i as int] => env.entries[i as int].1));
        }
        let k = env.entries[i].0.clone();
        let c = copy_value(&env.entries[i].1);
        let ghost prev = out@;
        out.push((k, c));
        proof {
            assert(out@.drop_last() == prev);
            assert(env.entries@.take(i + 1).drop_last() == env.entries@.take(i as int));
        }
        i += 1;
    }
    assert(env.entries@.take(env.entries.len() as int) == env.entries@);
    Env { entries: out }
}

impl Clone for Value {
    fn clone(&self) -> (r: Self)
        ensures
            r@ == self@,
    {
        copy_value(self)
    }
}

impl Clone for Env {
    fn clone(&self) -> (r: Self)
        ensures
            r@ == self@,
    {
        copy_env(self)
    }
}

impl Env {
    /// An environment with no bindings.
    pub fn new() -> (r: Env)
        ensures
            r@ == Seq::<(Seq<char>, SValue)>::empty(),
    {
        Env { entries: Vec::new() }
    }

    /// Number of bindings.
    pub fn len(&self) -> (n: usize)
        ensures
            n == self@.len(),
    {
        proof {
            lemma_entries_view(self.entries@);
        }
        self.entries.len()
    }

    fn find(&self, k: &String) -> (r: Option<usize>)
        ensures
            self@.len() == self.entries@.len(),
            match r {
                Some(i) => i == env_index(self@, k@) && i < self.entries@.len(),
                None => env_index(self@, k@) < 0,
            },
    {
        proof {
            lemma_entries_view(self.entries@);
            lemma_env_index(self@, k@);
        }
        let mut i: usize = 0;
        while i < self.entries.len()
            invariant
                i <= self.entries.len(),
                self@.len() == self.entries.len(),
                forall|j: int| 0 <= j < i ==> self@[j].0 != k@,
                forall|j: int|
                    0 <= j < self.entries.len() ==> #[trigger] self@[j] == (
                    self.entries@[j].0@,
                    value_view(self.entries@[j].1),
                ),
                -1 <= env_index(self@, k@) < self@.len(),
                env_index(self@, k@) >= 0 ==> self@[env_index(self@, k@)].0 == k@,
                forall|j: int|
                    0 <= j < self@.len() && (env_index(self@, k@) < 0 || j < env_index(
                        self@,
                        k@,
                    )) ==> self@[j].0 != k@,
            decreases self.entries.len() - i,
        {
            if self.entries[i].0 == *k {
                assert(self@[i as int].0 == k@);
                return Some(i);
            }
            i += 1;
        }
        None
    }

    /// The value bound to `k`, if any.
    pub fn get(&self, k: &String) -> (r: Option<&Value>)
        ensures
            match r {
                Some(v) => env_get(self@, k@) == Some(v@),
                None => env_get(self@, k@) is None,
            },
    {
        proof {
            lemma_entries_view(self.entries@);
        }
        match self.find(k) {
            Some(i) => Some(&self.entries[i].1),
            None => None,
        }
    }

    /// Binds `k` to `v`, replacing an existing binding of `k`.
    pub fn insert(&mut self, k: String, v: Value)
        ensures
            final(self)@ == env_insert(old(self)@, k@, v@),
    {
        proof {
            lemma_entries_view(self.entries@);
        }
        match self.find(&k) {
            Some(i) => {
                let ghost kv = k@;
                let ghost vv = v@;
                self.entries.set(i, (k, v));
                proof {
                    lemma_entries_view(self.entries@);
                    assert(self@ == old(self)@.update(i as int, (kv, vv)));
                }
            },
            None => {
                let ghost kv = k@;
                let ghost vv = v@;
                let ghost prev = self.entries@;
                self.entries.push((k, v));
                proof {
                    assert(self.entries@.drop_last() == prev);
                }
            },
        }
    }
}

impl Value {
    /// The printed form of the value.
    pub fn to_string(&self) -> (s: String)
        ensures
            s@ == value_text(self@),
        decreases self,
    {
        match self {
            Value::Number(n) => int_to_text(*n),
            Value::Symbol(s) => s.clone(),
            Value::List(vs) => {
                let mut inner = String::new();
                let mut i: usize = 0;
                while i < vs.len()
                    invariant
                        i <= vs.len(),
                        *self == Value::List(*vs),
                        inner@ == values_text(values_view(vs@.take(i as int))),
                    decreases vs.len() - i,
                {
                    proof {
                        assert(decreases_to!(*vs => vs[i as int]));
                        assert(decreases_to!(*self => (*self)->List_0));
                        lemma_values_view_take(vs@, i as int);
                        lemma_values_view(vs@.take(i + 1));
                    }
                    let t = vs[i].to_string();
                    if i > 0 {
                        push_char(&mut inner, ' ');
                    }
                    push_all(&mut inner, &t);
                    proof {
                        let w = values_view(vs@.take(i + 1));
                        assert(w.drop_last() == values_view(vs@.take(i as int)));
                        assert(w[w.len() - 1] == vs@[i as int]@);
                    }
                    i += 1;
                }
                assert(vs@.take(vs.len() as int) == vs@);
                let mut s = String::new();
                push_char(&mut s, '(');
                push_all(&mut s, &inner);
                push_char(&mut s, ')');
                s
            },
            Value::Nil => text_of(&['n', 'i', 'l']),
            Value::Bool(b) => if *b {
                text_of(&['t', 'r', 'u', 'e'])
            } else {
                text_of(&['f', 'a', 'l', 's', 'e'])
            },
            Value::String(s) => {
                let mut t = String::new();
                push_char(&mut t, '"');
                push_all(&mut t, s);
                push_char(&mut t, '"');
                t
            },
            Value::Lambda { .. } => text_of(&['#', '<', 'l', 'a', 'm', 'b', 'd', 'a', '>']),
        }
    }
}

} // verus!
