use vstd::prelude::*;
use crate::lisp::value::{SValue, Value, copy_values, values_view};

verus! {

/// Opaque capability identifier.
#[derive(Debug, Clone, Copy, PartialEq, Eq, Hash, Structural)]
pub struct CapabilityId(pub u64);

/// A single effect record produced during evaluation. Effects are data: they
/// are never executed during evaluation.
#[derive(Debug, PartialEq, Eq)]
pub struct Effect {
    pub cap_id: CapabilityId,
    pub op: String,
    pub args: Vec<Value>,
}

/// Evaluation result carrying an ordered effect log.
#[derive(Debug, PartialEq, Eq)]
pub struct Eff<T> {
    pub value: T,
    pub effects: Vec<Effect>,
}

/// The model of an effect record.
pub struct SEffect {
    pub cap: u64,
    pub op: Seq<char>,
    pub args: Seq<SValue>,
}

pub open spec fn effect_view(e: Effect) -> SEffect {
    SEffect { cap: e.cap_id.0, op: e.op@, args: values_view(e.args@) }
}

/// The model of an effect log.
pub open spec fn effects_view(es: Seq<Effect>) -> Seq<SEffect> {
    es.map_values(|e: Effect| effect_view(e))
}

impl View for Effect {
    type V = SEffect;

    open spec fn view(&self) -> SEffect {
        effect_view(*self)
    }
}

/// A copy of an effect record.
pub fn copy_effect(e: &Effect) -> (r: Effect)
    ensures
        r@ == e@,
{
    Effect { cap_id: e.cap_id, op: e.op.clone(), args: copy_values(&e.args) }
}

/// A copy of an effect log.
pub fn copy_effects(es: &Vec<Effect>) -> (r: Vec<Effect>)
    ensures
        effects_view(r@) == effects_view(es@),
{
    let mut out: Vec<Effect> = Vec::new();
    let mut i: usize = 0;
    while i < es.len()
        invariant
            i <= es.len(),
            out@.len() == i,
            forall|j: int| 0 <= j < i ==> #[trigger] effect_view(out@[j]) == effect_view(es@[j]),
        decreases es.len() - i,
    {
        out.push(copy_effect(&es[i]));
        i += 1;
    }
    assert(effects_view(out@) =~= effects_view(es@));
    out
}

/// Appends the records of `b` to `a`, preserving order.
pub fn append_effects(a: &mut Vec<Effect>, b: Vec<Effect>)
    ensures
        effects_view(final(a)@) == effects_view(old(a)@) + effects_view(b@),
{
    let mut b = b;
    let ghost a0 = a@;
    let ghost b0 = b@;
    a.append(&mut b);
    assert(a@ == a0 + b0);
    assert(effects_view(a@) =~= effects_view(a0) + effects_view(b0));
}

impl Clone for Effect {
    fn clone(&self) -> (r: Self)
        ensures
            r@ == self@,
    {
        copy_effect(self)
    }
}

impl<T: Clone> Clone for Eff<T> {
    fn clone(&self) -> (r: Self)
        ensures
            effects_view(r.effects@) == effects_view(self.effects@),
    {
        Eff { value: self.value.clone(), effects: copy_effects(&self.effects) }
    }
}

/// The effect log that sequencing two computations produces: the first log
/// followed by the second.
pub open spec fn log_then(first: Seq<SEffect>, second: Seq<SEffect>) -> Seq<SEffect> {
    first + second
}

impl<T> Eff<T> {
    /// Wraps a pure value with no effects.
    pub fn pure(value: T) -> (r: Self)
        ensures
            r.value == value,
            r.effects@.len() == 0,
    {
        Eff { value, effects: Vec::new() }
    }

    /// Transforms the value, keeping the effects unchanged.
    pub fn map<U, F: FnOnce(T) -> U>(self, f: F) -> (r: Eff<U>)
        requires
            f.requires((self.value,)),
        ensures
            f.ensures((self.value,), r.value),
            r.effects@ == self.effects@,
    {
        Eff { value: f(self.value), effects: self.effects }
    }

    /// Runs `f` on the value, then concatenates the effect logs, preserving order.
    pub fn bind<U, F: FnOnce(T) -> Eff<U>>(self, f: F) -> (r: Eff<U>)
        requires
            f.requires((self.value,)),
        ensures
            exists|next: Eff<U>|
                {
                    &&& #[trigger] f.ensures((self.value,), next)
                    &&& r.value == next.value
                    &&& effects_view(r.effects@) == log_then(
                        effects_view(self.effects@),
                        effects_view(next.effects@),
                    )
                },
    {
        let mut effects = self.effects;
        let next = f(self.value);
        let ghost n = next;
        let Eff { value, effects: more } = next;
        append_effects(&mut effects, more);
        Eff { value, effects }
    }
}

/// Sequencing effect logs is a monoid: the empty log is a unit on both sides
/// and sequencing is associative, so `pure` is a unit of `bind` and nested
/// binds give the same log in either grouping.
pub proof fn law_log_monoid(a: Seq<SEffect>, b: Seq<SEffect>, c: Seq<SEffect>)
    ensures
        log_then(Seq::empty(), a) == a,
        log_then(a, Seq::empty()) == a,
        log_then(log_then(a, b), c) == log_then(a, log_then(b, c)),
{
    assert(log_then(Seq::empty(), a) =~= a);
    assert(log_then(a, Seq::empty()) =~= a);
    assert(log_then(log_then(a, b), c) =~= log_then(a, log_then(b, c)));
}

} // verus!
