use vstd::prelude::*;
use crate::lisp::effect::Effect;

verus! {

#[verifier::external_type_specification]
#[verifier::external_body]
pub struct ExAnyhowError(anyhow::Error);

/// Executes effects after a transaction commits.
pub trait EffectExecutor {
    fn execute(&self, effects: &[Effect]) -> Result<(), anyhow::Error>;
}

/// An executor that discards all effects.
#[derive(Debug)]
pub struct NoopExecutor;

impl EffectExecutor for NoopExecutor {
    fn execute(&self, _effects: &[Effect]) -> (r: Result<(), anyhow::Error>)
        ensures
            r is Ok,
    {
        Ok(())
    }
}

} // verus!
