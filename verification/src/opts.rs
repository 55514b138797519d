use vstd::prelude::*;
use crate::obj::ObjArena;
use crate::val::EvalError;

verus! {

/// Something that can configure an evaluation arena before use.  The
/// command-line front end implements it for each of its option groups.
pub trait ConfigureState {
    /// Apply this option group to the arena.
    fn configure(&self, state: &mut ObjArena) -> (r: Result<(), EvalError>)
        requires
            old(state).wf(),
        ensures
            final(state).wf(),
            final(state).model() == old(state).model(),
    ;
}

/// What to evaluate: a file path, or, with `exec`, the code itself.
pub struct InputOpts {
    /// Treat `input` as code and evaluate it directly.
    pub exec_code: bool,
    /// Path of the file to evaluate, or the code itself under `exec`.
    pub input: String,
}

/// General evaluation options.
pub struct MiscOpts {
    /// Leave the standard library out.
    pub no_stdlib: bool,
    /// Maximal allowed number of stack frames; exceeding it surfaces a
    /// stack-overflow error.
    pub max_stack: usize,
    /// Library search directories, right-most winning.
    pub jpath: Vec<String>,
}

impl ConfigureState for MiscOpts {
    /// Hand the stack budget to the arena.  Resolving imports and loading
    /// the standard library are the front end's business.
    fn configure(&self, state: &mut ObjArena) -> (r: Result<(), EvalError>)
        ensures
            final(state).spec_max_stack() == self.max_stack as nat,
            r is Ok,
    {
        state.set_max_stack(self.max_stack);
        Ok(())
    }
}

/// The combined option groups of the evaluator.
pub struct GeneralOpts {
    pub misc: MiscOpts,
}

impl ConfigureState for GeneralOpts {
    /// Apply every option group in order.
    fn configure(&self, state: &mut ObjArena) -> (r: Result<(), EvalError>)
        ensures
            final(state).spec_max_stack() == self.misc.max_stack as nat,
            r is Ok,
    {
        let rm = self.misc.configure(state);
        match rm {
            Result::Ok(()) => Ok(()),
            Result::Err(e) => Err(e),
        }
    }
}

} // verus!
