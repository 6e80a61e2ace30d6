//! A command together with its parameters, ready to be framed.

use vstd::prelude::*;

use crate::protocol::{NinaCommand, NinaParam, MAX_NINA_PARAMS};
use crate::wire::ParamModel;

verus! {

/// What an operation amounts to: the command and its parameters in the
/// order in which they go out.
pub struct OperationModel {
    pub command: NinaCommand,
    pub params: Seq<ParamModel>,
}

/// A command and the parameters that were added to it, in the order of
/// adding. It never holds more than [`MAX_NINA_PARAMS`] parameters.
pub struct Operation {
    command: NinaCommand,
    params: Vec<NinaParam>,
}

impl View for Operation {
    type V = OperationModel;

    closed spec fn view(&self) -> OperationModel {
        OperationModel {
            command: self.command,
            params: Seq::new(self.params@.len(), |i: int| self.params@[i]@),
        }
    }
}

impl Operation {
    #[verifier::type_invariant]
    spec fn bounded(self) -> bool {
        self.params@.len() <= MAX_NINA_PARAMS
    }

    /// An operation without parameters.
    pub fn new(command: NinaCommand) -> (operation: Operation)
        ensures
            operation@.command == command,
            operation@.params == Seq::<ParamModel>::empty(),
    {
        let operation = Operation { command, params: Vec::new() };
        assert(operation@.params =~= Seq::<ParamModel>::empty());
        operation
    }

    /// The operation with `param` added behind the parameters that it holds.
    pub fn param(self, param: NinaParam) -> (operation: Operation)
        requires
            self@.params.len() < MAX_NINA_PARAMS,
        ensures
            operation@.command == self@.command,
            operation@.params == self@.params.push(param@),
    {
        let ghost before = self@;
        let Operation { command, params } = self;
        let mut params = params;
        params.push(param);
        let operation = Operation { command, params };
        assert(operation@.params =~= before.params.push(param@));
        operation
    }

    /// The command.
    pub fn command(&self) -> (command: NinaCommand)
        ensures
            command == self@.command,
    {
        self.command
    }

    /// The number of parameters.
    pub fn param_count(&self) -> (n: usize)
        ensures
            n == self@.params.len(),
            n <= MAX_NINA_PARAMS,
    {
        proof {
            use_type_invariant(self);
        }
        self.params.len()
    }

    /// The parameter at `index`, counting from zero.
    pub fn param_at(&self, index: usize) -> (param: &NinaParam)
        requires
            index < self@.params.len(),
        ensures
            param@ == self@.params[index as int],
    {
        &self.params[index]
    }
}

} // verus!
