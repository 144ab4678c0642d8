//! Requests against the store, their outcomes, and the error catalogue.

use vstd::prelude::*;
use crate::model::{val_listener_free, value_view, value_wf};
use crate::value::Value;

verus! {

/// The recoverable failures of the storage operations.  Absence is not among
/// them: a path that resolves to nothing is an expected outcome, reported as
/// `None`, never as an error.
#[derive(Clone, Copy, Debug, PartialEq, Eq, Structural)]
pub enum StoreError {
    KeyAlreadyExists,
}

/// The operations a command can request.
#[derive(Clone, Copy, Debug, PartialEq, Eq, Structural)]
pub enum Operation {
    Read,
    Write,
    Terminate,
}

/// Whether an operation mutates stored state.
pub open spec fn operation_mutates(op: Operation) -> bool {
    op is Write
}

/// A request against the store: an optional addressed path (absent only for
/// non-addressed operations, that is termination), the operation, whether it
/// mutates, and its typed arguments.  Immutable once constructed; produced
/// by a caller and consumed once by the backend.
pub struct Command {
    pub path: Option<Vec<String>>,
    pub operation: Operation,
    pub is_mutator: bool,
    pub args: Vec<Value>,
}

/// Validity of a command: the path is absent exactly for termination, the
/// mutator flag matches the operation, and every argument is a well-formed
/// value carrying no listeners.
pub open spec fn command_wf(c: Command) -> bool {
    &&& (c.path is None <==> c.operation is Terminate)
    &&& c.is_mutator == operation_mutates(c.operation)
    &&& forall|i: int|
        0 <= i < c.args@.len() ==> value_wf(#[trigger] c.args@[i]) && val_listener_free(
            value_view(c.args@[i]),
        )
}

impl Command {
    /// A read request for `path`.
    pub fn get_request(path: Vec<String>) -> (r: Command)
        ensures
            command_wf(r),
            r.operation is Read,
            r.path == Some(path),
            r.args@.len() == 0,
    {
        Command { path: Some(path), operation: Operation::Read, is_mutator: false, args: Vec::new() }
    }

    /// A write request storing `value` at `path`.
    pub fn set_request(path: Vec<String>, value: Value) -> (r: Command)
        requires
            value_wf(value),
            val_listener_free(value_view(value)),
        ensures
            command_wf(r),
            r.operation is Write,
            r.is_mutator,
            r.path == Some(path),
            r.args@.len() == 1,
            r.args@[0] == value,
    {
        let mut args: Vec<Value> = Vec::new();
        args.push(value);
        Command { path: Some(path), operation: Operation::Write, is_mutator: true, args }
    }

    /// The request that stops the backend's command loop.  It is not
    /// addressed to a path and carries no arguments.
    pub fn terminate_request() -> (r: Command)
        ensures
            command_wf(r),
            r.operation is Terminate,
            r.path is None,
            r.args@.len() == 0,
    {
        Command { path: None, operation: Operation::Terminate, is_mutator: false, args: Vec::new() }
    }

    /// The addressed path, absent for non-addressed operations.
    pub fn get_path(&self) -> (r: &Option<Vec<String>>)
        ensures
            r == &self.path,
    {
        &self.path
    }

    /// Whether this command mutates stored state.
    pub fn is_mutator(&self) -> (r: bool)
        ensures
            r == self.is_mutator,
    {
        self.is_mutator
    }

    /// Whether this command stops the backend.
    pub fn is_terminate(&self) -> (r: bool)
        ensures
            r == (self.operation is Terminate),
    {
        match self.operation {
            Operation::Terminate => true,
            _ => false,
        }
    }

    /// The requested operation.
    pub fn get_operation(&self) -> (r: Operation)
        ensures
            r == self.operation,
    {
        self.operation
    }

    /// The command's typed arguments, in order.
    pub fn args(&self) -> (r: &Vec<Value>)
        ensures
            r == &self.args,
    {
        &self.args
    }
}

/// The outcome summary of one executed command.
#[derive(Clone, Copy, Debug, PartialEq, Eq, Structural)]
pub struct CommandResult {
    pub modified_row_count: usize,
}

impl CommandResult {
    /// An outcome reporting `n` modified rows.
    pub fn new(n: usize) -> (r: CommandResult)
        ensures
            r.modified_row_count == n,
    {
        CommandResult { modified_row_count: n }
    }

    /// How many stored rows the command changed.
    pub fn modified_row_count(&self) -> (r: usize)
        ensures
            r == self.modified_row_count,
    {
        self.modified_row_count
    }
}

} // verus!
