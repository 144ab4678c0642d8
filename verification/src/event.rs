//! Change notifications and the contract a backend's event type meets.

use vstd::prelude::*;
use crate::command::Operation;

verus! {

/// What an event carries; a backend chooses its own content type.
pub trait EventContent {

}

/// The contract of a backend's event type: constructed for one listener
/// identity from a path and an operation, and consumed by reading the
/// target and the content back.
pub trait Event: Sized {
    type Content: EventContent + Send + Clone + 'static;

    fn new(path: &str, op: Operation, target: usize) -> Self;

    fn get_target(&self) -> usize;

    fn get_content(&self) -> &Self::Content;
}

/// What this store's events carry: the full path that was written, and the
/// operation that touched it.
#[derive(Clone, Debug, PartialEq)]
pub struct StoreEventContent {
    pub path: Vec<String>,
    pub operation: Operation,
}

impl EventContent for StoreEventContent {

}

/// One notification: a change described by its content, addressed to one
/// listener identity.  Fire-and-forget; not stored.
#[derive(Clone, Debug, PartialEq)]
pub struct StoreEvent {
    pub target: usize,
    pub content: StoreEventContent,
}

impl StoreEvent {
    /// The event notifying `target` that `operation` touched `path`.
    pub fn at_path(path: Vec<String>, operation: Operation, target: usize) -> (r: StoreEvent)
        ensures
            r.target == target,
            r.content.path == path,
            r.content.operation == operation,
    {
        StoreEvent { target, content: StoreEventContent { path, operation } }
    }
}

impl Event for StoreEvent {
    type Content = StoreEventContent;

    /// An event whose path is the single segment `path`.
    fn new(path: &str, op: Operation, target: usize) -> (r: Self)
        ensures
            r.target == target,
            r.content.operation == op,
            r.content.path@.len() == 1,
            r.content.path@[0]@ == path@,
    {
        let mut segments: Vec<String> = Vec::new();
        segments.push(path.to_owned());
        StoreEvent { target, content: StoreEventContent { path: segments, operation: op } }
    }

    fn get_target(&self) -> (r: usize)
        ensures
            r == self.target,
    {
        self.target
    }

    fn get_content(&self) -> (r: &StoreEventContent)
        ensures
            r == &self.content,
    {
        &self.content
    }
}

} // verus!
