//! The event envelope and the `Sender` capability.
//!
//! The traversal engine hands every event to an implementation of
//! [`Sender`]: a direct call into a consumer, a bounded channel, or a
//! lock-free ring buffer. A sender commits to delivering the events it
//! accepts, in the order `send` was called, without duplicating or
//! dropping any; that commitment is the `delivered` log in its contract.

use vstd::prelude::*;
use crate::sendpath::SendPath;

verus! {

/// An event produced by the traversal: a visited non-leaf path, a leaf
/// value with its path, the end of the stream, or a parse problem.
#[derive(Debug, Clone)]
pub enum Event<V> {
    /// A non-leaf path was visited; carries the depth and the path.
    Path(u64, SendPath),
    /// A leaf was visited and matched the filter.
    Value(SendPath, V),
    /// Exactly one per stream, always last.
    Finished,
    /// A recoverable or fatal parse problem at the given path.
    Error(SendPath, String),
}

/// Why a send did not deliver: the buffer has no room right now (the
/// caller may retry), or the consumer is gone (terminal).
#[derive(Debug, Clone, PartialEq, Eq)]
pub enum SendError {
    Full,
    Closed,
}

/// A capability for delivering events to exactly one logical consumer.
///
/// `delivered` is the log of accepted events. `send` either accepts the
/// event, appending it to the log, or rejects it leaving the log alone:
/// accepted events are never duplicated, dropped, or reordered. `inv` is
/// the sender's own invariant — what its state guarantees about the log —
/// and every accepted or rejected event preserves it. An `infallible`
/// sender — one whose delivery cannot fail, such as a direct call into an
/// owned consumer — accepts every event.
pub trait Sender<V>: Sized {
    spec fn delivered(&self) -> Seq<Event<V>>;

    spec fn inv(&self) -> bool;

    spec fn infallible(&self) -> bool;

    fn send(&mut self, ev: Event<V>) -> (r: Result<(), SendError>)
        ensures
            old(self).inv() ==> final(self).inv(),
            old(self).infallible() ==> r is Ok && final(self).infallible(),
            r is Ok ==> final(self).delivered() == old(self).delivered().push(ev),
            r is Err ==> final(self).delivered() == old(self).delivered(),
    ;
}

/// A newtype so values can be sent with no reference counting or boxing.
#[derive(Debug)]
pub struct NonWrap<T>(T);

impl<T> NonWrap<T> {
    /// The wrapped value, as a spec-level accessor.
    pub closed spec fn wrapped(&self) -> T {
        self.0
    }

    /// Wraps a value.
    pub fn new(t: T) -> (r: NonWrap<T>)
        ensures
            r.wrapped() == t,
    {
        NonWrap(t)
    }

    /// A reference to the wrapped value.
    pub fn get(&self) -> (r: &T)
        ensures
            *r == self.wrapped(),
    {
        &self.0
    }

    /// The wrapped value, moved out.
    pub fn into_inner(self) -> (r: T)
        ensures
            r == self.wrapped(),
    {
        self.0
    }
}

/// The simplest sender: a direct call that appends each event to an owned
/// vector, for single-threaded use and for tests.
pub struct VecSender<V> {
    pub events: Vec<Event<V>>,
}

impl<V> VecSender<V> {
    /// An empty sender.
    pub fn new() -> (r: VecSender<V>)
        ensures
            r.delivered() == Seq::<Event<V>>::empty(),
    {
        VecSender { events: Vec::new() }
    }
}

impl<V> Sender<V> for VecSender<V> {
    open spec fn delivered(&self) -> Seq<Event<V>> {
        self.events@
    }

    open spec fn inv(&self) -> bool {
        true
    }

    open spec fn infallible(&self) -> bool {
        true
    }

    fn send(&mut self, ev: Event<V>) -> (r: Result<(), SendError>)
        ensures
            r is Ok,
            final(self).delivered() == old(self).delivered().push(ev),
    {
        self.events.push(ev);
        Ok(())
    }
}

} // verus!
