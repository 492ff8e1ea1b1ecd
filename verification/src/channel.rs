//! Backpressure decoupling: delivering events across a thread boundary
//! through a bounded channel or a lock-free ring buffer, behind the same
//! `Sender` contract the traversal engine uses.
//!
//! The bounded channel blocks the producer inside `send` until space is
//! free. The ring buffer instead hands a rejected event back to the
//! caller, who waits — parking and unparking are thread work and live
//! with the caller — and retries; at most one event is pending per retry
//! cycle.

use vstd::prelude::*;
use crate::schema::SchemaCollector;
use crate::schema::SchemaType;
use crate::sender::Event;
use crate::sender::SendError;
use crate::sender::Sender;

verus! {

/// The sending half of a crossbeam bounded event channel, held opaquely.
#[verifier::external_body]
#[verifier::reject_recursive_types(V)]
pub struct CbTx<V> {
    tx: crossbeam::channel::Sender<Event<V>>,
}

/// The receiving half of a crossbeam bounded event channel, held
/// opaquely.
#[verifier::external_body]
#[verifier::reject_recursive_types(V)]
pub struct CbRx<V> {
    rx: crossbeam::channel::Receiver<Event<V>>,
}

/// The producing half of an rtrb event ring buffer, held opaquely.
#[verifier::external_body]
#[verifier::reject_recursive_types(V)]
pub struct RingTx<V> {
    p: rtrb::Producer<Event<V>>,
}

/// The consuming half of an rtrb event ring buffer, held opaquely.
#[verifier::external_body]
#[verifier::reject_recursive_types(V)]
pub struct RingRx<V> {
    c: rtrb::Consumer<Event<V>>,
}

/// Relies on `crossbeam::channel::bounded`: the two halves of a channel
/// that holds at most `cap` messages at once.
#[verifier::external_body]
fn cb_bounded<V>(cap: usize) -> (r: (CbTx<V>, CbRx<V>))
{
    let (tx, rx) = crossbeam::channel::bounded(cap);
    (CbTx { tx }, CbRx { rx })
}

/// Relies on `crossbeam::channel::Sender::send`: it blocks while the
/// channel is full and delivers the message, or hands it back when every
/// receiver is gone.
#[verifier::external_body]
fn cb_send<V>(tx: &CbTx<V>, t: Event<V>) -> (r: Result<(), Event<V>>)
{
    match tx.tx.send(t) {
        Ok(()) => Ok(()),
        Err(e) => Err(e.0),
    }
}

/// Relies on `crossbeam::channel::Receiver::recv`: it blocks until a
/// message arrives, or reports the channel closed and drained.
#[verifier::external_body]
pub fn cb_recv<V>(rx: &CbRx<V>) -> (r: Option<Event<V>>)
{
    match rx.rx.recv() {
        Ok(t) => Some(t),
        Err(_) => None,
    }
}

/// Relies on `rtrb::RingBuffer::new`: the two halves of a lock-free ring
/// buffer with fixed capacity `cap`.
#[verifier::external_body]
fn rb_new<V>(cap: usize) -> (r: (RingTx<V>, RingRx<V>))
{
    let (p, c) = rtrb::RingBuffer::new(cap);
    (RingTx { p }, RingRx { c })
}

/// Relies on `rtrb::Producer::push`: it stores the value when a slot is
/// free and otherwise hands the very value back.
#[verifier::external_body]
fn rb_push<V>(p: &mut RingTx<V>, t: Event<V>) -> (r: Result<(), Event<V>>)
    ensures
        r matches Err(t2) ==> t2 == t,
{
    match p.p.push(t) {
        Ok(()) => Ok(()),
        Err(rtrb::PushError::Full(v)) => Err(v),
    }
}

/// Relies on `rtrb::Consumer::pop`: the next value in arrival order, or
/// nothing while the buffer is empty.
#[verifier::external_body]
fn rb_pop<V>(c: &mut RingRx<V>) -> (r: Option<Event<V>>)
{
    match c.c.pop() {
        Ok(t) => Some(t),
        Err(rtrb::PopError::Empty) => None,
    }
}

/// Relies on `rtrb::Producer::is_abandoned`: whether the consumer is
/// gone.
#[verifier::external_body]
fn rb_producer_abandoned<V>(p: &RingTx<V>) -> (r: bool)
{
    p.p.is_abandoned()
}

/// Relies on `rtrb::Consumer::is_abandoned`: whether the producer is
/// gone.
#[verifier::external_body]
fn rb_consumer_abandoned<V>(c: &RingRx<V>) -> (r: bool)
{
    c.c.is_abandoned()
}

/// A producing capability: accept a value, or hand it back when there is
/// no room right now or no consumer any more.
pub trait Producer<T>: Sized {
    fn send(&mut self, t: T) -> (r: Result<(), T>)
        ensures
            r matches Err(t2) ==> t2 == t,
    ;
}

/// A consuming capability: the next value, or nothing.
pub trait Consumer<T>: Sized {
    fn recv(&mut self) -> (r: Option<T>);
}

/// A sender that moves events into a crossbeam bounded channel; `send`
/// blocks while the channel is full, and fails terminally once the
/// consumer is gone.
#[verifier::reject_recursive_types(V)]
pub struct ChSender<V> {
    tx: CbTx<V>,
    log: Ghost<Seq<Event<V>>>,
}

/// Builds a linked bounded event channel of the given capacity: a sender
/// for the traversal side, a receiving half for the consumer thread.
pub fn bounded_events<V>(cap: usize) -> (r: (ChSender<V>, CbRx<V>))
    ensures
        r.0.delivered() == Seq::<Event<V>>::empty(),
{
    let (tx, rx) = cb_bounded(cap);
    (ChSender { tx, log: Ghost(Seq::empty()) }, rx)
}

impl<V> Sender<V> for ChSender<V> {
    closed spec fn delivered(&self) -> Seq<Event<V>> {
        self.log@
    }

    open spec fn inv(&self) -> bool {
        true
    }

    /// Delivery crosses to another thread and can fail once the consumer
    /// is gone.
    open spec fn infallible(&self) -> bool {
        false
    }

    fn send(&mut self, ev: Event<V>) -> (r: Result<(), SendError>)
    {
        let ghost gev = ev;
        match cb_send(&self.tx, ev) {
            Ok(()) => {
                self.log = Ghost(self.log@.push(gev));
                Ok(())
            },
            Err(_) => Err(SendError::Closed),
        }
    }
}

/// The producing half of a ring buffer, with its delivery log. A full
/// buffer hands the event back: the caller is responsible for waiting —
/// typically parking until the consumer unparks it — and retrying.
#[verifier::reject_recursive_types(V)]
pub struct RbProducer<V> {
    p: RingTx<V>,
    log: Ghost<Seq<Event<V>>>,
}

impl<V> RbProducer<V> {
    /// The events accepted so far, in order.
    pub closed spec fn accepted(&self) -> Seq<Event<V>> {
        self.log@
    }

    /// Whether the consumer is gone: a rejection is then terminal.
    pub fn is_abandoned(&self) -> bool {
        rb_producer_abandoned(&self.p)
    }
}

impl<V> Producer<Event<V>> for RbProducer<V> {
    /// Accepts the event if a slot is free, appending it to the log, and
    /// otherwise hands it back unchanged for the caller to retry.
    fn send(&mut self, t: Event<V>) -> (r: Result<(), Event<V>>)
        ensures
            r is Ok ==> final(self).accepted() == old(self).accepted().push(t),
            r matches Err(t2) ==> t2 == t && final(self).accepted() == old(self).accepted(),
    {
        let ghost gt = t;
        match rb_push(&mut self.p, t) {
            Ok(()) => {
                self.log = Ghost(self.log@.push(gt));
                Ok(())
            },
            Err(back) => Err(back),
        }
    }
}

/// The consuming half of a ring buffer. The caller decides how to wait
/// on an empty buffer — typically unparking the producer and polling
/// again — and stops once the producer is gone and the buffer drained.
#[verifier::reject_recursive_types(V)]
pub struct RbConsumer<V> {
    c: RingRx<V>,
}

impl<V> RbConsumer<V> {
    /// Whether the producer is gone: an empty buffer is then the end of
    /// the stream.
    pub fn is_abandoned(&self) -> bool {
        rb_consumer_abandoned(&self.c)
    }
}

impl<V> Consumer<Event<V>> for RbConsumer<V> {
    fn recv(&mut self) -> (r: Option<Event<V>>) {
        rb_pop(&mut self.c)
    }
}

/// Builds a linked event ring of the given capacity.
pub fn event_ring<V>(cap: usize) -> (r: (RbProducer<V>, RbConsumer<V>))
    ensures
        r.0.accepted() == Seq::<Event<V>>::empty(),
{
    let (p, c) = rb_new(cap);
    (RbProducer { p, log: Ghost(Seq::empty()) }, RbConsumer { c })
}

/// Drains a channel into a schema collector, processing each event as it
/// arrives, until `Finished` arrives, the channel closes, or `fuel`
/// events have been handled. Reports whether the stream ended.
///
/// The collector's log grows by exactly the received events, in arrival
/// order; no appended event before the last is `Finished`; and when the
/// fuel ran out, exactly `fuel` events were handled, none of them
/// `Finished`.
#[verifier::loop_isolation(false)]
pub fn drain_schema(rx: &CbRx<SchemaType>, collector: &mut SchemaCollector, fuel: u64) -> (done:
    bool)
    ensures
        old(collector).inv() ==> final(collector).inv(),
        final(collector).delivered().len() >= old(collector).delivered().len(),
        final(collector).delivered().subrange(0, old(collector).delivered().len() as int) == old(
            collector,
        ).delivered(),
        forall|i: int|
            old(collector).delivered().len() <= i < final(collector).delivered().len() - 1
                ==> !(#[trigger] final(collector).delivered()[i] is Finished),
        !done ==> final(collector).delivered().len() == old(collector).delivered().len() + fuel,
        ({
            let post = final(collector).delivered();
            (!done && post.len() > old(collector).delivered().len()) ==> !(post.last() is Finished)
        }),
{
    let ghost base = old(collector).delivered();
    let mut left = fuel;
    loop
        invariant
            left <= fuel,
            old(collector).inv() ==> collector.inv(),
            collector.delivered().len() == base.len() + (fuel - left),
            collector.delivered().subrange(0, base.len() as int) == base,
            forall|i: int|
                base.len() <= i < collector.delivered().len() ==> !(#[trigger] collector.delivered()[i]
                    is Finished),
        decreases left,
    {
        if left == 0 {
            return false;
        }
        left = left - 1;
        match cb_recv(rx) {
            None => {
                return true;
            },
            Some(ev) => {
                let finished = matches!(ev, Event::Finished);
                let ghost pre = collector.delivered();
                match collector.send(ev) {
                    Ok(()) => {},
                    Err(_) => {},
                }
                proof {
                    assert(collector.delivered().subrange(0, base.len() as int)
                        =~= pre.subrange(0, base.len() as int));
                }
                if finished {
                    return true;
                }
            },
        }
    }
}

} // verus!
