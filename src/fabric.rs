//! The fabric router: moves each ingress event onto its shard's bounded
//! queue and wakes the shard.
use vstd::prelude::*;

use crossbeam_channel::{Receiver, Sender};
use crossbeam_queue::ArrayQueue;
use std::sync::Arc;

use crate::types::Event;

verus! {

/// crossbeam_queue's bounded multi-producer queue, carried through opaquely.
#[verifier::external_type_specification]
#[verifier::external_body]
#[verifier::reject_recursive_types(T)]
pub struct ExArrayQueue<T>(ArrayQueue<T>);

/// crossbeam_channel's sending half, carried through opaquely.
#[verifier::external_type_specification]
#[verifier::external_body]
#[verifier::reject_recursive_types(T)]
pub struct ExSender<T>(Sender<T>);

/// crossbeam_channel's receiving half, carried through opaquely.
#[verifier::external_type_specification]
#[verifier::external_body]
#[verifier::reject_recursive_types(T)]
pub struct ExReceiver<T>(Receiver<T>);

/// Relies on crossbeam_queue's `ArrayQueue::push`: a full queue refuses the
/// value and hands it back unchanged.
#[verifier::external_body]
fn push_event(queue: &Arc<ArrayQueue<Event>>, event: Event) -> (r: Result<(), Event>)
    ensures
        r matches Err(e) ==> e == event,
{
    queue.push(event)
}

/// Relies on crossbeam_channel's `Sender::send`: `true` when the wakeup was
/// delivered to the channel, `false` when its receiver is gone.
#[verifier::external_body]
fn send_wakeup(wakeup: &Sender<()>) -> (r: bool) {
    wakeup.send(()).is_ok()
}

/// Where the events of one symbol go: the shard's bounded queue and the
/// channel that wakes it.
pub struct ShardRoute {
    pub symbol: String,
    pub queue: Arc<ArrayQueue<Event>>,
    pub wakeup: Sender<()>,
}

/// What became of a routed event.
#[derive(Debug, Clone, Copy, PartialEq, Eq, Structural)]
pub enum RouteOutcome {
    /// On the shard's queue, and the shard signalled.
    Routed,
    /// On the shard's queue, but the shard's wakeup channel is closed.
    WakeupFailed,
    /// Dropped: the shard's queue is full.  No wakeup was sent.
    QueueFull,
    /// Dropped: no shard trades the event's symbol.
    UnknownSymbol,
}

/// Routes events from the shared ingress channel to the shards.
pub struct Fabric {
    pub ingress_receiver: Receiver<Event>,
    pub routes: Vec<ShardRoute>,
}

impl Fabric {
    pub fn new(ingress_receiver: Receiver<Event>, routes: Vec<ShardRoute>) -> (r: Fabric)
        ensures
            r.routes@ == routes@,
    {
        Fabric { ingress_receiver, routes }
    }

    /// True when some shard trades `symbol`.
    pub open spec fn routes_symbol(&self, symbol: Seq<char>) -> bool {
        exists|i: int| 0 <= i < self.routes@.len() && #[trigger] self.routes@[i].symbol@ == symbol
    }

    /// The first route for `symbol`, if any.
    pub fn find_route(&self, symbol: &String) -> (r: Option<usize>)
        ensures
            r matches Some(i) ==> i < self.routes@.len() && self.routes@[i as int].symbol@ == symbol@,
            r is None <==> !self.routes_symbol(symbol@),
    {
        let mut i: usize = 0;
        while i < self.routes.len()
            invariant
                0 <= i <= self.routes@.len(),
                forall|j: int| 0 <= j < i ==> #[trigger] self.routes@[j].symbol@ != symbol@,
            decreases self.routes@.len() - i,
        {
            if self.routes[i].symbol == *symbol {
                return Some(i);
            }
            i = i + 1;
        }
        None
    }

    /// Moves `event` onto its shard's queue and, when the push succeeds,
    /// wakes the shard.  An event whose symbol no shard trades, or whose
    /// shard's queue is full, is dropped.
    pub fn route_event(&self, event: Event) -> (r: RouteOutcome)
        ensures
            r == RouteOutcome::UnknownSymbol <==> !self.routes_symbol(event.symbol@),
    {
        match self.find_route(&event.symbol) {
            None => RouteOutcome::UnknownSymbol,
            Some(i) => {
                let route = &self.routes[i];
                match push_event(&route.queue, event) {
                    Err(_) => RouteOutcome::QueueFull,
                    Ok(()) => {
                        if send_wakeup(&route.wakeup) {
                            RouteOutcome::Routed
                        } else {
                            RouteOutcome::WakeupFailed
                        }
                    },
                }
            },
        }
    }
}

} // verus!
