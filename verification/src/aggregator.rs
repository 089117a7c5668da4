//! Fan-in/fan-out hub: many producers publish normalized ticks into
//! one broadcast channel; many independent subscribers read it. A
//! slow subscriber is lagged past (data loss), never allowed to slow
//! the producers.
//!
//! The channel itself is tokio's broadcast primitive, reached
//! through trusted wrappers; the library adds the subscriber policy
//! as a verified decision function.

use vstd::prelude::*;

use crate::types::MarketTick;

verus! {

/// Outcome of polling a subscription without waiting.
#[derive(Clone, Debug)]
pub enum RecvPoll {
    /// The next tick, in the producer's order.
    Item(MarketTick),
    /// Nothing buffered right now; senders still exist.
    Empty,
    /// The subscriber fell behind and this many ticks were
    /// overwritten; it stays subscribed at the oldest retained tick.
    Lagged(u64),
    /// Every sender is gone; no further tick will ever arrive.
    Closed,
}

/// What a subscriber does with one poll outcome.
#[derive(Clone, Debug)]
pub enum SubscriberAction {
    /// Hand the tick to the consumer.
    Deliver(MarketTick),
    /// Nothing to do yet; poll again later.
    Wait,
    /// Data was lost; resume from the next available tick.
    Resume,
    /// The subscription ended cleanly.
    Stop,
}

/// The slow-subscriber policy: deliver what arrives, treat a lag as
/// recoverable (skip forward and resume), and stop only when the
/// channel is closed.
pub open spec fn spec_subscriber_step(p: RecvPoll) -> SubscriberAction {
    match p {
        RecvPoll::Item(t) => SubscriberAction::Deliver(t),
        RecvPoll::Empty => SubscriberAction::Wait,
        RecvPoll::Lagged(_) => SubscriberAction::Resume,
        RecvPoll::Closed => SubscriberAction::Stop,
    }
}

/// Decide what a subscriber does with one poll outcome.
pub fn subscriber_step(p: RecvPoll) -> (r: SubscriberAction)
    ensures
        r == spec_subscriber_step(p),
{
    match p {
        RecvPoll::Item(t) => SubscriberAction::Deliver(t),
        RecvPoll::Empty => SubscriberAction::Wait,
        RecvPoll::Lagged(_) => SubscriberAction::Resume,
        RecvPoll::Closed => SubscriberAction::Stop,
    }
}

/// Relies on `tokio::sync::broadcast::Sender`: the sending half of
/// the broadcast channel.
#[verifier::external_type_specification]
#[verifier::external_body]
#[verifier::reject_recursive_types(T)]
pub struct ExBroadcastSender<T>(tokio::sync::broadcast::Sender<T>);

/// Relies on `tokio::sync::broadcast::Receiver`: one subscriber's
/// cursor into the broadcast channel.
#[verifier::external_type_specification]
#[verifier::external_body]
#[verifier::reject_recursive_types(T)]
pub struct ExBroadcastReceiver<T>(tokio::sync::broadcast::Receiver<T>);

/// Relies on `tokio::sync::broadcast::channel`: allocates a channel
/// of the given capacity. It panics on a capacity of zero or above
/// `usize::MAX / 2`, so those are excluded here.
#[verifier::external_body]
fn broadcast_channel(capacity: usize) -> (r: (
    tokio::sync::broadcast::Sender<MarketTick>,
    tokio::sync::broadcast::Receiver<MarketTick>,
))
    requires
        1 <= capacity <= usize::MAX / 2,
{
    tokio::sync::broadcast::channel(capacity)
}

/// Relies on `tokio::sync::broadcast::Sender::send`: delivers the
/// tick to every receiver subscribed at send time and reports how
/// many there were (at least one on success), or hands the tick back
/// unchanged when no receiver exists. Producers are never blocked.
#[verifier::external_body]
fn broadcast_send(tx: &tokio::sync::broadcast::Sender<MarketTick>, tick: MarketTick) -> (r: Result<
    usize,
    MarketTick,
>)
    ensures
        r matches Ok(n) ==> n >= 1,
        r matches Err(t) ==> t == tick,
{
    match tx.send(tick) {
        Ok(n) => Ok(n),
        Err(e) => Err(e.0),
    }
}

/// Relies on `tokio::sync::broadcast::Sender::subscribe`: a new
/// receiver that observes every tick sent after this call.
#[verifier::external_body]
fn broadcast_subscribe(tx: &tokio::sync::broadcast::Sender<MarketTick>) -> (r:
    tokio::sync::broadcast::Receiver<MarketTick>)
{
    tx.subscribe()
}

/// Relies on `tokio::sync::broadcast::Sender::clone`: another handle
/// to the same channel.
#[verifier::external_body]
fn broadcast_clone_sender(tx: &tokio::sync::broadcast::Sender<MarketTick>) -> (r:
    tokio::sync::broadcast::Sender<MarketTick>)
{
    tx.clone()
}

/// Relies on `tokio::sync::broadcast::Receiver::try_recv`: the next
/// buffered tick in send order, or empty, or how many ticks this
/// lagging receiver missed (its cursor then resumes at the oldest
/// retained tick), or closed once all senders are gone; one arm per
/// outcome.
#[verifier::external_body]
fn broadcast_try_recv(rx: &mut tokio::sync::broadcast::Receiver<MarketTick>) -> (r: RecvPoll) {
    match rx.try_recv() {
        Ok(t) => RecvPoll::Item(t),
        Err(tokio::sync::broadcast::error::TryRecvError::Empty) => RecvPoll::Empty,
        Err(tokio::sync::broadcast::error::TryRecvError::Lagged(n)) => RecvPoll::Lagged(n),
        Err(tokio::sync::broadcast::error::TryRecvError::Closed) => RecvPoll::Closed,
    }
}

/// The hub: one broadcast channel that all producers publish into
/// and every subscriber reads from.
pub struct Aggregator {
    tx: tokio::sync::broadcast::Sender<MarketTick>,
}

impl Aggregator {
    /// A hub whose broadcast buffer holds `buffer` ticks; a
    /// subscriber that falls further behind than that is lagged.
    pub fn new(buffer: usize) -> (r: Aggregator)
        requires
            1 <= buffer <= usize::MAX / 2,
    {
        let (tx, _rx) = broadcast_channel(buffer);
        Aggregator { tx }
    }

    /// A new independent subscription; it observes every tick
    /// published after this call, in publication order.
    pub fn subscribe(&self) -> (r: tokio::sync::broadcast::Receiver<MarketTick>) {
        broadcast_subscribe(&self.tx)
    }

    /// Another sending handle onto the hub, for a producer to own.
    pub fn sender(&self) -> (r: tokio::sync::broadcast::Sender<MarketTick>) {
        broadcast_clone_sender(&self.tx)
    }

    /// Publish one tick to every current subscriber. When none is
    /// subscribed the tick comes back unchanged; that is not an
    /// error, there is simply nobody to deliver to.
    pub fn publish(&self, tick: MarketTick) -> (r: Result<usize, MarketTick>)
        ensures
            r matches Ok(n) ==> n >= 1,
            r matches Err(t) ==> t == tick,
    {
        broadcast_send(&self.tx, tick)
    }
}

/// Poll a subscription without waiting.
pub fn poll_tick(rx: &mut tokio::sync::broadcast::Receiver<MarketTick>) -> (r: RecvPoll) {
    broadcast_try_recv(rx)
}

} // verus!
