//! The aggregator hub, the connector session state machine, and the
//! book actor.

use hft_core::aggregator::{poll_tick, subscriber_step, Aggregator, RecvPoll, SubscriberAction};
use hft_core::matching_engine::Side;
use hft_core::orderbook::OrderBook;
use hft_core::session::{
    apply_command, BookCommand, BookReply, ConnAction, ConnEvent, ConnState, ConnectorSession,
};
use hft_core::types::MarketTick;

const U: i64 = 100_000_000;

fn tick(exchange: &str, pair: &str, px: i64) -> MarketTick {
    MarketTick { exchange: exchange.to_string(), pair: pair.to_string(), bid: px, ask: px, ts: 1 }
}

#[test]
fn fan_out_preserves_per_producer_order_for_every_subscriber() {
    let agg = Aggregator::new(16);
    let mut s1 = agg.subscribe();
    let mut s2 = agg.subscribe();
    // two producers, each with its own sending handle
    let a = agg.sender();
    let b = agg.sender();
    assert!(a.send(tick("a", "A1", 1 * U)).is_ok());
    assert!(b.send(tick("b", "B1", 2 * U)).is_ok());
    assert!(a.send(tick("a", "A2", 3 * U)).is_ok());
    // both subscribers observe every tick, with each producer's
    // internal order preserved
    for sub in [&mut s1, &mut s2] {
        let mut a_seen = Vec::new();
        let mut b_seen = Vec::new();
        loop {
            match poll_tick(sub) {
                RecvPoll::Item(t) => {
                    if t.exchange == "a" {
                        a_seen.push(t.pair);
                    } else {
                        b_seen.push(t.pair);
                    }
                }
                RecvPoll::Empty => break,
                RecvPoll::Lagged(_) => continue,
                RecvPoll::Closed => break,
            }
        }
        assert_eq!(a_seen, vec!["A1", "A2"]);
        assert_eq!(b_seen, vec!["B1"]);
    }
}

#[test]
fn publish_without_subscribers_returns_the_tick() {
    let agg = Aggregator::new(4);
    let t = tick("x", "P", 5);
    match agg.publish(t) {
        Err(back) => assert_eq!(back.pair, "P"),
        Ok(_) => panic!("no subscriber existed"),
    }
    let _sub = agg.subscribe();
    assert!(matches!(agg.publish(tick("x", "P", 5)), Ok(1)));
}

#[test]
fn slow_subscriber_is_lagged_not_blocking() {
    let agg = Aggregator::new(1);
    let mut sub = agg.subscribe();
    // the producer keeps going regardless of the slow subscriber
    assert!(agg.publish(tick("x", "T1", 1)).is_ok());
    assert!(agg.publish(tick("x", "T2", 2)).is_ok());
    assert!(agg.publish(tick("x", "T3", 3)).is_ok());
    // the subscriber observes the lag, then resumes at the oldest
    // retained tick
    match poll_tick(&mut sub) {
        RecvPoll::Lagged(n) => assert!(n >= 1),
        other => panic!("expected a lag, got {:?}", other),
    }
    match poll_tick(&mut sub) {
        RecvPoll::Item(t) => assert_eq!(t.pair, "T3"),
        other => panic!("expected the retained tick, got {:?}", other),
    }
}

#[test]
fn subscriber_policy_maps_each_outcome() {
    assert!(matches!(
        subscriber_step(RecvPoll::Item(tick("x", "P", 1))),
        SubscriberAction::Deliver(_)
    ));
    assert!(matches!(subscriber_step(RecvPoll::Empty), SubscriberAction::Wait));
    assert!(matches!(subscriber_step(RecvPoll::Lagged(3)), SubscriberAction::Resume));
    assert!(matches!(subscriber_step(RecvPoll::Closed), SubscriberAction::Stop));
}

#[test]
fn backoff_doubles_to_cap_and_resets_on_success() {
    let mut s = ConnectorSession::new();
    assert_eq!(s.state, ConnState::Connecting);
    assert_eq!(s.backoff.delay_secs, 1);
    let mut delays = Vec::new();
    for _ in 0..6 {
        match s.step(ConnEvent::ReadError) {
            ConnAction::Sleep(d) => delays.push(d),
            ConnAction::Continue => panic!("a failure must sleep"),
        }
        assert_eq!(s.state, ConnState::Backoff);
        assert_eq!(s.step(ConnEvent::TimerElapsed), ConnAction::Continue);
        assert_eq!(s.state, ConnState::Connecting);
    }
    assert_eq!(delays, vec![1, 2, 4, 8, 16, 30]);
    // a successful connection resets the delay
    assert_eq!(s.step(ConnEvent::Connected), ConnAction::Continue);
    assert_eq!(s.state, ConnState::Streaming);
    assert_eq!(s.backoff.delay_secs, 1);
    // a close frame drops back to backoff; there is no terminal state
    match s.step(ConnEvent::CloseFrame) {
        ConnAction::Sleep(d) => assert_eq!(d, 1),
        ConnAction::Continue => panic!("a close frame must sleep"),
    }
    assert_eq!(s.state, ConnState::Backoff);
}

#[test]
fn unexpected_events_leave_the_session_alone() {
    let mut s = ConnectorSession::new();
    assert_eq!(s.step(ConnEvent::TimerElapsed), ConnAction::Continue);
    assert_eq!(s.state, ConnState::Connecting);
    assert_eq!(s.step(ConnEvent::Connected), ConnAction::Continue);
    assert_eq!(s.step(ConnEvent::Connected), ConnAction::Continue);
    assert_eq!(s.state, ConnState::Streaming);
}

#[test]
fn book_actor_applies_commands_in_order() {
    let mut book = OrderBook::new();
    let r = apply_command(
        &mut book,
        BookCommand::Snapshot {
            bids: vec![(100 * U, 1 * U)],
            asks: vec![(101 * U, 2 * U)],
            ts: 4,
        },
    );
    assert!(matches!(r, BookReply::Applied(Ok(()))));
    let r = apply_command(&mut book, BookCommand::Delta { bids: vec![], asks: vec![(101 * U, 0)], ts: 5 });
    assert!(matches!(r, BookReply::Applied(Ok(()))));
    assert_eq!(book.best_ask(), None);
    let r = apply_command(
        &mut book,
        BookCommand::Limit { side: Side::Sell, price: 102 * U, qty: 1 * U, ts: 6 },
    );
    assert!(matches!(r, BookReply::Placed(Ok(()))));
    match apply_command(&mut book, BookCommand::Market { side: Side::Buy, qty: 5 * U }) {
        BookReply::Execution(filled, cost, fills) => {
            assert_eq!(filled, 1 * U);
            assert_eq!(cost, (102 * U as i128) * (U as i128));
            assert_eq!(fills.len(), 1);
        }
        other => panic!("expected an execution, got {:?}", other),
    }
}
