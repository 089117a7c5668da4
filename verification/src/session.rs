//! Connector session lifecycle and the single-writer book actor.
//!
//! A connector session moves between connecting, streaming and
//! backing off; it never terminates on a transient failure. The
//! backoff delay starts at one second, doubles per consecutive
//! failure, is capped, and resets on any successful connection.
//!
//! The book actor receives snapshot, delta and matching commands
//! over a channel and applies them to the one book it owns, so the
//! single-writer rule is structural.

use vstd::prelude::*;

use crate::matching_engine::{
    execute_market, fills_match, market_sweep, place_limit, place_verdict, Fill, Side,
};
use crate::orderbook::{
    book_wf, delta_verdict, snapshot_verdict, BookError, OrderBook,
};

verus! {

/// The delay a fresh session starts from, in seconds.
pub const INITIAL_BACKOFF_SECS: u64 = 1;

/// The cap on the reconnect delay, in seconds.
pub const MAX_BACKOFF_SECS: u64 = 30;

/// The delay after one more consecutive failure: doubled, capped.
pub open spec fn spec_next_backoff(d: u64) -> u64 {
    if 2 * d > MAX_BACKOFF_SECS {
        MAX_BACKOFF_SECS
    } else {
        (2 * d) as u64
    }
}

/// A session's reconnect delay.
#[derive(Clone, Copy, Debug, PartialEq, Eq, Structural)]
pub struct Backoff {
    pub delay_secs: u64,
}

/// The delay is always between the initial value and the cap.
pub open spec fn backoff_wf(b: Backoff) -> bool {
    INITIAL_BACKOFF_SECS <= b.delay_secs <= MAX_BACKOFF_SECS
}

impl Backoff {
    /// A fresh backoff at the initial delay.
    pub fn new() -> (r: Backoff)
        ensures
            r.delay_secs == INITIAL_BACKOFF_SECS,
            backoff_wf(r),
    {
        Backoff { delay_secs: INITIAL_BACKOFF_SECS }
    }

    /// One more consecutive failure: the delay doubles, up to the cap.
    pub fn on_failure(&mut self)
        requires
            backoff_wf(*old(self)),
        ensures
            final(self).delay_secs == spec_next_backoff(old(self).delay_secs),
            backoff_wf(*final(self)),
    {
        if self.delay_secs > MAX_BACKOFF_SECS / 2 {
            self.delay_secs = MAX_BACKOFF_SECS;
        } else {
            self.delay_secs = 2 * self.delay_secs;
        }
    }

    /// A successful connection: the delay resets to the start.
    pub fn on_success(&mut self)
        ensures
            final(self).delay_secs == INITIAL_BACKOFF_SECS,
            backoff_wf(*final(self)),
    {
        self.delay_secs = INITIAL_BACKOFF_SECS;
    }
}

/// Where a connector session stands; there is no terminal state.
#[derive(Clone, Copy, Debug, PartialEq, Eq, Structural)]
pub enum ConnState {
    /// Trying to establish the transport.
    Connecting,
    /// Connected and reading messages.
    Streaming,
    /// Waiting out the reconnect delay.
    Backoff,
}

/// What the session observed.
#[derive(Clone, Copy, Debug, PartialEq, Eq, Structural)]
pub enum ConnEvent {
    /// The handshake succeeded.
    Connected,
    /// Connecting or reading failed.
    ReadError,
    /// The peer closed the stream.
    CloseFrame,
    /// The backoff delay has elapsed.
    TimerElapsed,
}

/// What the surrounding loop must do next.
#[derive(Clone, Copy, Debug, PartialEq, Eq, Structural)]
pub enum ConnAction {
    /// Keep going in the current state.
    Continue,
    /// Sleep this many seconds, then report `TimerElapsed`.
    Sleep(u64),
}

/// The lifecycle: connecting becomes streaming on a successful
/// handshake; a read error or close frame drops back to backoff;
/// after the delay the session reconnects. Unexpected events leave
/// the state alone.
pub open spec fn spec_conn_step(s: ConnState, e: ConnEvent) -> ConnState {
    match (s, e) {
        (ConnState::Connecting, ConnEvent::Connected) => ConnState::Streaming,
        (ConnState::Connecting, ConnEvent::ReadError) => ConnState::Backoff,
        (ConnState::Streaming, ConnEvent::ReadError) => ConnState::Backoff,
        (ConnState::Streaming, ConnEvent::CloseFrame) => ConnState::Backoff,
        (ConnState::Backoff, ConnEvent::TimerElapsed) => ConnState::Connecting,
        _ => s,
    }
}

/// A connector session: its lifecycle state and reconnect delay.
#[derive(Clone, Copy, Debug, PartialEq, Eq, Structural)]
pub struct ConnectorSession {
    pub state: ConnState,
    pub backoff: Backoff,
}

impl ConnectorSession {
    /// A fresh session, about to connect for the first time.
    pub fn new() -> (r: ConnectorSession)
        ensures
            r.state == ConnState::Connecting,
            r.backoff.delay_secs == INITIAL_BACKOFF_SECS,
            backoff_wf(r.backoff),
    {
        ConnectorSession { state: ConnState::Connecting, backoff: Backoff::new() }
    }

    /// Advance the session by one event. A successful connection
    /// resets the delay; a failure moves to backoff, tells the loop
    /// to sleep the current delay, and doubles it for the next
    /// failure; everything else just continues.
    pub fn step(&mut self, e: ConnEvent) -> (r: ConnAction)
        requires
            backoff_wf(old(self).backoff),
        ensures
            final(self).state == spec_conn_step(old(self).state, e),
            backoff_wf(final(self).backoff),
            old(self).state == ConnState::Connecting && e == ConnEvent::Connected ==> final(self).backoff.delay_secs == INITIAL_BACKOFF_SECS && r == ConnAction::Continue,
            (old(self).state == ConnState::Connecting || old(self).state == ConnState::Streaming)
                && (e == ConnEvent::ReadError || e == ConnEvent::CloseFrame) && spec_conn_step(
                old(self).state,
                e,
            ) == ConnState::Backoff ==> r == ConnAction::Sleep(old(self).backoff.delay_secs)
                && final(self).backoff.delay_secs == spec_next_backoff(
                old(self).backoff.delay_secs,
            ),
            old(self).state == ConnState::Backoff ==> final(self).backoff == old(self).backoff && r
                == ConnAction::Continue,
            spec_conn_step(old(self).state, e) == old(self).state && !(old(self).state
                == ConnState::Connecting && e == ConnEvent::Connected) ==> final(self).backoff
                == old(self).backoff,
    {
        match (self.state, e) {
            (ConnState::Connecting, ConnEvent::Connected) => {
                self.state = ConnState::Streaming;
                self.backoff.on_success();
                ConnAction::Continue
            },
            (ConnState::Connecting, ConnEvent::ReadError) => {
                self.state = ConnState::Backoff;
                let delay = self.backoff.delay_secs;
                self.backoff.on_failure();
                ConnAction::Sleep(delay)
            },
            (ConnState::Streaming, ConnEvent::ReadError) => {
                self.state = ConnState::Backoff;
                let delay = self.backoff.delay_secs;
                self.backoff.on_failure();
                ConnAction::Sleep(delay)
            },
            (ConnState::Streaming, ConnEvent::CloseFrame) => {
                self.state = ConnState::Backoff;
                let delay = self.backoff.delay_secs;
                self.backoff.on_failure();
                ConnAction::Sleep(delay)
            },
            (ConnState::Backoff, ConnEvent::TimerElapsed) => {
                self.state = ConnState::Connecting;
                ConnAction::Continue
            },
            _ => ConnAction::Continue,
        }
    }
}

/// One command for the actor that owns a book.
#[derive(Clone, Debug)]
pub enum BookCommand {
    /// Replace the whole book with these levels.
    Snapshot { bids: Vec<(i64, i64)>, asks: Vec<(i64, i64)>, ts: i64 },
    /// Apply absolute depth deltas to both sides.
    Delta { bids: Vec<(i64, i64)>, asks: Vec<(i64, i64)>, ts: i64 },
    /// Simulate a market order.
    Market { side: Side, qty: i64 },
    /// Rest a limit order.
    Limit { side: Side, price: i64, qty: i64, ts: i64 },
}

/// What the actor answers.
#[derive(Debug)]
pub enum BookReply {
    /// Verdict of a snapshot or delta application.
    Applied(Result<(), BookError>),
    /// Filled quantity, exact cost, and fills of a market order.
    Execution(i64, i128, Vec<Fill>),
    /// Verdict of a limit placement.
    Placed(Result<(), BookError>),
}

/// Apply one command to the book this actor owns. Each command kind
/// behaves exactly as the operation it names: snapshots and deltas
/// validate and rebuild, market orders sweep, limit orders rest.
pub fn apply_command(book: &mut OrderBook, cmd: BookCommand) -> (r: BookReply)
    requires
        book_wf(old(book)@),
    ensures
        book_wf(final(book)@),
        cmd matches BookCommand::Snapshot { bids, asks, ts } ==> r matches BookReply::Applied(v)
            && v == snapshot_verdict(bids@, asks@) && (v is Ok ==> final(book)@.ts == ts),
        cmd matches BookCommand::Delta { bids, asks, ts } ==> r matches BookReply::Applied(v) && v
            == delta_verdict(old(book)@, bids@, asks@) && (v is Ok ==> final(book)@.ts == ts),
        cmd matches BookCommand::Market { side, qty } ==> r matches BookReply::Execution(f, c, fs)
            && ({
            let pre = if side == Side::Sell {
                old(book)@.bids
            } else {
                old(book)@.asks
            };
            let w = market_sweep(pre, qty as int, side == Side::Sell);
            f as int == w.filled && c as int == w.cost && fills_match(fs@, w.fills)
        }),
        cmd matches BookCommand::Limit { side, price, qty, ts } ==> r matches BookReply::Placed(v)
            && v == place_verdict(old(book)@, side, price, qty),
{
    match cmd {
        BookCommand::Snapshot { bids, asks, ts } => {
            let v = book.apply_snapshot(&bids, &asks, ts);
            BookReply::Applied(v)
        },
        BookCommand::Delta { bids, asks, ts } => {
            let v = book.apply_delta(&bids, &asks, ts);
            BookReply::Applied(v)
        },
        BookCommand::Market { side, qty } => {
            let (f, c, fills) = execute_market(book, side, qty);
            BookReply::Execution(f, c, fills)
        },
        BookCommand::Limit { side, price, qty, ts } => {
            let v = place_limit(book, side, price, qty, ts);
            BookReply::Placed(v)
        },
    }
}

} // verus!
