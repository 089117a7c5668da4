//! Leaf value types shared by connectors, aggregator and book.

use vstd::prelude::*;

verus! {

/// Mathematical model of a normalized tick.
#[verifier::ext_equal]
pub struct TickModel {
    pub exchange: Seq<char>,
    pub pair: Seq<char>,
    pub bid: int,
    pub ask: int,
    pub ts: int,
}

/// A normalized best-bid/best-ask observation for one pair at one
/// exchange; prices are fixed-point (`fixed::SCALE`), the timestamp
/// is milliseconds since the epoch.
#[derive(Clone, Debug)]
pub struct MarketTick {
    pub exchange: String,
    pub pair: String,
    pub bid: i64,
    pub ask: i64,
    pub ts: u64,
}

impl View for MarketTick {
    type V = TickModel;

    open spec fn view(&self) -> TickModel {
        TickModel {
            exchange: self.exchange@,
            pair: self.pair@,
            bid: self.bid as int,
            ask: self.ask as int,
            ts: self.ts as int,
        }
    }
}

/// One price level of a snapshot or delta, in fixed-point units.
#[derive(Clone, Copy, Debug, PartialEq, Eq, Structural)]
pub struct OrderBookLevel {
    pub price: i64,
    pub qty: i64,
}

/// A full depth snapshot for one pair at one exchange.
#[derive(Clone, Debug)]
pub struct OrderBookSnapshot {
    pub exchange: String,
    pub pair: String,
    pub bids: Vec<OrderBookLevel>,
    pub asks: Vec<OrderBookLevel>,
    pub ts: u64,
}

impl OrderBookSnapshot {
    /// A snapshot from (price, qty) level lists, best levels first.
    pub fn from_levels(
        exchange: String,
        pair: String,
        bids: Vec<(i64, i64)>,
        asks: Vec<(i64, i64)>,
        ts: u64,
    ) -> (r: OrderBookSnapshot)
        ensures
            r.exchange == exchange,
            r.pair == pair,
            r.ts == ts,
            r.bids@.len() == bids@.len(),
            forall|i: int|
                0 <= i < bids@.len() ==> #[trigger] r.bids@[i] == (OrderBookLevel {
                    price: bids@[i].0,
                    qty: bids@[i].1,
                }),
            r.asks@.len() == asks@.len(),
            forall|i: int|
                0 <= i < asks@.len() ==> #[trigger] r.asks@[i] == (OrderBookLevel {
                    price: asks@[i].0,
                    qty: asks@[i].1,
                }),
    {
        OrderBookSnapshot {
            exchange,
            pair,
            bids: levels_from_pairs(bids),
            asks: levels_from_pairs(asks),
            ts,
        }
    }
}

/// (price, qty) pairs as snapshot levels, in order.
fn levels_from_pairs(pairs: Vec<(i64, i64)>) -> (r: Vec<OrderBookLevel>)
    ensures
        r@.len() == pairs@.len(),
        forall|i: int|
            0 <= i < pairs@.len() ==> #[trigger] r@[i] == (OrderBookLevel {
                price: pairs@[i].0,
                qty: pairs@[i].1,
            }),
{
    let n = pairs.len();
    let mut out: Vec<OrderBookLevel> = Vec::new();
    let mut i: usize = 0;
    while i < n
        invariant
            0 <= i <= n,
            n == pairs@.len(),
            out@.len() == i,
            forall|k: int|
                0 <= k < i ==> #[trigger] out@[k] == (OrderBookLevel {
                    price: pairs@[k].0,
                    qty: pairs@[k].1,
                }),
        decreases n - i,
    {
        let (p, q) = pairs[i];
        out.push(OrderBookLevel { price: p, qty: q });
        i += 1;
    }
    out
}

/// Connector-level failures: all recoverable, reported for logging
/// and the backoff cycle, never fatal to the process.
#[derive(Clone, Debug)]
pub enum ConnectorError {
    Network(String),
    Parse(String),
    Other(String),
}

} // verus!
