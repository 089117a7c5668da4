//! Venue wire formats: parsing the JSON shapes each exchange sends
//! into normalized ticks and depth levels, exactly as the venues
//! document them. All prices and quantities land in fixed-point
//! units (`fixed::SCALE`).

use vstd::prelude::*;

use crate::fixed::{fixed_of, parse_fixed};
use crate::json::{json_get, json_of, json_from_text, json_str, JsonVal};
use crate::types::{ConnectorError, MarketTick, TickModel};

verus! {

/// The venues this library understands, selected by exact match;
/// the mock venue is an explicit choice, never a silent fallback.
#[derive(Clone, Copy, Debug, PartialEq, Eq, Structural)]
pub enum Venue {
    Binance,
    Coinbase,
    Kraken,
    Coingecko,
    Mock,
}

/// One `[price, qty, ...]` wire entry: both fields must be strings
/// holding fixed-point decimals.
pub open spec fn level_of_pair(item: JsonVal) -> Option<(i64, i64)> {
    match item {
        JsonVal::Arr(elems) => if elems@.len() >= 2 {
            match (json_str(elems@[0]), json_str(elems@[1])) {
                (Some(p), Some(q)) => match (fixed_of(p), fixed_of(q)) {
                    (Some(pv), Some(qv)) => Some((pv as i64, qv as i64)),
                    _ => None,
                },
                _ => None,
            }
        } else {
            None
        },
        _ => None,
    }
}

/// The first `cap` parseable `[price, qty]` entries, in order;
/// entries that do not parse are dropped.
pub open spec fn levels_of(items: Seq<JsonVal>, cap: nat) -> Seq<(i64, i64)>
    decreases items.len(),
{
    if items.len() == 0 || cap == 0 {
        Seq::empty()
    } else {
        match level_of_pair(items[0]) {
            Some(pq) => seq![pq] + levels_of(items.drop_first(), (cap - 1) as nat),
            None => levels_of(items.drop_first(), cap),
        }
    }
}

/// The `[price, qty]` levels under `key`, when it holds an array.
pub open spec fn side_levels(v: JsonVal, key: Seq<char>) -> Seq<(i64, i64)> {
    match json_get(v, key) {
        Some(JsonVal::Arr(items)) => levels_of(items@, 5),
        _ => Seq::empty(),
    }
}

/// Exec mirror of `level_of_pair`.
fn parse_pair_level(item: &JsonVal) -> (r: Option<(i64, i64)>)
    ensures
        r == level_of_pair(*item),
{
    match item {
        JsonVal::Arr(elems) => {
            if elems.len() < 2 {
                return None;
            }
            let p = match elems[0].as_str() {
                Some(s) => s,
                None => {
                    return None;
                },
            };
            let q = match elems[1].as_str() {
                Some(s) => s,
                None => {
                    return None;
                },
            };
            let pv = match parse_fixed(p.as_str()) {
                Some(v) => v,
                None => {
                    return None;
                },
            };
            let qv = match parse_fixed(q.as_str()) {
                Some(v) => v,
                None => {
                    return None;
                },
            };
            Some((pv, qv))
        },
        _ => None,
    }
}

/// The first `cap` parseable `[price, qty]` entries of the array.
fn parse_levels(items: &Vec<JsonVal>, cap: usize) -> (r: Vec<(i64, i64)>)
    ensures
        r@ == levels_of(items@, cap as nat),
{
    let n = items.len();
    let mut out: Vec<(i64, i64)> = Vec::new();
    let mut i: usize = 0;
    proof {
        assert(items@.skip(0) =~= items@);
        assert(out@ + levels_of(items@.skip(0), cap as nat) =~= levels_of(items@, cap as nat));
    }
    while i < n && out.len() < cap
        invariant
            0 <= i <= n,
            n == items@.len(),
            out@.len() <= cap,
            levels_of(items@, cap as nat) == out@ + levels_of(
                items@.skip(i as int),
                (cap - out@.len()) as nat,
            ),
        decreases n - i,
    {
        let ghost pre = out@;
        proof {
            assert(items@.skip(i as int)[0] == items@[i as int]);
            assert(items@.skip(i as int).drop_first() =~= items@.skip(i as int + 1));
        }
        match parse_pair_level(&items[i]) {
            Some(pq) => {
                out.push(pq);
                proof {
                    assert(pre + (seq![pq] + levels_of(
                        items@.skip(i as int + 1),
                        (cap - pre.len() - 1) as nat,
                    )) =~= out@ + levels_of(items@.skip(i as int + 1), (cap - out@.len()) as nat));
                }
            },
            None => {
            },
        }
        i += 1;
    }
    proof {
        if i == n {
            assert(items@.skip(n as int) =~= Seq::<JsonVal>::empty());
        }
        assert(levels_of(items@.skip(i as int), 0) == Seq::<(i64, i64)>::empty());
        assert(out@ + Seq::<(i64, i64)>::empty() =~= out@);
    }
    out
}

/// The levels under `key`, when the document holds an array there.
fn parse_side_levels(v: &JsonVal, key: &str) -> (r: Vec<(i64, i64)>)
    ensures
        r@ == side_levels(*v, key@),
{
    match v.get(key) {
        Some(child) => match child.as_arr() {
            Some(items) => parse_levels(items, 5),
            None => Vec::new(),
        },
        None => Vec::new(),
    }
}

/// Top-of-book snapshot handed outward by the connector layer: the
/// best levels of each side as (price, qty) in fixed-point units,
/// best first.
#[derive(Clone, Debug)]
pub struct OrderBook {
    pub bids: Vec<(i64, i64)>,
    pub asks: Vec<(i64, i64)>,
}

impl OrderBook {
    /// A snapshot from explicit level lists.
    pub fn new(bids: Vec<(i64, i64)>, asks: Vec<(i64, i64)>) -> (r: OrderBook)
        ensures
            r.bids == bids,
            r.asks == asks,
    {
        OrderBook { bids, asks }
    }

    /// Best bid and best ask price, zero where a side is empty.
    pub fn top(&self) -> (r: (i64, i64))
        ensures
            r.0 == if self.bids@.len() > 0 {
                self.bids@[0].0
            } else {
                0
            },
            r.1 == if self.asks@.len() > 0 {
                self.asks@[0].0
            } else {
                0
            },
    {
        let b = if self.bids.len() > 0 {
            self.bids[0].0
        } else {
            0
        };
        let a = if self.asks.len() > 0 {
            self.asks[0].0
        } else {
            0
        };
        (b, a)
    }
}

/// Where a Binance depth message keeps its payload: at the root when
/// the event or side fields sit there, else under `data`, else the
/// root after all.
pub open spec fn depth_root(v: JsonVal) -> JsonVal {
    if json_get(v, "e"@) is Some || json_get(v, "b"@) is Some || json_get(v, "a"@) is Some {
        v
    } else {
        match json_get(v, "data"@) {
            Some(d) => d,
            None => v,
        }
    }
}

/// Parse a Binance depth message: `b`/`a` arrays of
/// `[price, qty]` string pairs, at the root or under `data`, best
/// five levels each. Text that is not JSON is a parse error.
pub fn parse_binance_depth_text(txt: &str) -> (r: Result<OrderBook, ConnectorError>)
    ensures
        (r is Ok) == (json_of(txt@) is Some),
        r matches Ok(ob) ==> json_of(txt@) matches Some(doc) && ob.bids@ == side_levels(
            depth_root(doc),
            "b"@,
        ) && ob.asks@ == side_levels(depth_root(doc), "a"@),
        r matches Err(e) ==> e is Parse,
{
    let v = match json_from_text(txt) {
        Some(v) => v,
        None => {
            return Err(ConnectorError::Parse(String::new()));
        },
    };
    let at_root = match v.get("e") {
        Some(_) => true,
        None => match v.get("b") {
            Some(_) => true,
            None => match v.get("a") {
                Some(_) => true,
                None => false,
            },
        },
    };
    if at_root {
        let bids = parse_side_levels(&v, "b");
        let asks = parse_side_levels(&v, "a");
        Ok(OrderBook { bids, asks })
    } else {
        match v.get("data") {
            Some(d) => {
                let bids = parse_side_levels(d, "b");
                let asks = parse_side_levels(d, "a");
                Ok(OrderBook { bids, asks })
            },
            None => {
                let bids = parse_side_levels(&v, "b");
                let asks = parse_side_levels(&v, "a");
                Ok(OrderBook { bids, asks })
            },
        }
    }
}

/// The levels a REST depth response keeps under `key` (used by the
/// Binance and Coinbase REST books alike): the best five
/// `[price, qty]` entries.
pub fn parse_binance_rest(v: &JsonVal, key: &str) -> (r: Vec<(i64, i64)>)
    ensures
        r@ == side_levels(*v, key@),
{
    parse_side_levels(v, key)
}

/// Coinbase REST book levels: same `[price, qty]` string-pair shape.
pub fn parse_coinbase_rest(v: &JsonVal, key: &str) -> (r: Vec<(i64, i64)>)
    ensures
        r@ == side_levels(*v, key@),
{
    parse_side_levels(v, key)
}

/// Where a Kraken REST response keeps a side: under `result`, inside
/// its first pair object.
pub open spec fn kraken_rest_levels(v: JsonVal, key: Seq<char>) -> Seq<(i64, i64)> {
    match json_get(v, "result"@) {
        Some(JsonVal::Obj(fields)) => if fields@.len() > 0 {
            side_levels(fields@[0].1, key)
        } else {
            Seq::empty()
        },
        _ => Seq::empty(),
    }
}

/// Kraken REST book levels: `result` holds one object per pair; the
/// first pair's `bids`/`asks` arrays carry the levels.
pub fn parse_kraken_rest(v: &JsonVal, key: &str) -> (r: Vec<(i64, i64)>)
    ensures
        r@ == kraken_rest_levels(*v, key@),
{
    match v.get("result") {
        Some(res) => match res {
            JsonVal::Obj(fields) => {
                if fields.len() > 0 {
                    parse_side_levels(&fields[0].1, key)
                } else {
                    Vec::new()
                }
            },
            _ => Vec::new(),
        },
        None => Vec::new(),
    }
}

/// What a Coinbase level2 text yields: the parsed sides for a
/// `snapshot`, a fixed placeholder book for `l2update` and for
/// anything else.
pub open spec fn coinbase_l2_book(doc: JsonVal) -> (Seq<(i64, i64)>, Seq<(i64, i64)>) {
    let placeholder = (
        seq![(10_000_000_000i64, 100_000_000i64)],
        seq![(10_020_000_000i64, 100_000_000i64)],
    );
    match json_get(doc, "type"@) {
        Some(JsonVal::Str(t)) => if t@ == "snapshot"@ {
            (side_levels(doc, "bids"@), side_levels(doc, "asks"@))
        } else {
            placeholder
        },
        _ => placeholder,
    }
}

/// Parse a Coinbase level2 message: a `snapshot` carries full
/// `bids`/`asks`; an `l2update` (and anything unrecognized) yields
/// the fixed placeholder book this connector emits for them.
pub fn parse_coinbase_l2_text(txt: &str) -> (r: Result<OrderBook, ConnectorError>)
    ensures
        (r is Ok) == (json_of(txt@) is Some),
        r matches Ok(ob) ==> json_of(txt@) matches Some(doc) && ob.bids@ == coinbase_l2_book(
            doc,
        ).0 && ob.asks@ == coinbase_l2_book(doc).1,
        r matches Err(e) ==> e is Parse,
{
    let v = match json_from_text(txt) {
        Some(v) => v,
        None => {
            return Err(ConnectorError::Parse(String::new()));
        },
    };
    let is_snapshot = match v.get("type") {
        Some(t) => match t.as_str() {
            Some(s) => crate::json::str_eq(s.as_str(), "snapshot"),
            None => false,
        },
        None => false,
    };
    if is_snapshot {
        let bids = parse_side_levels(&v, "bids");
        let asks = parse_side_levels(&v, "asks");
        Ok(OrderBook { bids, asks })
    } else {
        let mut bids: Vec<(i64, i64)> = Vec::new();
        bids.push((10_000_000_000i64, 100_000_000i64));
        let mut asks: Vec<(i64, i64)> = Vec::new();
        asks.push((10_020_000_000i64, 100_000_000i64));
        proof {
            assert(bids@ =~= seq![(10_000_000_000i64, 100_000_000i64)]);
            assert(asks@ =~= seq![(10_020_000_000i64, 100_000_000i64)]);
        }
        Ok(OrderBook { bids, asks })
    }
}

/// What a Kraken websocket book text yields: for the array form
/// whose second element carries `bs`/`as` (a book snapshot), the
/// parsed sides; otherwise an empty book.
pub open spec fn kraken_ws_book(doc: JsonVal) -> (Seq<(i64, i64)>, Seq<(i64, i64)>) {
    match doc {
        JsonVal::Arr(items) => if items@.len() >= 2 {
            let data = items@[1];
            if json_get(data, "as"@) is Some && json_get(data, "bs"@) is Some {
                (side_levels(data, "bs"@), side_levels(data, "as"@))
            } else {
                (Seq::empty(), Seq::empty())
            }
        } else {
            (Seq::empty(), Seq::empty())
        },
        _ => (Seq::empty(), Seq::empty()),
    }
}

/// Parse a Kraken websocket book message: messages are arrays
/// `[channel, data, name, pair]`; a snapshot's data carries
/// `bs`/`as` arrays of `[price, qty, time]` string entries. Anything
/// else yields an empty book.
pub fn parse_kraken_ws_text(txt: &str) -> (r: Result<OrderBook, ConnectorError>)
    ensures
        (r is Ok) == (json_of(txt@) is Some),
        r matches Ok(ob) ==> json_of(txt@) matches Some(doc) && ob.bids@ == kraken_ws_book(
            doc,
        ).0 && ob.asks@ == kraken_ws_book(doc).1,
        r matches Err(e) ==> e is Parse,
{
    let v = match json_from_text(txt) {
        Some(v) => v,
        None => {
            return Err(ConnectorError::Parse(String::new()));
        },
    };
    match &v {
        JsonVal::Arr(items) => {
            if items.len() >= 2 {
                let data = &items[1];
                let has_both = match data.get("as") {
                    Some(_) => match data.get("bs") {
                        Some(_) => true,
                        None => false,
                    },
                    None => false,
                };
                if has_both {
                    let bids = parse_side_levels(data, "bs");
                    let asks = parse_side_levels(data, "as");
                    return Ok(OrderBook { bids, asks });
                }
                Ok(OrderBook { bids: Vec::new(), asks: Vec::new() })
            } else {
                Ok(OrderBook { bids: Vec::new(), asks: Vec::new() })
            }
        },
        _ => Ok(OrderBook { bids: Vec::new(), asks: Vec::new() }),
    }
}

/// A string field read as a fixed-point decimal.
pub open spec fn field_fixed(v: JsonVal, key: Seq<char>) -> Option<int> {
    match json_get(v, key) {
        Some(JsonVal::Str(s)) => fixed_of(s@),
        _ => None,
    }
}

/// Exec mirror of `field_fixed`.
fn parse_field_fixed(v: &JsonVal, key: &str) -> (r: Option<i64>)
    ensures
        (r is Some) == (field_fixed(*v, key@) is Some),
        r matches Some(x) ==> field_fixed(*v, key@) == Some(x as int),
{
    match v.get(key) {
        Some(child) => match child.as_str() {
            Some(s) => parse_fixed(s.as_str()),
            None => None,
        },
        None => None,
    }
}

/// A string field's characters, or the empty string when absent or
/// not a string.
pub open spec fn field_str_or_empty(v: JsonVal, key: Seq<char>) -> Seq<char> {
    match json_get(v, key) {
        Some(JsonVal::Str(s)) => s@,
        _ => Seq::empty(),
    }
}

/// Exec mirror of `field_str_or_empty`.
fn parse_field_str_or_empty(v: &JsonVal, key: &str) -> (r: String)
    ensures
        r@ == field_str_or_empty(*v, key@),
{
    match v.get(key) {
        Some(child) => match child.as_str() {
            Some(s) => s.clone(),
            None => String::new(),
        },
        None => String::new(),
    }
}

/// The tick a Binance mini-ticker array element yields: symbol and
/// best bid/ask as strings, missing or unparseable fields read as
/// empty or zero.
pub open spec fn binance_arr_tick(item: JsonVal, ts: u64) -> TickModel {
    TickModel {
        exchange: "binance"@,
        pair: field_str_or_empty(item, "s"@),
        bid: match field_fixed(item, "b"@) {
            Some(v) => v,
            None => 0,
        },
        ask: match field_fixed(item, "a"@) {
            Some(v) => v,
            None => 0,
        },
        ts: ts as int,
    }
}

/// The tick a single-object Binance ticker yields: all three fields
/// must be present as strings and both prices must parse, else no
/// tick.
pub open spec fn binance_obj_tick(v: JsonVal, ts: u64) -> Option<TickModel> {
    match json_get(v, "s"@) {
        Some(JsonVal::Str(sym)) => match (field_fixed(v, "b"@), field_fixed(v, "a"@)) {
            (Some(b), Some(a)) => Some(
                TickModel { exchange: "binance"@, pair: sym@, bid: b, ask: a, ts: ts as int },
            ),
            _ => None,
        },
        _ => None,
    }
}

/// The ticks a Binance websocket message yields: one per element of
/// a mini-ticker array, or one for a single ticker object that has
/// all its fields.
pub open spec fn binance_ticks(v: JsonVal, ts: u64) -> Seq<TickModel> {
    match v {
        JsonVal::Arr(items) => Seq::new(items@.len(), |i: int| binance_arr_tick(items@[i], ts)),
        _ => match binance_obj_tick(v, ts) {
            Some(t) => seq![t],
            None => Seq::empty(),
        },
    }
}

/// Normalize one Binance websocket message into ticks, stamped with
/// the given receive time. Text that is not JSON yields nothing (the
/// message is dropped, never fatal).
pub fn normalize_binance_text(txt: &str, ts: u64) -> (r: Option<Vec<MarketTick>>)
    ensures
        (r is Some) == (json_of(txt@) is Some),
        r matches Some(ticks) ==> json_of(txt@) matches Some(doc) && ticks@.len() == binance_ticks(
            doc,
            ts,
        ).len() && (forall|i: int|
            0 <= i < ticks@.len() ==> (#[trigger] ticks@[i])@ == binance_ticks(doc, ts)[i]),
{
    let v = match json_from_text(txt) {
        Some(v) => v,
        None => {
            return None;
        },
    };
    let ghost doc = v;
    match &v {
        JsonVal::Arr(items) => {
            let n = items.len();
            let mut out: Vec<MarketTick> = Vec::new();
            let mut i: usize = 0;
            while i < n
                invariant
                    0 <= i <= n,
                    n == items@.len(),
                    doc == JsonVal::Arr(*items),
                    out@.len() == i,
                    forall|k: int|
                        0 <= k < i ==> (#[trigger] out@[k])@ == binance_arr_tick(items@[k], ts),
                decreases n - i,
            {
                let item = &items[i];
                let bid = match parse_field_fixed(item, "b") {
                    Some(x) => x,
                    None => 0,
                };
                let ask = match parse_field_fixed(item, "a") {
                    Some(x) => x,
                    None => 0,
                };
                let pair = parse_field_str_or_empty(item, "s");
                let tick = MarketTick { exchange: "binance".to_owned(), pair, bid, ask, ts };
                out.push(tick);
                i += 1;
            }
            proof {
                assert(binance_ticks(doc, ts).len() == items@.len());
                assert forall|k: int| 0 <= k < out@.len() implies (#[trigger] out@[k])@
                    == binance_ticks(doc, ts)[k] by {
                    assert(out@[k]@ == binance_arr_tick(items@[k], ts));
                }
            }
            Some(out)
        },
        _ => {
            let sym = match v.get("s") {
                Some(child) => match child.as_str() {
                    Some(s) => Some(s.clone()),
                    None => None,
                },
                None => None,
            };
            match sym {
                Some(pair) => {
                    match (parse_field_fixed(&v, "b"), parse_field_fixed(&v, "a")) {
                        (Some(b), Some(a)) => {
                            let tick = MarketTick {
                                exchange: "binance".to_owned(),
                                pair,
                                bid: b,
                                ask: a,
                                ts,
                            };
                            let mut out: Vec<MarketTick> = Vec::new();
                            out.push(tick);
                            proof {
                                assert(binance_ticks(doc, ts).len() == 1);
                                assert(out@[0]@ == binance_ticks(doc, ts)[0]);
                            }
                            Some(out)
                        },
                        _ => {
                            proof {
                                assert(binance_ticks(doc, ts).len() == 0);
                            }
                            Some(Vec::new())
                        },
                    }
                },
                None => {
                    proof {
                        assert(binance_ticks(doc, ts).len() == 0);
                    }
                    Some(Vec::new())
                },
            }
        },
    }
}

/// The tick a Coinbase websocket message yields: only messages typed
/// `ticker` produce one; missing or unparseable fields read as empty
/// or zero.
pub open spec fn coinbase_tick(v: JsonVal, ts: u64) -> Option<TickModel> {
    match json_get(v, "type"@) {
        Some(JsonVal::Str(t)) => if t@ == "ticker"@ {
            Some(
                TickModel {
                    exchange: "coinbase"@,
                    pair: field_str_or_empty(v, "product_id"@),
                    bid: match field_fixed(v, "best_bid"@) {
                        Some(x) => x,
                        None => 0,
                    },
                    ask: match field_fixed(v, "best_ask"@) {
                        Some(x) => x,
                        None => 0,
                    },
                    ts: ts as int,
                },
            )
        } else {
            None
        },
        _ => None,
    }
}

/// Normalize one Coinbase websocket message, stamped with the given
/// receive time. Text that is not JSON yields nothing.
pub fn normalize_coinbase_text(txt: &str, ts: u64) -> (r: Option<Option<MarketTick>>)
    ensures
        (r is Some) == (json_of(txt@) is Some),
        r matches Some(t) ==> json_of(txt@) matches Some(doc) && {
            &&& (t is Some) == (coinbase_tick(doc, ts) is Some)
            &&& t matches Some(tick) ==> coinbase_tick(doc, ts) == Some(tick@)
        },
{
    let v = match json_from_text(txt) {
        Some(v) => v,
        None => {
            return None;
        },
    };
    let is_ticker = match v.get("type") {
        Some(t) => match t.as_str() {
            Some(s) => crate::json::str_eq(s.as_str(), "ticker"),
            None => false,
        },
        None => false,
    };
    if is_ticker {
        let pair = parse_field_str_or_empty(&v, "product_id");
        let bid = match parse_field_fixed(&v, "best_bid") {
            Some(x) => x,
            None => 0,
        };
        let ask = match parse_field_fixed(&v, "best_ask") {
            Some(x) => x,
            None => 0,
        };
        Some(Some(MarketTick { exchange: "coinbase".to_owned(), pair, bid, ask, ts }))
    } else {
        Some(None)
    }
}

/// The first element of an array field, read as a fixed-point
/// decimal string: how Kraken reports best bid and ask.
pub open spec fn first_entry_fixed(v: JsonVal, key: Seq<char>) -> Option<int> {
    match json_get(v, key) {
        Some(JsonVal::Arr(items)) => if items@.len() > 0 {
            match json_str(items@[0]) {
                Some(s) => fixed_of(s),
                None => None,
            }
        } else {
            None
        },
        _ => None,
    }
}

/// Exec mirror of `first_entry_fixed`.
fn parse_first_entry_fixed(v: &JsonVal, key: &str) -> (r: Option<i64>)
    ensures
        (r is Some) == (first_entry_fixed(*v, key@) is Some),
        r matches Some(x) ==> first_entry_fixed(*v, key@) == Some(x as int),
{
    match v.get(key) {
        Some(child) => match child.as_arr() {
            Some(items) => {
                if items.len() > 0 {
                    match items[0].as_str() {
                        Some(s) => parse_fixed(s.as_str()),
                        None => None,
                    }
                } else {
                    None
                }
            },
            None => None,
        },
        None => None,
    }
}

/// The tick a Kraken websocket ticker message yields: an array of at
/// least three elements whose second member carries `b`/`a` arrays
/// led by decimal strings; both prices must parse, else no tick.
pub open spec fn kraken_tick(v: JsonVal, ts: u64) -> Option<TickModel> {
    match v {
        JsonVal::Arr(items) => if items@.len() >= 3 {
            let data = items@[1];
            match (first_entry_fixed(data, "b"@), first_entry_fixed(data, "a"@)) {
                (Some(b), Some(a)) => Some(
                    TickModel {
                        exchange: "kraken"@,
                        pair: match json_str(items@[2]) {
                            Some(s) => s,
                            None => Seq::empty(),
                        },
                        bid: b,
                        ask: a,
                        ts: ts as int,
                    },
                ),
                _ => None,
            }
        } else {
            None
        },
        _ => None,
    }
}

/// Normalize one Kraken websocket ticker message, stamped with the
/// given receive time. Text that is not JSON yields nothing.
pub fn normalize_kraken_text(txt: &str, ts: u64) -> (r: Option<Option<MarketTick>>)
    ensures
        (r is Some) == (json_of(txt@) is Some),
        r matches Some(t) ==> json_of(txt@) matches Some(doc) && {
            &&& (t is Some) == (kraken_tick(doc, ts) is Some)
            &&& t matches Some(tick) ==> kraken_tick(doc, ts) == Some(tick@)
        },
{
    let v = match json_from_text(txt) {
        Some(v) => v,
        None => {
            return None;
        },
    };
    match &v {
        JsonVal::Arr(items) => {
            if items.len() >= 3 {
                let data = &items[1];
                let b = parse_first_entry_fixed(data, "b");
                let a = parse_first_entry_fixed(data, "a");
                match (b, a) {
                    (Some(bid), Some(ask)) => {
                        let pair = match items[2].as_str() {
                            Some(s) => s.clone(),
                            None => String::new(),
                        };
                        Some(Some(MarketTick {
                            exchange: "kraken".to_owned(),
                            pair,
                            bid,
                            ask,
                            ts,
                        }))
                    },
                    _ => Some(None),
                }
            } else {
                Some(None)
            }
        },
        _ => Some(None),
    }
}

/// The price a CoinGecko simple-price response reports for the given
/// asset in the given currency; the venue sends a bare number.
pub open spec fn coingecko_price(v: JsonVal, id: Seq<char>, vs: Seq<char>) -> Option<int> {
    match json_get(v, id) {
        Some(inner) => match json_get(inner, vs) {
            Some(JsonVal::Num(t)) => fixed_of(t@),
            _ => None,
        },
        _ => None,
    }
}

/// The tick a CoinGecko poll yields: the single reported price fills
/// both bid and ask (the venue quotes no spread).
pub open spec fn coingecko_tick(
    v: JsonVal,
    pair: Seq<char>,
    id: Seq<char>,
    vs: Seq<char>,
    ts: u64,
) -> Option<TickModel> {
    match coingecko_price(v, id, vs) {
        Some(p) => Some(
            TickModel { exchange: "coingecko"@, pair: pair, bid: p, ask: p, ts: ts as int },
        ),
        None => None,
    }
}

/// Normalize one CoinGecko simple-price response for the pair whose
/// asset id and currency are given. Text that is not JSON yields
/// nothing.
pub fn normalize_coingecko_text(txt: &str, pair: &str, id: &str, vs: &str, ts: u64) -> (r: Option<
    Option<MarketTick>,
>)
    ensures
        (r is Some) == (json_of(txt@) is Some),
        r matches Some(t) ==> json_of(txt@) matches Some(doc) && {
            &&& (t is Some) == (coingecko_tick(doc, pair@, id@, vs@, ts) is Some)
            &&& t matches Some(tick) ==> coingecko_tick(doc, pair@, id@, vs@, ts) == Some(tick@)
        },
{
    let v = match json_from_text(txt) {
        Some(v) => v,
        None => {
            return None;
        },
    };
    let price = match v.get(id) {
        Some(inner) => match inner.get(vs) {
            Some(p) => match p.as_num_text() {
                Some(t) => parse_fixed(t.as_str()),
                None => None,
            },
            None => None,
        },
        None => None,
    };
    match price {
        Some(p) => Some(
            Some(MarketTick { exchange: "coingecko".to_owned(), pair: pair.to_owned(), bid: p, ask: p, ts }),
        ),
        None => Some(None),
    }
}

/// Index of the first slash, or the length when there is none.
pub open spec fn slash_index(s: Seq<char>) -> int
    decreases s.len(),
{
    if s.len() == 0 {
        0
    } else if s[0] == '/' {
        0
    } else {
        1 + slash_index(s.drop_first())
    }
}

/// How many of the first `i` characters are slashes.
pub open spec fn slash_count_prefix(s: Seq<char>, i: int) -> int
    decreases i,
{
    if i <= 0 {
        0
    } else {
        slash_count_prefix(s, i - 1) + (if s[i - 1] == '/' {
            1int
        } else {
            0int
        })
    }
}

/// Split a CoinGecko pair name at its slash: `id/currency` when the
/// name has exactly one slash, else the whole name against `usd`.
pub open spec fn split_pair_spec(s: Seq<char>) -> (Seq<char>, Seq<char>) {
    if slash_count_prefix(s, s.len() as int) == 1 {
        let k = slash_index(s);
        (s.take(k), s.skip(k + 1))
    } else {
        (s, "usd"@)
    }
}

/// Where the first slash sits: before it there is none, and it is a
/// slash unless the string has none at all.
proof fn lemma_slash_index(s: Seq<char>)
    ensures
        0 <= slash_index(s) <= s.len(),
        slash_index(s) < s.len() ==> s[slash_index(s)] == '/',
        forall|k: int| 0 <= k < slash_index(s) ==> s[k] != '/',
    decreases s.len(),
{
    if s.len() > 0 && s[0] != '/' {
        lemma_slash_index(s.drop_first());
        assert forall|k: int| 0 <= k < slash_index(s) implies s[k] != '/' by {
            if k > 0 {
                assert(s.drop_first()[k - 1] != '/');
            }
        }
    }
}

/// A string whose first slash is known at index m.
proof fn lemma_slash_index_at(s: Seq<char>, m: int)
    requires
        0 <= m < s.len(),
        s[m] == '/',
        forall|k: int| 0 <= k < m ==> s[k] != '/',
    ensures
        slash_index(s) == m,
{
    lemma_slash_index(s);
    let d = slash_index(s);
    if d < m {
        assert(s[d] == '/');
        assert(s[d] != '/');
    } else if d > m {
        assert(s[m] != '/');
    }
}

/// Exec split of a pair name at its single slash.
pub fn split_pair(s: &str) -> (r: (String, String))
    ensures
        r.0@ == split_pair_spec(s@).0,
        r.1@ == split_pair_spec(s@).1,
{
    let n = s.unicode_len();
    let mut i: usize = 0;
    let mut count: usize = 0;
    let mut first: usize = 0;
    while i < n
        invariant
            0 <= i <= n,
            n == s@.len(),
            count as int == slash_count_prefix(s@, i as int),
            count > 0 ==> 0 <= first < i && s@[first as int] == '/' && (forall|k: int|
                0 <= k < first ==> s@[k] != '/'),
            count == 0 ==> forall|k: int| 0 <= k < i ==> s@[k] != '/',
            count <= i,
        decreases n - i,
    {
        if s.get_char(i) == '/' {
            if count == 0 {
                first = i;
            }
            count += 1;
        }
        i += 1;
    }
    if count == 1 {
        proof {
            lemma_slash_index_at(s@, first as int);
        }
        let head = s.substring_char(0, first);
        let tail = s.substring_char(first + 1, n);
        (head.to_owned(), tail.to_owned())
    } else {
        (s.to_owned(), "usd".to_owned())
    }
}

/// The symbols each venue is asked for by default.
pub fn list_symbols(venue: Venue) -> (r: Vec<String>)
    ensures
        venue == Venue::Binance ==> r@.len() == 3 && r@[0]@ == "BTCUSDT"@ && r@[1]@ == "ETHUSDT"@
            && r@[2]@ == "BNBUSDT"@,
        venue == Venue::Coinbase ==> r@.len() == 2 && r@[0]@ == "BTC-USD"@ && r@[1]@ == "ETH-USD"@,
        venue == Venue::Kraken ==> r@.len() == 3 && r@[0]@ == "XBTUSDT"@ && r@[1]@ == "ETHUSDT"@
            && r@[2]@ == "XXBTZUSD"@,
        venue == Venue::Coingecko ==> r@.len() == 2 && r@[0]@ == "bitcoin/usd"@ && r@[1]@
            == "ethereum/usd"@,
        venue == Venue::Mock ==> r@.len() == 2 && r@[0]@ == "BTC-USD"@ && r@[1]@ == "ETH-USD"@,
{
    let mut out: Vec<String> = Vec::new();
    match venue {
        Venue::Binance => {
            out.push("BTCUSDT".to_owned());
            out.push("ETHUSDT".to_owned());
            out.push("BNBUSDT".to_owned());
        },
        Venue::Coinbase => {
            out.push("BTC-USD".to_owned());
            out.push("ETH-USD".to_owned());
        },
        Venue::Kraken => {
            out.push("XBTUSDT".to_owned());
            out.push("ETHUSDT".to_owned());
            out.push("XXBTZUSD".to_owned());
        },
        Venue::Coingecko => {
            out.push("bitcoin/usd".to_owned());
            out.push("ethereum/usd".to_owned());
        },
        Venue::Mock => {
            out.push("BTC-USD".to_owned());
            out.push("ETH-USD".to_owned());
        },
    }
    out
}

/// The synthetic snapshot the mock venue serves: mid 100, spread
/// one tenth of a percent, a second level a tenth of a percent out
/// on each side.
pub fn mock_book() -> (r: OrderBook)
    ensures
        r.bids@ == seq![
            (9_995_000_000i64, 100_000_000i64),
            (9_985_005_000i64, 200_000_000i64),
        ],
        r.asks@ == seq![
            (10_005_000_000i64, 100_000_000i64),
            (10_015_005_000i64, 200_000_000i64),
        ],
{
    let mut bids: Vec<(i64, i64)> = Vec::new();
    bids.push((9_995_000_000i64, 100_000_000i64));
    bids.push((9_985_005_000i64, 200_000_000i64));
    let mut asks: Vec<(i64, i64)> = Vec::new();
    asks.push((10_005_000_000i64, 100_000_000i64));
    asks.push((10_015_005_000i64, 200_000_000i64));
    proof {
        assert(bids@ =~= seq![
            (9_995_000_000i64, 100_000_000i64),
            (9_985_005_000i64, 200_000_000i64),
        ]);
        assert(asks@ =~= seq![
            (10_005_000_000i64, 100_000_000i64),
            (10_015_005_000i64, 200_000_000i64),
        ]);
    }
    OrderBook { bids, asks }
}

} // verus!
