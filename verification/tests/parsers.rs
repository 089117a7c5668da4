//! Wire-format parsing: fixed-point decimals and the venue JSON
//! shapes, exercised end to end through the JSON text entry points.

use hft_core::connectors::{
    list_symbols, mock_book, normalize_binance_text, normalize_coinbase_text,
    normalize_coingecko_text, normalize_kraken_text, parse_binance_depth_text,
    parse_coinbase_l2_text, parse_kraken_rest, parse_kraken_ws_text, split_pair, OrderBook, Venue,
};
use hft_core::fixed::parse_fixed;
use hft_core::json::JsonVal;
use hft_core::types::{OrderBookLevel, OrderBookSnapshot};

const U: i64 = 100_000_000;

#[test]
fn fixed_point_accepts_the_decimal_grammar() {
    assert_eq!(parse_fixed("123.45"), Some(123 * U + 45_000_000));
    assert_eq!(parse_fixed("0.00000001"), Some(1));
    assert_eq!(parse_fixed("-5"), Some(-5 * U));
    assert_eq!(parse_fixed("7."), Some(7 * U));
    assert_eq!(parse_fixed("100"), Some(100 * U));
    assert_eq!(parse_fixed("9999999999"), Some(9_999_999_999 * U));
}

#[test]
fn fixed_point_rejects_everything_else() {
    assert_eq!(parse_fixed(""), None);
    assert_eq!(parse_fixed("-"), None);
    assert_eq!(parse_fixed("."), None);
    assert_eq!(parse_fixed("1e5"), None);
    assert_eq!(parse_fixed("12.123456789"), None); // nine fraction digits
    assert_eq!(parse_fixed("12345678901"), None); // eleven integer digits
    assert_eq!(parse_fixed("1.2.3"), None);
    assert_eq!(parse_fixed("+1"), None);
    assert_eq!(parse_fixed(" 1"), None);
}

#[test]
fn binance_depth_text_parses_both_sides() {
    let txt = r#"{"b":[["100.5","2"],["100.0","1"]],"a":[["101.0","3"]]}"#;
    let ob = parse_binance_depth_text(txt).unwrap();
    assert_eq!(ob.bids, vec![(100 * U + 50_000_000, 2 * U), (100 * U, 1 * U)]);
    assert_eq!(ob.asks, vec![(101 * U, 3 * U)]);
}

#[test]
fn binance_depth_text_unwraps_data_envelope() {
    let txt = r#"{"data":{"b":[["99.9","1"]],"a":[]}}"#;
    let ob = parse_binance_depth_text(txt).unwrap();
    assert_eq!(ob.bids, vec![(99 * U + 90_000_000, 1 * U)]);
    assert!(ob.asks.is_empty());
}

#[test]
fn binance_depth_takes_first_five_parseable_levels() {
    let txt = r#"{"b":[["1","1"],["2","x"],["3","3"],["4","4"],["5","5"],["6","6"],["7","7"]],"a":[]}"#;
    let ob = parse_binance_depth_text(txt).unwrap();
    // the unparseable entry is dropped, five good ones kept
    assert_eq!(
        ob.bids,
        vec![(1 * U, 1 * U), (3 * U, 3 * U), (4 * U, 4 * U), (5 * U, 5 * U), (6 * U, 6 * U)]
    );
}

#[test]
fn binance_depth_rejects_non_json() {
    assert!(parse_binance_depth_text("not json").is_err());
}

#[test]
fn binance_ticker_array_yields_one_tick_per_item() {
    let txt = r#"[{"s":"BTCUSDT","b":"100.5","a":"100.6"},{"s":"ETHUSDT","b":"10","a":"11"}]"#;
    let ticks = normalize_binance_text(txt, 42).unwrap();
    assert_eq!(ticks.len(), 2);
    assert_eq!(ticks[0].exchange, "binance");
    assert_eq!(ticks[0].pair, "BTCUSDT");
    assert_eq!(ticks[0].bid, 100 * U + 50_000_000);
    assert_eq!(ticks[0].ask, 100 * U + 60_000_000);
    assert_eq!(ticks[0].ts, 42);
    assert_eq!(ticks[1].pair, "ETHUSDT");
}

#[test]
fn binance_ticker_array_defaults_missing_fields() {
    let txt = r#"[{"b":"100.5"}]"#;
    let ticks = normalize_binance_text(txt, 1).unwrap();
    assert_eq!(ticks.len(), 1);
    assert_eq!(ticks[0].pair, "");
    assert_eq!(ticks[0].bid, 100 * U + 50_000_000);
    assert_eq!(ticks[0].ask, 0);
}

#[test]
fn binance_single_ticker_requires_all_fields() {
    let good = r#"{"s":"BTCUSDT","b":"1","a":"2"}"#;
    let ticks = normalize_binance_text(good, 1).unwrap();
    assert_eq!(ticks.len(), 1);
    assert_eq!(ticks[0].bid, 1 * U);
    let missing = r#"{"s":"BTCUSDT","b":"1"}"#;
    assert!(normalize_binance_text(missing, 1).unwrap().is_empty());
    let unparseable = r#"{"s":"BTCUSDT","b":"1","a":"x"}"#;
    assert!(normalize_binance_text(unparseable, 1).unwrap().is_empty());
}

#[test]
fn coinbase_ticker_message_yields_tick() {
    let txt = r#"{"type":"ticker","product_id":"BTC-USD","best_bid":"100.5","best_ask":"100.7"}"#;
    let tick = normalize_coinbase_text(txt, 9).unwrap().unwrap();
    assert_eq!(tick.exchange, "coinbase");
    assert_eq!(tick.pair, "BTC-USD");
    assert_eq!(tick.bid, 100 * U + 50_000_000);
    assert_eq!(tick.ask, 100 * U + 70_000_000);
    let other = r#"{"type":"heartbeat"}"#;
    assert!(normalize_coinbase_text(other, 9).unwrap().is_none());
}

#[test]
fn coinbase_l2_snapshot_and_update() {
    let snap = r#"{"type":"snapshot","bids":[["100","1"]],"asks":[["101","2"]]}"#;
    let ob = parse_coinbase_l2_text(snap).unwrap();
    assert_eq!(ob.bids, vec![(100 * U, 1 * U)]);
    assert_eq!(ob.asks, vec![(101 * U, 2 * U)]);
    // an l2update yields the fixed placeholder book
    let upd = r#"{"type":"l2update","changes":[]}"#;
    let ob = parse_coinbase_l2_text(upd).unwrap();
    assert_eq!(ob.bids, vec![(100 * U, 1 * U)]);
    assert_eq!(ob.asks, vec![(10_020_000_000, 1 * U)]);
}

#[test]
fn kraken_ticker_array_yields_tick() {
    // the connector reports the message's third element as the pair
    let txt = r#"[42,{"b":["100.5","1","1.0"],"a":["100.9","2","2.0"]},"XBT/USD"]"#;
    let tick = normalize_kraken_text(txt, 3).unwrap().unwrap();
    assert_eq!(tick.exchange, "kraken");
    assert_eq!(tick.pair, "XBT/USD");
    assert_eq!(tick.bid, 100 * U + 50_000_000);
    assert_eq!(tick.ask, 100 * U + 90_000_000);
    // too short an array yields nothing
    assert!(normalize_kraken_text(r#"[42,{}]"#, 3).unwrap().is_none());
    // a non-array event yields nothing
    assert!(normalize_kraken_text(r#"{"event":"heartbeat"}"#, 3).unwrap().is_none());
}

#[test]
fn kraken_ws_book_snapshot_parses_sides() {
    let txt = r#"[0,{"as":[["101","2","9"]],"bs":[["100","1","9"]]},"book-10","XBT/USD"]"#;
    let ob = parse_kraken_ws_text(txt).unwrap();
    assert_eq!(ob.bids, vec![(100 * U, 1 * U)]);
    assert_eq!(ob.asks, vec![(101 * U, 2 * U)]);
    // a message without both sides yields an empty book
    let other = parse_kraken_ws_text(r#"[0,{"a":[["1","1","1"]]},"book","X"]"#).unwrap();
    assert!(other.bids.is_empty() && other.asks.is_empty());
}

#[test]
fn kraken_rest_unwraps_first_result_pair() {
    let doc = JsonVal::Obj(vec![(
        "result".to_string(),
        JsonVal::Obj(vec![(
            "XBTUSDT".to_string(),
            JsonVal::Obj(vec![(
                "bids".to_string(),
                JsonVal::Arr(vec![JsonVal::Arr(vec![
                    JsonVal::Str("100".to_string()),
                    JsonVal::Str("2".to_string()),
                ])]),
            )]),
        )]),
    )]);
    let bids = parse_kraken_rest(&doc, "bids");
    assert_eq!(bids, vec![(100 * U, 2 * U)]);
    let asks = parse_kraken_rest(&doc, "asks");
    assert!(asks.is_empty());
}

#[test]
fn coingecko_price_fills_both_sides_of_tick() {
    let txt = r#"{"bitcoin":{"usd":45000.5}}"#;
    let tick = normalize_coingecko_text(txt, "bitcoin/usd", "bitcoin", "usd", 8)
        .unwrap()
        .unwrap();
    assert_eq!(tick.exchange, "coingecko");
    assert_eq!(tick.pair, "bitcoin/usd");
    assert_eq!(tick.bid, 45000 * U + 50_000_000);
    assert_eq!(tick.ask, tick.bid);
    // an unknown id yields nothing
    assert!(normalize_coingecko_text(txt, "p", "ethereum", "usd", 8).unwrap().is_none());
}

#[test]
fn split_pair_splits_at_single_slash() {
    let (id, vs) = split_pair("bitcoin/eur");
    assert_eq!(id, "bitcoin");
    assert_eq!(vs, "eur");
    let (id, vs) = split_pair("bitcoin");
    assert_eq!(id, "bitcoin");
    assert_eq!(vs, "usd");
    let (id, vs) = split_pair("a/b/c");
    assert_eq!(id, "a/b/c");
    assert_eq!(vs, "usd");
}

#[test]
fn venue_symbols_are_fixed_lists() {
    assert_eq!(list_symbols(Venue::Binance), vec!["BTCUSDT", "ETHUSDT", "BNBUSDT"]);
    assert_eq!(list_symbols(Venue::Coinbase), vec!["BTC-USD", "ETH-USD"]);
    assert_eq!(list_symbols(Venue::Kraken), vec!["XBTUSDT", "ETHUSDT", "XXBTZUSD"]);
    assert_eq!(list_symbols(Venue::Coingecko), vec!["bitcoin/usd", "ethereum/usd"]);
    assert_eq!(list_symbols(Venue::Mock), vec!["BTC-USD", "ETH-USD"]);
}

#[test]
fn snapshot_from_levels_maps_pairs() {
    let snap = OrderBookSnapshot::from_levels(
        "coinbase".to_string(),
        "BTC-USD".to_string(),
        vec![(100 * U, 1 * U)],
        vec![(101 * U, 2 * U), (102 * U, 3 * U)],
        77,
    );
    assert_eq!(snap.exchange, "coinbase");
    assert_eq!(snap.pair, "BTC-USD");
    assert_eq!(snap.ts, 77);
    assert_eq!(snap.bids, vec![OrderBookLevel { price: 100 * U, qty: 1 * U }]);
    assert_eq!(
        snap.asks,
        vec![
            OrderBookLevel { price: 101 * U, qty: 2 * U },
            OrderBookLevel { price: 102 * U, qty: 3 * U }
        ]
    );
}

#[test]
fn mock_book_and_top_of_book() {
    let ob = mock_book();
    assert_eq!(ob.top(), (9_995_000_000, 10_005_000_000));
    assert_eq!(ob.bids.len(), 2);
    assert_eq!(ob.asks.len(), 2);
    let empty = OrderBook::new(vec![], vec![]);
    assert_eq!(empty.top(), (0, 0));
}
