//! Order book and matching engine behavior on concrete books.

use hft_core::matching_engine::{execute_market, place_limit, Side};
use hft_core::orderbook::{BookError, OrderBook};

/// One whole unit of price or quantity in fixed-point representation.
const U: i64 = 100_000_000;

fn book_with(bids: Vec<(i64, i64)>, asks: Vec<(i64, i64)>) -> OrderBook {
    let mut book = OrderBook::new();
    let r = book.apply_snapshot(&bids, &asks, 7);
    assert!(r.is_ok());
    book
}

#[test]
fn market_buy_walks_asks_in_price_order() {
    // bids [(100,1), (99,2)], asks [(101,1), (102,3)]; buy 2
    let mut book = book_with(
        vec![(100 * U, 1 * U), (99 * U, 2 * U)],
        vec![(101 * U, 1 * U), (102 * U, 3 * U)],
    );
    let (filled, cost, fills) = execute_market(&mut book, Side::Buy, 2 * U);
    assert_eq!(filled, 2 * U);
    // cost = 101*1 + 102*1 = 203, in price-times-quantity scale
    assert_eq!(cost, (101 * U as i128) * (U as i128) + (102 * U as i128) * (U as i128));
    assert_eq!(fills.len(), 2);
    assert_eq!((fills[0].price, fills[0].qty), (101 * U, 1 * U));
    assert_eq!((fills[1].price, fills[1].qty), (102 * U, 1 * U));
    // the asks now hold 102 with 2 remaining
    assert_eq!(book.best_ask(), Some(102 * U));
    assert_eq!(book.asks.total_qty(), 2 * U);
    // bids untouched
    assert_eq!(book.best_bid(), Some(100 * U));
    assert_eq!(book.bids.total_qty(), 3 * U);
}

#[test]
fn market_buy_beyond_depth_fills_what_is_there() {
    // only 3 units of ask depth; ask for 100
    let mut book = book_with(vec![(100 * U, 1 * U)], vec![(101 * U, 1 * U), (102 * U, 2 * U)]);
    let (filled, cost, fills) = execute_market(&mut book, Side::Buy, 100 * U);
    assert_eq!(filled, 3 * U);
    assert_eq!(cost, (101 * U as i128) * (U as i128) + (102 * U as i128) * (2 * U as i128));
    assert_eq!(fills.len(), 2);
    assert_eq!(book.best_ask(), None);
    assert_eq!(book.asks.total_qty(), 0);
}

#[test]
fn market_sell_walks_bids_from_best() {
    let mut book = book_with(vec![(99 * U, 2 * U), (100 * U, 1 * U)], vec![(101 * U, 1 * U)]);
    let (filled, _cost, fills) = execute_market(&mut book, Side::Sell, 2 * U);
    assert_eq!(filled, 2 * U);
    assert_eq!((fills[0].price, fills[0].qty), (100 * U, 1 * U));
    assert_eq!((fills[1].price, fills[1].qty), (99 * U, 1 * U));
    assert_eq!(book.best_bid(), Some(99 * U));
    assert_eq!(book.bids.total_qty(), 1 * U);
}

#[test]
fn fills_respect_time_priority_within_level() {
    let mut book = OrderBook::new();
    assert!(place_limit(&mut book, Side::Sell, 101 * U, 1 * U, 1).is_ok());
    assert!(place_limit(&mut book, Side::Sell, 101 * U, 1 * U, 2).is_ok());
    let (filled, _cost, fills) = execute_market(&mut book, Side::Buy, 3 * U / 2);
    assert_eq!(filled, 3 * U / 2);
    // the older resting order is consumed whole, the newer partially
    assert_eq!(fills.len(), 2);
    assert_eq!(fills[0].qty, 1 * U);
    assert_eq!(fills[1].qty, U / 2);
    assert_eq!(book.asks.total_qty(), U / 2);
}

#[test]
fn delta_with_zero_qty_removes_level() {
    // bids [(100,1)]; delta (100, 0) removes the level entirely
    let mut book = book_with(vec![(100 * U, 1 * U)], vec![]);
    let r = book.apply_delta(&vec![(100 * U, 0)], &vec![], 9);
    assert!(r.is_ok());
    assert_eq!(book.best_bid(), None);
    assert_eq!(book.bids.total_qty(), 0);
}

#[test]
fn delta_upsert_replaces_level_quantity() {
    let mut book = book_with(vec![(100 * U, 1 * U)], vec![]);
    let r = book.apply_delta(&vec![(100 * U, 5 * U)], &vec![], 9);
    assert!(r.is_ok());
    // absolute size, not an increment
    assert_eq!(book.bids.total_qty(), 5 * U);
    assert_eq!(book.ts, 9);
}

#[test]
fn snapshot_is_idempotent_up_to_ids() {
    let bids = vec![(100 * U, 1 * U), (99 * U, 2 * U)];
    let asks = vec![(101 * U, 1 * U)];
    let mut book = OrderBook::new();
    assert!(book.apply_snapshot(&bids, &asks, 5).is_ok());
    let (bb1, ba1) = (book.best_bid(), book.best_ask());
    let (tb1, ta1) = (book.bids.total_qty(), book.asks.total_qty());
    assert!(book.apply_snapshot(&bids, &asks, 5).is_ok());
    assert_eq!(book.best_bid(), bb1);
    assert_eq!(book.best_ask(), ba1);
    assert_eq!(book.bids.total_qty(), tb1);
    assert_eq!(book.asks.total_qty(), ta1);
    assert_eq!(book.mid(), Some((100 * U + 101 * U) / 2));
    assert_eq!(book.spread(), Some(1 * U));
}

#[test]
fn snapshot_skips_zero_qty_and_keeps_order() {
    let mut book = OrderBook::new();
    let r = book.apply_snapshot(&vec![(100 * U, 0), (99 * U, 1 * U)], &vec![], 3);
    assert!(r.is_ok());
    assert_eq!(book.best_bid(), Some(99 * U));
    assert_eq!(book.bids.total_qty(), 1 * U);
}

#[test]
fn negative_price_is_rejected_and_book_unchanged() {
    let mut book = book_with(vec![(100 * U, 1 * U)], vec![]);
    let r = book.apply_snapshot(&vec![(-1, 1 * U)], &vec![], 9);
    assert_eq!(r, Err(BookError::NegativePrice));
    assert_eq!(book.best_bid(), Some(100 * U));
    let r = book.apply_delta(&vec![(-5, 2 * U)], &vec![], 9);
    assert_eq!(r, Err(BookError::NegativePrice));
    assert_eq!(book.bids.total_qty(), 1 * U);
}

#[test]
fn negative_snapshot_qty_is_rejected() {
    let mut book = OrderBook::new();
    let r = book.apply_snapshot(&vec![(100 * U, -1)], &vec![], 9);
    assert_eq!(r, Err(BookError::NegativeQty));
    assert_eq!(book.best_bid(), None);
}

#[test]
fn too_much_depth_is_rejected() {
    let mut book = OrderBook::new();
    let r = book.apply_snapshot(&vec![(100 * U, i64::MAX)], &vec![(101 * U, i64::MAX)], 9);
    assert_eq!(r, Err(BookError::DepthOverflow));
    let r2 = book.apply_snapshot(&vec![(100 * U, 1 * U)], &vec![], 9);
    assert!(r2.is_ok());
    let r3 = place_limit(&mut book, Side::Buy, 100 * U, i64::MAX, 1);
    assert_eq!(r3, Err(BookError::DepthOverflow));
}

#[test]
fn place_limit_validates_and_rests() {
    let mut book = OrderBook::new();
    assert_eq!(place_limit(&mut book, Side::Buy, -1, 1 * U, 1), Err(BookError::NegativePrice));
    assert_eq!(place_limit(&mut book, Side::Buy, 100 * U, 0, 1), Err(BookError::NegativeQty));
    assert!(place_limit(&mut book, Side::Buy, 100 * U, 1 * U, 1).is_ok());
    assert!(place_limit(&mut book, Side::Sell, 101 * U, 2 * U, 1).is_ok());
    assert_eq!(book.best_bid(), Some(100 * U));
    assert_eq!(book.best_ask(), Some(101 * U));
    assert_eq!(book.mid(), Some((201 * U) / 2));
}

#[test]
fn price_iter_reports_best_first() {
    let book = book_with(
        vec![(99 * U, 1 * U), (100 * U, 1 * U)],
        vec![(101 * U, 1 * U), (102 * U, 1 * U)],
    );
    assert_eq!(book.bids.price_iter(), vec![100 * U, 99 * U]);
    assert_eq!(book.asks.price_iter(), vec![101 * U, 102 * U]);
}

#[test]
fn empty_book_reports_no_data() {
    let book = OrderBook::new();
    assert_eq!(book.best_bid(), None);
    assert_eq!(book.best_ask(), None);
    assert_eq!(book.mid(), None);
    assert_eq!(book.spread(), None);
}

#[test]
fn market_order_on_empty_book_fills_nothing() {
    let mut book = OrderBook::new();
    let (filled, cost, fills) = execute_market(&mut book, Side::Buy, 5 * U);
    assert_eq!((filled, cost), (0, 0));
    assert!(fills.is_empty());
}
