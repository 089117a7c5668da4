//! Market-order simulation and limit-order placement against an
//! `OrderBook`, with the price-time-priority laws proved of them.

use vstd::prelude::*;

use crate::orderbook::{
    add_order, book_wf, consume_queue, fills_cost, fills_qty, has_level, lemma_consume_queue_props,
    lemma_level_lookup, lemma_queue_qty_nonneg, lemma_side_depth_nonneg, levels_positive,
    queue_qty, seq_next, side_depth, side_wf, BookError, BookModel, FillPart, LevelModel, Order,
    OrderBook, OrderBookSide,
};

verus! {

/// Which side of the book a market or limit order acts on.
#[derive(Clone, Copy, Debug, PartialEq, Eq, Structural)]
pub enum Side {
    Buy,
    Sell,
}

/// One fill reported by a market execution: the price level hit, the
/// quantity taken there, and the exact cost (price times quantity).
#[derive(Clone, Copy, Debug, PartialEq, Eq, Structural)]
pub struct Fill {
    pub price: i64,
    pub qty: i64,
    pub cost: i128,
}

/// Sweep of one side by a market order: fills in consumption order,
/// totals, and what remains of the side.
#[verifier::ext_equal]
pub struct SweepResult {
    pub fills: Seq<FillPart>,
    pub filled: int,
    pub cost: int,
    pub rest: Seq<LevelModel>,
}

/// Walk the side's levels best-first — from the front for asks, from
/// the back for bids — draining each level's FIFO queue until `need`
/// is met or the side is empty: the functional specification that
/// `execute_market` implements.
pub open spec fn market_sweep(levels: Seq<LevelModel>, need: int, from_back: bool) -> SweepResult
    decreases levels.len(),
{
    if need <= 0 || levels.len() == 0 {
        SweepResult { fills: Seq::empty(), filled: 0, cost: 0, rest: levels }
    } else {
        let lvl = if from_back {
            levels.last()
        } else {
            levels[0]
        };
        let remaining = if from_back {
            levels.drop_last()
        } else {
            levels.drop_first()
        };
        let c = consume_queue(lvl.orders, need);
        let r = market_sweep(remaining, need - c.filled, from_back);
        let kept = if c.rest.len() > 0 {
            seq![LevelModel { price: lvl.price, orders: c.rest }]
        } else {
            Seq::<LevelModel>::empty()
        };
        SweepResult {
            fills: c.fills + r.fills,
            filled: c.filled + r.filled,
            cost: c.cost + r.cost,
            rest: if from_back {
                r.rest + kept
            } else {
                kept + r.rest
            },
        }
    }
}

/// The executed fills account exactly for what a sweep reports: the
/// filled quantity never exceeds the request nor the pre-trade depth
/// of the swept side, it equals the sum of the fill quantities, and
/// the reported cost equals the sum of price times quantity over the
/// fills.
pub proof fn lemma_market_sweep_accounting(levels: Seq<LevelModel>, need: int, from_back: bool)
    requires
        side_wf(levels),
        0 <= need <= i64::MAX,
    ensures
        ({
            let w = market_sweep(levels, need, from_back);
            &&& 0 <= w.filled <= need
            &&& w.filled <= side_depth(levels)
            &&& w.filled == fills_qty(w.fills)
            &&& w.cost == fills_cost(w.fills)
            &&& 0 <= w.cost <= w.filled * (i64::MAX as int)
            &&& side_depth(w.rest) == side_depth(levels) - w.filled
            &&& side_wf(w.rest)
            &&& forall|i: int|
                0 <= i < w.fills.len() ==> 0 < (#[trigger] w.fills[i]).1 && 0
                    <= w.fills[i].2 <= i64::MAX
        }),
    decreases levels.len(),
{
    let w = market_sweep(levels, need, from_back);
    if need <= 0 || levels.len() == 0 {
        assert(levels_positive(levels));
        lemma_side_depth_nonneg(levels);
        assert(w.filled * (i64::MAX as int) == 0) by (nonlinear_arith)
            requires
                w.filled == 0,
        ;
    } else {
        let li = if from_back {
            levels.len() - 1
        } else {
            0
        };
        let lvl = levels[li];
        let remaining = if from_back {
            levels.drop_last()
        } else {
            levels.drop_first()
        };
        assert(side_wf(remaining)) by {
            assert forall|a: int, b: int| 0 <= a < b < remaining.len() implies remaining[a].price
                < remaining[b].price by {
                if from_back {
                    assert(remaining[a] == levels[a] && remaining[b] == levels[b]);
                } else {
                    assert(remaining[a] == levels[a + 1] && remaining[b] == levels[b + 1]);
                }
            }
            assert forall|i: int| 0 <= i < remaining.len() implies (
            #[trigger] remaining[i].orders).len() > 0 by {
                let i0 = if from_back {
                    i
                } else {
                    i + 1
                };
                assert(remaining[i] == levels[i0]);
            }
            assert forall|i: int, k: int|
                0 <= i < remaining.len() && 0 <= k < remaining[i].orders.len() implies {
                    &&& (#[trigger] remaining[i].orders[k]).qty > 0
                    &&& remaining[i].orders[k].price == remaining[i].price
                } by {
                let i0 = if from_back {
                    i
                } else {
                    i + 1
                };
                assert(remaining[i] == levels[i0]);
                assert(levels[i0].orders[k].qty > 0);
            }
            assert forall|i: int| 0 <= i < remaining.len() implies 0 <= (
            #[trigger] remaining[i]).price <= i64::MAX by {
                let i0 = if from_back {
                    i
                } else {
                    i + 1
                };
                assert(remaining[i] == levels[i0]);
            }
            if from_back {
                assert(levels =~= remaining + seq![lvl]);
                crate::orderbook::lemma_side_depth_concat(remaining, seq![lvl]);
            } else {
                assert(levels =~= seq![lvl] + remaining);
                crate::orderbook::lemma_side_depth_concat(seq![lvl], remaining);
            }
            assert(side_depth(seq![lvl]) == queue_qty(lvl.orders) + side_depth(
                seq![lvl].drop_first(),
            ));
            assert(seq![lvl].drop_first() =~= Seq::<LevelModel>::empty());
            lemma_queue_qty_nonneg(lvl.orders);
            assert(levels_positive(remaining));
            lemma_side_depth_nonneg(remaining);
        }
        assert(forall|k: int| 0 <= k < lvl.orders.len() ==> (#[trigger] lvl.orders[k]).qty > 0);
        lemma_consume_queue_props(lvl.orders, need);
        crate::orderbook::lemma_consume_queue_cost_at_price(lvl.orders, need, lvl.price);
        let c = consume_queue(lvl.orders, need);
        lemma_market_sweep_accounting(remaining, need - c.filled, from_back);
        let r = market_sweep(remaining, need - c.filled, from_back);
        crate::orderbook::lemma_fills_qty_concat(c.fills, r.fills);
        // depth bookkeeping for the level that was swept
        assert(side_depth(seq![lvl]) == queue_qty(lvl.orders) + side_depth(
            seq![lvl].drop_first(),
        ));
        assert(seq![lvl].drop_first() =~= Seq::<LevelModel>::empty());
        if from_back {
            assert(levels =~= remaining + seq![lvl]);
            crate::orderbook::lemma_side_depth_concat(remaining, seq![lvl]);
        } else {
            assert(levels =~= seq![lvl] + remaining);
            crate::orderbook::lemma_side_depth_concat(seq![lvl], remaining);
        }
        lemma_queue_qty_nonneg(lvl.orders);
        // cost bound
        assert(c.cost == c.filled * lvl.price);
        assert(c.filled * lvl.price <= c.filled * (i64::MAX as int)) by (nonlinear_arith)
            requires
                0 <= c.filled,
                lvl.price <= i64::MAX,
        ;
        assert(0 <= c.filled * lvl.price) by (nonlinear_arith)
            requires
                0 <= c.filled,
                0 <= lvl.price,
        ;
        assert((c.filled + r.filled) * (i64::MAX as int) == c.filled * (i64::MAX as int)
            + r.filled * (i64::MAX as int)) by (nonlinear_arith);
        // the remaining side after the sweep
        let kept = if c.rest.len() > 0 {
            seq![LevelModel { price: lvl.price, orders: c.rest }]
        } else {
            Seq::<LevelModel>::empty()
        };
        if c.rest.len() > 0 {
            let km = LevelModel { price: lvl.price, orders: c.rest };
            assert(side_depth(kept) == queue_qty(km.orders) + side_depth(kept.drop_first()));
            assert(kept.drop_first() =~= Seq::<LevelModel>::empty());
            assert(c.filled == need);
            assert(r.filled == 0 && r.rest == remaining && r.fills =~= Seq::<FillPart>::empty());
        } else {
            assert(side_depth(kept) == 0);
        }
        if from_back {
            crate::orderbook::lemma_side_depth_concat(r.rest, kept);
            assert(w.rest =~= r.rest + kept);
        } else {
            crate::orderbook::lemma_side_depth_concat(kept, r.rest);
            assert(w.rest =~= kept + r.rest);
        }
        // well-formedness of the remaining side
        assert(side_wf(w.rest)) by {
            let off = lvl.orders.len() - c.rest.len();
            if c.rest.len() > 0 {
                assert(r.rest == remaining);
                assert forall|a: int, b: int| 0 <= a < b < w.rest.len() implies w.rest[a].price
                    < w.rest[b].price by {
                    if from_back {
                        if b < w.rest.len() - 1 {
                            assert(w.rest[a] == levels[a] && w.rest[b] == levels[b]);
                        } else {
                            assert(w.rest[a] == levels[a] && w.rest[b].price == levels[
                                levels.len() - 1].price);
                        }
                    } else {
                        if a > 0 {
                            assert(w.rest[a] == levels[a] && w.rest[b] == levels[b]);
                        } else {
                            assert(w.rest[a].price == levels[0].price && w.rest[b] == levels[b]);
                        }
                    }
                }
                assert forall|i: int, k: int|
                    0 <= i < w.rest.len() && 0 <= k < w.rest[i].orders.len() implies {
                        &&& (#[trigger] w.rest[i].orders[k]).qty > 0
                        &&& w.rest[i].orders[k].price == w.rest[i].price
                    } by {
                    let ki = if from_back {
                        w.rest.len() - 1
                    } else {
                        0
                    };
                    if i == ki {
                        assert(w.rest[i].orders == c.rest);
                        assert(c.rest[k].qty > 0);
                        assert(c.rest[k].price == lvl.orders[off + k].price);
                        assert(lvl.orders[off + k].price == lvl.price);
                    } else {
                        let i0 = if from_back {
                            i
                        } else {
                            i - 1
                        };
                        assert(w.rest[i] == remaining[i0]);
                        assert(remaining[i0].orders[k].qty > 0);
                    }
                }
                assert forall|i: int| 0 <= i < w.rest.len() implies ((#[trigger] w.rest[i]).orders.len()
                    > 0 && 0 <= w.rest[i].price <= i64::MAX) by {
                    let ki = if from_back {
                        w.rest.len() - 1
                    } else {
                        0
                    };
                    if i != ki {
                        let i0 = if from_back {
                            i
                        } else {
                            i - 1
                        };
                        assert(w.rest[i] == remaining[i0]);
                    }
                }
            } else {
                assert(w.rest =~= r.rest);
            }
        }
    }
}

/// The fills of a sweep restricted to one price.
pub open spec fn fills_at(fills: Seq<FillPart>, price: int) -> Seq<FillPart> {
    fills.filter(|f: FillPart| f.2 as int == price)
}

/// The restriction keeps everything when every fill is at the price.
proof fn lemma_fills_at_all(s: Seq<FillPart>, price: int)
    requires
        forall|i: int| 0 <= i < s.len() ==> (#[trigger] s[i]).2 as int == price,
    ensures
        fills_at(s, price) == s,
    decreases s.len(),
{
    reveal(Seq::filter);
    if s.len() > 0 {
        assert(forall|i: int|
            0 <= i < s.drop_last().len() ==> (#[trigger] s.drop_last()[i]).2 as int == price);
        lemma_fills_at_all(s.drop_last(), price);
        assert(s.last().2 as int == price);
        assert(s.drop_last().push(s.last()) =~= s);
    }
}

/// The restriction drops everything when no fill is at the price.
proof fn lemma_fills_at_none(s: Seq<FillPart>, price: int)
    requires
        forall|i: int| 0 <= i < s.len() ==> (#[trigger] s[i]).2 as int != price,
    ensures
        fills_at(s, price) == Seq::<FillPart>::empty(),
    decreases s.len(),
{
    reveal(Seq::filter);
    if s.len() > 0 {
        assert(forall|i: int|
            0 <= i < s.drop_last().len() ==> (#[trigger] s.drop_last()[i]).2 as int != price);
        lemma_fills_at_none(s.drop_last(), price);
        assert(s.last().2 as int != price);
    }
}

/// The restriction distributes over concatenation.
proof fn lemma_fills_at_add(a: Seq<FillPart>, b: Seq<FillPart>, price: int)
    ensures
        fills_at(a + b, price) == fills_at(a, price) + fills_at(b, price),
    decreases b.len(),
{
    reveal(Seq::filter);
    if b.len() == 0 {
        assert(a + b =~= a);
        assert(fills_at(b, price).len() == 0);
        assert(fills_at(a, price) + fills_at(b, price) =~= fills_at(a, price));
    } else {
        lemma_fills_at_add(a, b.drop_last(), price);
        Seq::drop_last_distributes_over_add(a, b);
        if b.last().2 as int == price {
            Seq::push_distributes_over_add(
                fills_at(a, price),
                fills_at(b.drop_last(), price),
                b.last(),
            );
        }
    }
}

/// Best price first: along a sweep's fills, prices never improve on
/// an earlier fill (non-decreasing for a buy walking asks,
/// non-increasing for a sell walking bids), and every fill hits a
/// price that was a resting level before the trade.
#[verifier::spinoff_prover]
pub proof fn lemma_market_sweep_prices(levels: Seq<LevelModel>, need: int, from_back: bool)
    requires
        side_wf(levels),
        0 <= need <= i64::MAX,
    ensures
        ({
            let w = market_sweep(levels, need, from_back);
            &&& forall|i: int, j: int|
                0 <= i < j < w.fills.len() ==> if from_back {
                    (#[trigger] w.fills[i]).2 >= (#[trigger] w.fills[j]).2
                } else {
                    (#[trigger] w.fills[i]).2 <= (#[trigger] w.fills[j]).2
                }
            &&& forall|i: int|
                0 <= i < w.fills.len() ==> has_level(levels, (#[trigger] w.fills[i]).2 as int)
        }),
    decreases levels.len(),
{
    let w = market_sweep(levels, need, from_back);
    if need <= 0 || levels.len() == 0 {
    } else {
        let li = if from_back {
            levels.len() - 1
        } else {
            0
        };
        let lvl = levels[li];
        let remaining = if from_back {
            levels.drop_last()
        } else {
            levels.drop_first()
        };
        lemma_remaining_wf(levels, from_back);
        assert(forall|k: int| 0 <= k < lvl.orders.len() ==> (#[trigger] lvl.orders[k]).qty > 0);
        lemma_consume_queue_props(lvl.orders, need);
        let c = consume_queue(lvl.orders, need);
        lemma_market_sweep_prices(remaining, need - c.filled, from_back);
        let r = market_sweep(remaining, need - c.filled, from_back);
        assert(forall|i: int|
            0 <= i < c.fills.len() ==> (#[trigger] c.fills[i]).2 == lvl.price as int);
        assert forall|i: int| 0 <= i < w.fills.len() implies has_level(
            levels,
            (#[trigger] w.fills[i]).2 as int,
        ) by {
            if i < c.fills.len() {
                assert(w.fills[i] == c.fills[i]);
                assert(levels[li].price == w.fills[i].2 as int);
            } else {
                assert(w.fills[i] == r.fills[i - c.fills.len()]);
                assert(has_level(remaining, w.fills[i].2 as int));
                let k = choose|k: int|
                    0 <= k < remaining.len() && (#[trigger] remaining[k]).price == w.fills[i].2 as int;
                let k0 = if from_back {
                    k
                } else {
                    k + 1
                };
                assert(remaining[k] == levels[k0]);
                assert(levels[k0].price == w.fills[i].2 as int);
            }
        }
        assert forall|i: int, j: int| 0 <= i < j < w.fills.len() implies (if from_back {
            (#[trigger] w.fills[i]).2 >= (#[trigger] w.fills[j]).2
        } else {
            (#[trigger] w.fills[i]).2 <= (#[trigger] w.fills[j]).2
        }) by {
            if j < c.fills.len() {
            } else if i >= c.fills.len() {
                assert(w.fills[i] == r.fills[i - c.fills.len()]);
                assert(w.fills[j] == r.fills[j - c.fills.len()]);
            } else {
                assert(w.fills[i] == c.fills[i]);
                assert(w.fills[j] == r.fills[j - c.fills.len()]);
                assert(has_level(remaining, w.fills[j].2 as int));
                let k = choose|k: int|
                    0 <= k < remaining.len() && (#[trigger] remaining[k]).price == w.fills[j].2 as int;
                if from_back {
                    assert(remaining[k] == levels[k]);
                    assert(levels[k].price < levels[levels.len() - 1].price);
                } else {
                    assert(remaining[k] == levels[k + 1]);
                    assert(levels[0].price < levels[k + 1].price);
                }
            }
        }
    }
}

/// Oldest order first: for each pre-trade level, the fills of a
/// sweep at that level's price are exactly a front drain of its FIFO
/// queue (`consume_queue` for some requested amount, which by
/// `lemma_consume_queue_props` consumes the oldest orders first and
/// whole, except perhaps the last one touched).
/// The quantity still wanted when a sweep reaches the level at index
/// `l`: the whole request at the first level consumed, and whatever
/// the nearer levels left unmet after that.
pub open spec fn sweep_take_at(levels: Seq<LevelModel>, need: int, from_back: bool, l: int) -> int
    decreases levels.len(),
{
    if need <= 0 || levels.len() == 0 {
        0
    } else {
        let li = if from_back {
            levels.len() - 1
        } else {
            0
        };
        if l == li {
            need
        } else {
            let lvl = levels[li];
            let remaining = if from_back {
                levels.drop_last()
            } else {
                levels.drop_first()
            };
            let c = consume_queue(lvl.orders, need);
            let l_rem = if from_back {
                l
            } else {
                l - 1
            };
            sweep_take_at(remaining, need - c.filled, from_back, l_rem)
        }
    }
}

/// Oldest order first: for each pre-trade level, the fills of a
/// sweep at that level's price are exactly a front drain of its FIFO
/// queue — `consume_queue` of the quantity still wanted when the
/// sweep reached that level — which by `lemma_consume_queue_props`
/// consumes the oldest orders first and whole, except perhaps the
/// last one touched.
#[verifier::spinoff_prover]
#[verifier::rlimit(100)]
pub proof fn lemma_market_sweep_time_priority(levels: Seq<LevelModel>, need: int, from_back: bool)
    requires
        side_wf(levels),
        0 <= need <= i64::MAX,
    ensures
        forall|l: int|
            0 <= l < levels.len() ==> fills_at(
                market_sweep(levels, need, from_back).fills,
                (#[trigger] levels[l]).price,
            ) == consume_queue(
                levels[l].orders,
                sweep_take_at(levels, need, from_back, l),
            ).fills,
    decreases levels.len(),
{
    let w = market_sweep(levels, need, from_back);
    let base = need <= 0 || levels.len() == 0;
    let li = if from_back {
        levels.len() - 1
    } else {
        0
    };
    let remaining = if from_back {
        levels.drop_last()
    } else {
        levels.drop_first()
    };
    if !base {
        let lvl = levels[li];
        let c = consume_queue(lvl.orders, need);
        lemma_remaining_wf(levels, from_back);
        assert(forall|k: int| 0 <= k < lvl.orders.len() ==> (#[trigger] lvl.orders[k]).qty > 0);
        lemma_consume_queue_props(lvl.orders, need);
        lemma_market_sweep_time_priority(remaining, need - c.filled, from_back);
        lemma_market_sweep_prices(remaining, need - c.filled, from_back);
        assert(forall|i: int|
            0 <= i < c.fills.len() ==> (#[trigger] c.fills[i]).2 == lvl.price as int);
    }
    assert forall|l: int| 0 <= l < levels.len() implies fills_at(
        market_sweep(levels, need, from_back).fills,
        (#[trigger] levels[l]).price,
    ) == consume_queue(levels[l].orders, sweep_take_at(levels, need, from_back, l)).fills by {
        let p = levels[l].price;
        if base {
            lemma_fills_at_none(w.fills, p);
            assert(consume_queue(levels[l].orders, 0).fills == Seq::<FillPart>::empty());
        } else {
            let lvl = levels[li];
            let c = consume_queue(lvl.orders, need);
            let r = market_sweep(remaining, need - c.filled, from_back);
            lemma_fills_at_add(c.fills, r.fills, p);
            assert(w.fills =~= c.fills + r.fills);
            if l == li {
                lemma_fills_at_all(c.fills, p);
                assert forall|i: int| 0 <= i < r.fills.len() implies (#[trigger] r.fills[i]).2 as int
                    != p by {
                    assert(has_level(remaining, r.fills[i].2 as int));
                    let k = choose|k: int|
                        0 <= k < remaining.len() && (#[trigger] remaining[k]).price == r.fills[i].2 as int;
                    if from_back {
                        assert(remaining[k] == levels[k]);
                        assert(levels[k].price < levels[li].price);
                    } else {
                        assert(remaining[k] == levels[k + 1]);
                        assert(levels[0].price < levels[k + 1].price);
                    }
                }
                lemma_fills_at_none(r.fills, p);
                assert(fills_at(w.fills, p) =~= c.fills);
                assert(sweep_take_at(levels, need, from_back, l) == need);
            } else {
                let l_rem = if from_back {
                    l
                } else {
                    l - 1
                };
                assert(remaining[l_rem] == levels[l]);
                assert(fills_at(r.fills, remaining[l_rem].price) == consume_queue(
                    remaining[l_rem].orders,
                    sweep_take_at(remaining, need - c.filled, from_back, l_rem),
                ).fills);
                assert forall|i: int| 0 <= i < c.fills.len() implies (#[trigger] c.fills[i]).2 as int
                    != p by {
                    assert(levels[l].price != levels[li].price);
                }
                lemma_fills_at_none(c.fills, p);
                assert(fills_at(w.fills, p) =~= fills_at(r.fills, p));
                assert(sweep_take_at(levels, need, from_back, l) == sweep_take_at(
                    remaining,
                    need - c.filled,
                    from_back,
                    l_rem,
                ));
            }
        }
    }
}

/// The public fills mirror the sweep's fill parts: same length, same
/// prices and quantities, and each cost is exactly price times
/// quantity.
pub open spec fn fills_match(v: Seq<Fill>, fp: Seq<FillPart>) -> bool {
    &&& v.len() == fp.len()
    &&& forall|i: int|
        0 <= i < v.len() ==> {
            &&& (#[trigger] v[i]).price == fp[i].2
            &&& v[i].qty == fp[i].1
            &&& v[i].cost as int == (fp[i].1 as int) * (fp[i].2 as int)
        }
}

/// Append the public form of the given fill parts.
fn push_fills(fills: &mut Vec<Fill>, parts: &Vec<(u64, i64, i64)>)
    requires
        forall|k: int|
            0 <= k < parts@.len() ==> (#[trigger] parts@[k]).1 >= 0 && parts@[k].2 >= 0,
    ensures
        final(fills)@.len() == old(fills)@.len() + parts@.len(),
        forall|i: int| 0 <= i < old(fills)@.len() ==> final(fills)@[i] == old(fills)@[i],
        forall|k: int|
            0 <= k < parts@.len() ==> {
                &&& (#[trigger] final(fills)@[old(fills)@.len() + k]).price == parts@[k].2
                &&& final(fills)@[old(fills)@.len() + k].qty == parts@[k].1
                &&& final(fills)@[old(fills)@.len() + k].cost as int == (parts@[k].1 as int) * (
                parts@[k].2 as int)
            },
{
    let n = parts.len();
    let mut k: usize = 0;
    while k < n
        invariant
            0 <= k <= n,
            n == parts@.len(),
            forall|j: int|
                0 <= j < parts@.len() ==> (#[trigger] parts@[j]).1 >= 0 && parts@[j].2 >= 0,
            fills@.len() == old(fills)@.len() + k,
            forall|i: int| 0 <= i < old(fills)@.len() ==> fills@[i] == old(fills)@[i],
            forall|j: int|
                0 <= j < k ==> {
                    &&& (#[trigger] fills@[old(fills)@.len() + j]).price == parts@[j].2
                    &&& fills@[old(fills)@.len() + j].qty == parts@[j].1
                    &&& fills@[old(fills)@.len() + j].cost as int == (parts@[j].1 as int) * (
                    parts@[j].2 as int)
                },
        decreases n - k,
    {
        let part = parts[k];
        proof {
            assert((part.1 as int) * (part.2 as int) <= (i64::MAX as int) * (i64::MAX as int))
                by (nonlinear_arith)
                requires
                    0 <= part.1 <= i64::MAX,
                    0 <= part.2 <= i64::MAX,
            ;
            assert(0 <= (part.1 as int) * (part.2 as int)) by (nonlinear_arith)
                requires
                    0 <= part.1,
                    0 <= part.2,
            ;
        }
        fills.push(Fill { price: part.2, qty: part.1, cost: (part.1 as i128) * (part.2 as i128) });
        k += 1;
    }
}

/// Drain one side best-first until `qty` is met or the side is
/// empty, returning filled quantity, exact cost and the fills.
#[verifier::rlimit(100)]
fn sweep_side(bside: &mut OrderBookSide, qty: i64, from_back: bool) -> (r: (i64, i128, Vec<Fill>))
    requires
        side_wf(old(bside)@),
    ensures
        side_wf(final(bside)@),
        final(bside).is_bid == old(bside).is_bid,
        ({
            let w = market_sweep(old(bside)@, qty as int, from_back);
            &&& r.0 as int == w.filled
            &&& r.1 as int == w.cost
            &&& fills_match(r.2@, w.fills)
            &&& final(bside)@ == w.rest
        }),
{
    let ghost pre = bside@;
    let ghost w0 = market_sweep(pre, qty as int, from_back);
    if qty <= 0 {
        let r = (0i64, 0i128, Vec::<Fill>::new());
        proof {
            assert(r.2@.len() == 0);
        }
        return r;
    }
    proof {
        lemma_market_sweep_accounting(pre, qty as int, from_back);
    }
    let mut need = qty;
    let mut filled: i64 = 0;
    let mut cost: i128 = 0;
    let mut fills: Vec<Fill> = Vec::new();
    let ghost gparts: Seq<FillPart> = Seq::empty();
    let mut gparts = Ghost(gparts);
    proof {
        assert(gparts@ + market_sweep(bside@, need as int, from_back).fills =~= market_sweep(
            bside@,
            need as int,
            from_back,
        ).fills);
    }
    while need > 0 && bside.levels.len() > 0
        invariant
            side_wf(bside@),
            bside.is_bid == old(bside).is_bid,
            0 <= need <= qty,
            0 < qty <= i64::MAX,
            filled == qty - need,
            0 <= cost,
            w0 == market_sweep(pre, qty as int, from_back),
            ({
                let cur = market_sweep(bside@, need as int, from_back);
                &&& w0.fills == gparts@ + cur.fills
                &&& w0.filled == filled + cur.filled
                &&& w0.cost == cost + cur.cost
                &&& w0.rest == cur.rest
            }),
            fills_match(fills@, gparts@),
            0 <= w0.cost <= w0.filled * (i64::MAX as int),
            w0.filled <= qty,
        decreases bside@.len() + need as int,
    {
        let ghost cur_levels = bside@;
        let ghost cur = market_sweep(cur_levels, need as int, from_back);
        let ghost gp_old = gparts@;
        let best = if from_back {
            bside.levels[bside.levels.len() - 1].price
        } else {
            bside.levels[0].price
        };
        let ghost li = if from_back {
            cur_levels.len() - 1
        } else {
            0
        };
        proof {
            lemma_level_lookup(cur_levels, li);
            assert(forall|k: int|
                0 <= k < cur_levels[li].orders.len() ==> (#[trigger] cur_levels[li].orders[k]).qty
                    > 0);
            lemma_consume_queue_props(cur_levels[li].orders, need as int);
            lemma_remaining_wf(cur_levels, from_back);
            lemma_market_sweep_accounting(cur_levels, need as int, from_back);
            crate::orderbook::lemma_consume_queue_cost_at_price(
                cur_levels[li].orders,
                need as int,
                cur_levels[li].price,
            );
            assert(0 <= cur_levels[li].price);
            assert(0 <= consume_queue(cur_levels[li].orders, need as int).filled * cur_levels[li].price)
                by (nonlinear_arith)
                requires
                    0 <= consume_queue(cur_levels[li].orders, need as int).filled,
                    0 <= cur_levels[li].price,
            ;
        }
        let ghost c_lvl = consume_queue(cur_levels[li].orders, need as int);
        let ghost remaining = if from_back {
            cur_levels.drop_last()
        } else {
            cur_levels.drop_first()
        };
        proof {
            lemma_market_sweep_accounting(remaining, need as int - c_lvl.filled, from_back);
        }
        let (f, c, parts) = bside.consume_at_price(best, need);
        proof {
            let i = choose|i: int|
                {
                    &&& 0 <= i < cur_levels.len()
                    &&& (#[trigger] cur_levels[i]).price == best as int
                    &&& bside@ == if c_lvl.rest.len() == 0 {
                        cur_levels.remove(i)
                    } else {
                        cur_levels.update(
                            i,
                            LevelModel { price: best as int, orders: c_lvl.rest },
                        )
                    }
                };
            if i != li {
                if i < li {
                    assert(cur_levels[i].price < cur_levels[li].price);
                } else {
                    assert(cur_levels[li].price < cur_levels[i].price);
                }
                assert(false);
            }
            let rsweep = market_sweep(remaining, need as int - c_lvl.filled, from_back);
            if c_lvl.rest.len() == 0 {
                if from_back {
                    assert(bside@ =~= cur_levels.drop_last());
                    assert(cur.rest =~= rsweep.rest);
                } else {
                    assert(bside@ =~= cur_levels.drop_first());
                    assert(cur.rest =~= rsweep.rest);
                }
                assert(gparts@ + cur.fills =~= (gparts@ + c_lvl.fills) + rsweep.fills);
            } else {
                assert(c_lvl.filled == need as int);
                assert(rsweep.fills =~= Seq::<FillPart>::empty());
                assert(rsweep.rest == remaining);
                assert(rsweep.filled == 0 && rsweep.cost == 0);
                let km = LevelModel { price: best as int, orders: c_lvl.rest };
                if from_back {
                    assert(bside@ =~= cur_levels.update(li, km));
                    assert(cur.rest =~= remaining + seq![km]);
                    assert(bside@ =~= remaining + seq![km]);
                } else {
                    assert(bside@ =~= cur_levels.update(li, km));
                    assert(cur.rest =~= seq![km] + remaining);
                    assert(bside@ =~= seq![km] + remaining);
                }
                assert(cur.fills =~= c_lvl.fills);
                assert(gparts@ + cur.fills =~= (gparts@ + c_lvl.fills) + rsweep.fills);
            }
            gparts@ = gparts@ + c_lvl.fills;
        }
        let ghost fills_pre = fills@;
        push_fills(&mut fills, &parts);
        proof {
            assert(fills_match(fills_pre, gp_old));
            assert(parts@ == c_lvl.fills);
            assert(gparts@ == gp_old + c_lvl.fills);
            assert(fills_pre.len() == gp_old.len());
            assert forall|i: int| 0 <= i < fills@.len() implies {
                &&& (#[trigger] fills@[i]).price == gparts@[i].2
                &&& fills@[i].qty == gparts@[i].1
                &&& fills@[i].cost as int == (gparts@[i].1 as int) * (gparts@[i].2 as int)
            } by {
                if i < fills_pre.len() {
                    assert(fills@[i] == fills_pre[i]);
                    assert(gparts@[i] == gp_old[i]);
                } else {
                    let k = i - fills_pre.len();
                    assert(gparts@[i] == c_lvl.fills[k]);
                    assert(c_lvl.fills[k] == parts@[k]);
                    assert(fills@[fills_pre.len() as int + k].price == parts@[k].2);
                    assert(fills@[fills_pre.len() as int + k].qty == parts@[k].1);
                    assert(fills@[fills_pre.len() as int + k].cost as int == (parts@[k].1 as int)
                        * (parts@[k].2 as int));
                    assert(i == fills_pre.len() + k);
                }
            }
        }
        filled = filled + f;
        cost = cost + c;
        need = need - f;
        proof {
            let nxt = market_sweep(bside@, need as int, from_back);
            lemma_market_sweep_accounting(bside@, need as int, from_back);
            assert(w0.cost == cost + nxt.cost);
            assert(0 <= nxt.cost);
        }
    }
    proof {
        let cur = market_sweep(bside@, need as int, from_back);
        assert(cur.fills =~= Seq::<FillPart>::empty());
        assert(gparts@ + cur.fills =~= gparts@);
        assert(w0.fills == gparts@);
        assert(w0.rest == bside@);
    }
    (filled, cost, fills)
}

/// Simulate a market order against the book: a buy walks the ask
/// levels from the cheapest up, a sell walks the bid levels from the
/// highest down, consuming resting orders in price-time priority
/// until the requested quantity is filled or the side runs dry.
/// Running out of liquidity is not an error: whatever could be
/// filled is reported, and the book is left with the remainder.
/// Returns (filled quantity, exact total cost, fills in consumption
/// order).
pub fn execute_market(book: &mut OrderBook, side: Side, qty: i64) -> (r: (i64, i128, Vec<Fill>))
    requires
        book_wf(old(book)@),
    ensures
        book_wf(final(book)@),
        ({
            let pre = if side == Side::Sell {
                old(book)@.bids
            } else {
                old(book)@.asks
            };
            let w = market_sweep(pre, qty as int, side == Side::Sell);
            &&& r.0 as int == w.filled
            &&& r.1 as int == w.cost
            &&& fills_match(r.2@, w.fills)
            &&& (side == Side::Sell ==> final(book)@.bids == w.rest && final(book)@.asks == old(
                book,
            )@.asks)
            &&& (side == Side::Buy ==> final(book)@.asks == w.rest && final(book)@.bids == old(
                book,
            )@.bids)
            &&& final(book)@.ts == old(book)@.ts
            &&& final(book)@.seq == old(book)@.seq
            &&& w.filled <= side_depth(pre)
            &&& (qty >= 0 ==> w.filled <= qty && w.cost == fills_cost(w.fills) && w.filled
                == fills_qty(w.fills))
        }),
{
    proof {
        if qty >= 0 {
            lemma_market_sweep_accounting(old(book)@.bids, qty as int, true);
            lemma_market_sweep_accounting(old(book)@.asks, qty as int, false);
        } else {
            assert(levels_positive(old(book)@.bids));
            assert(levels_positive(old(book)@.asks));
            lemma_side_depth_nonneg(old(book)@.bids);
            lemma_side_depth_nonneg(old(book)@.asks);
        }
    }
    match side {
        Side::Buy => sweep_side(&mut book.asks, qty, false),
        Side::Sell => sweep_side(&mut book.bids, qty, true),
    }
}

/// Which error a limit placement is rejected with, if any.
pub open spec fn place_verdict(m: BookModel, side: Side, price: i64, qty: i64) -> Result<
    (),
    BookError,
> {
    let depth = if side == Side::Buy {
        side_depth(m.bids)
    } else {
        side_depth(m.asks)
    };
    if price < 0 {
        Err(BookError::NegativePrice)
    } else if qty <= 0 {
        Err(BookError::NegativeQty)
    } else if depth + qty > i64::MAX {
        Err(BookError::DepthOverflow)
    } else {
        Ok(())
    }
}

/// The order a successful limit placement rests: priced and sized as
/// given, stamped with the book's next id.
pub open spec fn place_order(m: BookModel, price: i64, qty: i64, ts: i64) -> Order {
    Order { id: m.seq, price, qty, ts }
}

/// Rest a new limit order on the matching side of the book at the
/// given price, drawing its id from the book's own sequence counter.
/// A negative price, a non-positive quantity, or more resting
/// quantity than the representation can hold is rejected and the
/// book is left untouched.
pub fn place_limit(book: &mut OrderBook, side: Side, price: i64, qty: i64, ts: i64) -> (r: Result<
    (),
    BookError,
>)
    requires
        book_wf(old(book)@),
    ensures
        book_wf(final(book)@),
        r == place_verdict(old(book)@, side, price, qty),
        r is Err ==> *final(book) == *old(book),
        r is Ok && side == Side::Buy ==> final(book)@.bids == add_order(
            old(book)@.bids,
            place_order(old(book)@, price, qty, ts),
        ) && final(book)@.asks == old(book)@.asks,
        r is Ok && side == Side::Sell ==> final(book)@.asks == add_order(
            old(book)@.asks,
            place_order(old(book)@, price, qty, ts),
        ) && final(book)@.bids == old(book)@.bids,
        r is Ok ==> final(book)@.seq == seq_next(old(book)@.seq) && final(book)@.ts == old(
            book,
        )@.ts,
{
    if price < 0 {
        return Err(BookError::NegativePrice);
    }
    if qty <= 0 {
        return Err(BookError::NegativeQty);
    }
    match side {
        Side::Buy => {
            let depth = book.bids.total_qty();
            proof {
                assert(levels_positive(book.bids@));
                lemma_side_depth_nonneg(book.bids@);
            }
            if qty > i64::MAX - depth {
                return Err(BookError::DepthOverflow);
            }
            let id = book.next_id();
            book.bids.add_limit(id, price, qty, ts);
            Ok(())
        },
        Side::Sell => {
            let depth = book.asks.total_qty();
            proof {
                assert(levels_positive(book.asks@));
                lemma_side_depth_nonneg(book.asks@);
            }
            if qty > i64::MAX - depth {
                return Err(BookError::DepthOverflow);
            }
            let id = book.next_id();
            book.asks.add_limit(id, price, qty, ts);
            Ok(())
        },
    }
}

/// Dropping the level at the consumed end keeps the side well-formed.
proof fn lemma_remaining_wf(levels: Seq<LevelModel>, from_back: bool)
    requires
        side_wf(levels),
        levels.len() > 0,
    ensures
        side_wf(if from_back {
            levels.drop_last()
        } else {
            levels.drop_first()
        }),
{
    let remaining = if from_back {
        levels.drop_last()
    } else {
        levels.drop_first()
    };
    let lvl = if from_back {
        levels.last()
    } else {
        levels[0]
    };
    assert forall|i: int, k: int|
        0 <= i < remaining.len() && 0 <= k < remaining[i].orders.len() implies {
            &&& (#[trigger] remaining[i].orders[k]).qty > 0
            &&& remaining[i].orders[k].price == remaining[i].price
        } by {
        let i0 = if from_back {
            i
        } else {
            i + 1
        };
        assert(remaining[i] == levels[i0]);
        assert(levels[i0].orders[k].qty > 0);
    }
    assert forall|i: int| 0 <= i < remaining.len() implies ((#[trigger] remaining[i]).orders.len() > 0
        && 0 <= remaining[i].price <= i64::MAX) by {
        let i0 = if from_back {
            i
        } else {
            i + 1
        };
        assert(remaining[i] == levels[i0]);
    }
    assert forall|a: int, b: int| 0 <= a < b < remaining.len() implies remaining[a].price
        < remaining[b].price by {
        if from_back {
            assert(remaining[a] == levels[a] && remaining[b] == levels[b]);
        } else {
            assert(remaining[a] == levels[a + 1] && remaining[b] == levels[b + 1]);
        }
    }
    if from_back {
        assert(levels =~= remaining + seq![lvl]);
        crate::orderbook::lemma_side_depth_concat(remaining, seq![lvl]);
    } else {
        assert(levels =~= seq![lvl] + remaining);
        crate::orderbook::lemma_side_depth_concat(seq![lvl], remaining);
    }
    assert(side_depth(seq![lvl]) == queue_qty(lvl.orders) + side_depth(seq![lvl].drop_first()));
    assert(seq![lvl].drop_first() =~= Seq::<LevelModel>::empty());
    lemma_queue_qty_nonneg(lvl.orders);
    assert(levels_positive(remaining));
    lemma_side_depth_nonneg(remaining);
}

} // verus!
