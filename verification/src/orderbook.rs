//! Price-time-priority limit order book.
//!
//! Prices, quantities and timestamps are fixed-point integers (see
//! `fixed`): a price is `i64` scaled by `PRICE_SCALE`, a quantity is
//! `i64` scaled likewise, and a cost (price times quantity) is `i128`
//! in the product scale, kept exact.
//!
//! Each side is a vector of price levels sorted by ascending price;
//! every level holds a non-empty FIFO queue of resting orders with
//! positive quantity. Emptied levels are removed immediately.

use vstd::prelude::*;

verus! {

/// A resting order: identifier, price level, remaining quantity,
/// timestamp of arrival.
#[derive(Clone, Copy, Debug, PartialEq, Eq, Structural)]
pub struct Order {
    pub id: u64,
    pub price: i64,
    pub qty: i64,
    pub ts: i64,
}

/// One price level: a price and the FIFO queue of orders resting at it.
#[derive(Clone, Debug)]
pub struct Level {
    pub price: i64,
    pub orders: Vec<Order>,
}

/// Mathematical model of one price level.
#[verifier::ext_equal]
pub struct LevelModel {
    pub price: int,
    pub orders: Seq<Order>,
}

/// One side of the book: price levels sorted by ascending price.
/// `is_bid` records which side this is; it controls which end of the
/// vector is the best price (highest for bids, lowest for asks).
#[derive(Clone, Debug)]
pub struct OrderBookSide {
    pub levels: Vec<Level>,
    pub is_bid: bool,
}

impl View for OrderBookSide {
    type V = Seq<LevelModel>;

    open spec fn view(&self) -> Seq<LevelModel> {
        Seq::new(
            self.levels@.len(),
            |i: int| LevelModel { price: self.levels@[i].price as int, orders: self.levels@[i].orders@ },
        )
    }
}

/// Well-formedness of a side's model: levels strictly ascending by
/// price, no empty level, every order positive and at its level's
/// price, prices non-negative, and total resting quantity within the
/// machine bound so that depth arithmetic never overflows.
pub open spec fn side_wf(s: Seq<LevelModel>) -> bool {
    &&& forall|i: int, j: int| 0 <= i < j < s.len() ==> s[i].price < s[j].price
    &&& forall|i: int| 0 <= i < s.len() ==> (#[trigger] s[i].orders).len() > 0
    &&& forall|i: int, k: int|
        0 <= i < s.len() && 0 <= k < s[i].orders.len() ==> {
            &&& (#[trigger] s[i].orders[k]).qty > 0
            &&& s[i].orders[k].price == s[i].price
        }
    &&& forall|i: int| 0 <= i < s.len() ==> 0 <= (#[trigger] s[i]).price <= i64::MAX
    &&& side_depth(s) <= i64::MAX
}

/// Total resting quantity in one level's queue.
pub open spec fn queue_qty(orders: Seq<Order>) -> int
    decreases orders.len(),
{
    if orders.len() == 0 {
        0
    } else {
        orders[0].qty + queue_qty(orders.drop_first())
    }
}

/// Total resting quantity on a side (its depth).
pub open spec fn side_depth(s: Seq<LevelModel>) -> int
    decreases s.len(),
{
    if s.len() == 0 {
        0
    } else {
        queue_qty(s[0].orders) + side_depth(s.drop_first())
    }
}

/// Whether the side has a level at the given price.
pub open spec fn has_level(s: Seq<LevelModel>, price: int) -> bool {
    exists|i: int| 0 <= i < s.len() && (#[trigger] s[i]).price == price
}

/// The queue at the given price (meaningful only when `has_level`).
pub open spec fn orders_at(s: Seq<LevelModel>, price: int) -> Seq<Order> {
    let i = choose|i: int| 0 <= i < s.len() && (#[trigger] s[i]).price == price;
    s[i].orders
}

/// Resting quantity at one price: zero when the level is absent.
pub open spec fn qty_at(s: Seq<LevelModel>, price: int) -> int {
    if has_level(s, price) {
        queue_qty(orders_at(s, price))
    } else {
        0
    }
}

/// The part of well-formedness that speaks of the orders alone:
/// positive quantities, queues non-empty, orders priced at their level.
pub open spec fn levels_positive(s: Seq<LevelModel>) -> bool {
    &&& forall|i: int| 0 <= i < s.len() ==> (#[trigger] s[i].orders).len() > 0
    &&& forall|i: int, k: int|
        0 <= i < s.len() && 0 <= k < s[i].orders.len() ==> {
            &&& (#[trigger] s[i].orders[k]).qty > 0
            &&& s[i].orders[k].price == s[i].price
        }
}

pub proof fn lemma_queue_qty_concat(a: Seq<Order>, b: Seq<Order>)
    ensures
        queue_qty(a + b) == queue_qty(a) + queue_qty(b),
    decreases a.len(),
{
    if a.len() == 0 {
        assert(a + b =~= b);
    } else {
        assert((a + b).drop_first() =~= a.drop_first() + b);
        lemma_queue_qty_concat(a.drop_first(), b);
    }
}

pub proof fn lemma_queue_qty_nonneg(a: Seq<Order>)
    requires
        forall|k: int| 0 <= k < a.len() ==> (#[trigger] a[k]).qty > 0,
    ensures
        queue_qty(a) >= 0,
        a.len() > 0 ==> queue_qty(a) > 0,
    decreases a.len(),
{
    if a.len() > 0 {
        lemma_queue_qty_nonneg(a.drop_first());
    }
}

pub proof fn lemma_side_depth_concat(a: Seq<LevelModel>, b: Seq<LevelModel>)
    ensures
        side_depth(a + b) == side_depth(a) + side_depth(b),
    decreases a.len(),
{
    if a.len() == 0 {
        assert(a + b =~= b);
    } else {
        assert((a + b).drop_first() =~= a.drop_first() + b);
        lemma_side_depth_concat(a.drop_first(), b);
    }
}

pub proof fn lemma_side_depth_nonneg(s: Seq<LevelModel>)
    requires
        levels_positive(s),
    ensures
        side_depth(s) >= 0,
    decreases s.len(),
{
    if s.len() > 0 {
        lemma_queue_qty_nonneg(s[0].orders);
        assert(levels_positive(s.drop_first()));
        lemma_side_depth_nonneg(s.drop_first());
    }
}

/// Depth of a prefix grows by the next level's queue.
pub proof fn lemma_side_depth_take_step(s: Seq<LevelModel>, i: int)
    requires
        0 <= i < s.len(),
    ensures
        side_depth(s.take(i + 1)) == side_depth(s.take(i)) + queue_qty(s[i].orders),
{
    assert(s.take(i + 1) =~= s.take(i) + seq![s[i]]);
    lemma_side_depth_concat(s.take(i), seq![s[i]]);
    assert(side_depth(seq![s[i]]) == queue_qty(s[i].orders) + side_depth(seq![s[i]].drop_first()));
    assert(seq![s[i]].drop_first() =~= Seq::<LevelModel>::empty());
}

/// Decompose the depth of a side around index `i`.
pub proof fn lemma_side_depth_split(s: Seq<LevelModel>, i: int)
    requires
        0 <= i < s.len(),
    ensures
        side_depth(s) == side_depth(s.take(i)) + queue_qty(s[i].orders) + side_depth(s.skip(i + 1)),
{
    assert(s =~= s.take(i) + seq![s[i]] + s.skip(i + 1));
    lemma_side_depth_concat(s.take(i) + seq![s[i]], s.skip(i + 1));
    lemma_side_depth_concat(s.take(i), seq![s[i]]);
    assert(side_depth(seq![s[i]]) == queue_qty(s[i].orders) + side_depth(seq![s[i]].drop_first()));
    assert(seq![s[i]].drop_first() =~= Seq::<LevelModel>::empty());
}

/// Resting a new order on a side, in price order: the functional
/// specification that `add_limit` implements.
pub open spec fn add_order(s: Seq<LevelModel>, o: Order) -> Seq<LevelModel>
    decreases s.len(),
{
    if s.len() == 0 {
        seq![LevelModel { price: o.price as int, orders: seq![o] }]
    } else if s[0].price < o.price as int {
        seq![s[0]] + add_order(s.drop_first(), o)
    } else if s[0].price == o.price as int {
        seq![LevelModel { price: s[0].price, orders: s[0].orders.push(o) }] + s.drop_first()
    } else {
        seq![LevelModel { price: o.price as int, orders: seq![o] }] + s
    }
}

/// `add_order` lands at the position `find_pos` reports: an update of
/// the level there on an exact hit, an insertion otherwise.
proof fn lemma_add_order_at(s: Seq<LevelModel>, o: Order, i: int)
    requires
        0 <= i <= s.len(),
        forall|j: int| 0 <= j < i ==> (#[trigger] s[j]).price < o.price as int,
        i < s.len() ==> s[i].price >= o.price as int,
    ensures
        add_order(s, o) == if i < s.len() && s[i].price == o.price as int {
            s.update(i, LevelModel { price: s[i].price, orders: s[i].orders.push(o) })
        } else {
            s.insert(i, LevelModel { price: o.price as int, orders: seq![o] })
        },
    decreases i,
{
    if i == 0 {
        if s.len() == 0 {
            assert(add_order(s, o) =~= s.insert(0, LevelModel { price: o.price as int, orders: seq![o] }));
        } else if s[0].price == o.price as int {
            assert(add_order(s, o) =~= s.update(
                0,
                LevelModel { price: s[0].price, orders: s[0].orders.push(o) },
            ));
        } else {
            assert(add_order(s, o) =~= s.insert(0, LevelModel { price: o.price as int, orders: seq![o] }));
        }
    } else {
        assert(s[0].price < o.price as int);
        lemma_add_order_at(s.drop_first(), o, i - 1);
        if i < s.len() && s[i].price == o.price as int {
            assert(s.drop_first()[i - 1] == s[i]);
            assert(seq![s[0]] + s.drop_first().update(
                i - 1,
                LevelModel { price: s[i].price, orders: s[i].orders.push(o) },
            ) =~= s.update(i, LevelModel { price: s[i].price, orders: s[i].orders.push(o) }));
        } else {
            assert(seq![s[0]] + s.drop_first().insert(
                i - 1,
                LevelModel { price: o.price as int, orders: seq![o] },
            ) =~= s.insert(i, LevelModel { price: o.price as int, orders: seq![o] }));
        }
    }
}


/// Effect, well-formedness and depth of `add_order` when the price
/// already has a level at index `pos`.
proof fn lemma_add_order_found(s0: Seq<LevelModel>, o: Order, pos: int)
    requires
        side_wf(s0),
        0 <= pos < s0.len(),
        forall|j: int| 0 <= j < pos ==> (#[trigger] s0[j]).price < o.price as int,
        s0[pos].price == o.price as int,
        0 < o.qty,
        0 <= o.price,
        side_depth(s0) + o.qty <= i64::MAX,
    ensures
        ({
            let s1 = s0.update(
                pos,
                LevelModel { price: s0[pos].price, orders: s0[pos].orders.push(o) },
            );
            &&& add_order(s0, o) == s1
            &&& side_wf(s1)
            &&& side_depth(s1) == side_depth(s0) + o.qty
        }),
{
    let lm = LevelModel { price: s0[pos].price, orders: s0[pos].orders.push(o) };
    let s1 = s0.update(pos, lm);
    lemma_add_order_at(s0, o, pos);
    lemma_side_depth_split(s0, pos);
    lemma_side_depth_split(s1, pos);
    assert(s1.take(pos) =~= s0.take(pos));
    assert(s1.skip(pos + 1) =~= s0.skip(pos + 1));
    assert(lm.orders =~= s0[pos].orders + seq![o]);
    lemma_queue_qty_concat(s0[pos].orders, seq![o]);
    assert(queue_qty(seq![o]) == o.qty + queue_qty(seq![o].drop_first()));
    assert(seq![o].drop_first() =~= Seq::<Order>::empty());
    assert forall|i: int, k: int|
        0 <= i < s1.len() && 0 <= k < s1[i].orders.len() implies {
            &&& (#[trigger] s1[i].orders[k]).qty > 0
            &&& s1[i].orders[k].price == s1[i].price
        } by {
        if i == pos && k == s1[i].orders.len() - 1 {
        } else {
            assert(s0[i].orders[k].qty > 0);
        }
    }
}

/// Effect, well-formedness and depth of `add_order` when the price is
/// absent and a fresh level goes in at index `pos`.
proof fn lemma_add_order_insert(s0: Seq<LevelModel>, o: Order, pos: int)
    requires
        side_wf(s0),
        0 <= pos <= s0.len(),
        forall|j: int| 0 <= j < pos ==> (#[trigger] s0[j]).price < o.price as int,
        pos < s0.len() ==> s0[pos].price > o.price as int,
        0 < o.qty,
        0 <= o.price,
        side_depth(s0) + o.qty <= i64::MAX,
    ensures
        ({
            let s1 = s0.insert(pos, LevelModel { price: o.price as int, orders: seq![o] });
            &&& add_order(s0, o) == s1
            &&& side_wf(s1)
            &&& side_depth(s1) == side_depth(s0) + o.qty
        }),
{
    let lm = LevelModel { price: o.price as int, orders: seq![o] };
    let s1 = s0.insert(pos, lm);
    lemma_add_order_at(s0, o, pos);
    assert(s1 =~= s0.take(pos) + seq![lm] + s0.skip(pos));
    assert(s0 =~= s0.take(pos) + s0.skip(pos));
    lemma_side_depth_concat(s0.take(pos) + seq![lm], s0.skip(pos));
    lemma_side_depth_concat(s0.take(pos), seq![lm]);
    lemma_side_depth_concat(s0.take(pos), s0.skip(pos));
    assert(side_depth(seq![lm]) == queue_qty(lm.orders) + side_depth(seq![lm].drop_first()));
    assert(seq![lm].drop_first() =~= Seq::<LevelModel>::empty());
    assert(queue_qty(lm.orders) == o.qty + queue_qty(lm.orders.drop_first()));
    assert(lm.orders.drop_first() =~= Seq::<Order>::empty());
    assert forall|i: int, j: int| 0 <= i < j < s1.len() implies s1[i].price < s1[j].price by {
        if i < pos && j == pos {
            assert(s0[i].price < o.price as int);
        } else if i == pos && j > pos {
            assert(s0[j - 1].price >= o.price as int);
        }
    }
    assert forall|i: int, k: int|
        0 <= i < s1.len() && 0 <= k < s1[i].orders.len() implies {
            &&& (#[trigger] s1[i].orders[k]).qty > 0
            &&& s1[i].orders[k].price == s1[i].price
        } by {
        if i != pos {
            let i0 = if i < pos {
                i
            } else {
                i - 1
            };
            assert(s0[i0].orders[k].qty > 0);
        }
    }
}

impl OrderBookSide {
    /// An empty side.
    pub fn new(is_bid: bool) -> (r: OrderBookSide)
        ensures
            r@ =~= Seq::<LevelModel>::empty(),
            r.is_bid == is_bid,
    {
        OrderBookSide { levels: Vec::new(), is_bid }
    }

    /// The index where a level with `price` sits or would be inserted:
    /// every level before it is cheaper, every level from it on is at
    /// least `price`; `found` reports an exact hit.
    fn find_pos(&self, price: i64) -> (r: (usize, bool))
        requires
            side_wf(self@),
        ensures
            0 <= r.0 <= self@.len(),
            forall|j: int| 0 <= j < r.0 ==> (#[trigger] self@[j]).price < price,
            forall|j: int| r.0 <= j < self@.len() ==> (#[trigger] self@[j]).price >= price,
            r.1 == (r.0 < self@.len() && self@[r.0 as int].price == price),
            r.1 == has_level(self@, price as int),
    {
        let n = self.levels.len();
        let mut i: usize = 0;
        while i < n && self.levels[i].price < price
            invariant
                0 <= i <= n,
                n == self@.len(),
                forall|j: int| 0 <= j < i ==> (#[trigger] self@[j]).price < price,
                side_wf(self@),
            decreases n - i,
        {
            i += 1;
        }
        let found = i < n && self.levels[i].price == price;
        proof {
            assert forall|j: int| i <= j < self@.len() implies (#[trigger] self@[j]).price >= price by {
                if i < j {
                    assert(self@[i as int].price < self@[j].price);
                }
            }
            if found {
                assert(self@[i as int].price == price);
                assert(has_level(self@, price as int));
            } else if has_level(self@, price as int) {
                let k = choose|k: int| 0 <= k < self@.len() && (#[trigger] self@[k]).price == price;
                assert(self@[k].price >= price);
                if k < i {
                    assert(self@[k].price < price);
                } else if k == i {
                    assert(!(i < n && self@[i as int].price == price));
                } else {
                    assert(self@[i as int].price < self@[k].price);
                    assert(self@[i as int].price >= price);
                }
                assert(false);
            }
        }
        (i, found)
    }

    /// Rest a new order at `price`, appending to the FIFO queue there
    /// and creating the level at its sorted position if absent.
    pub fn add_limit(&mut self, id: u64, price: i64, qty: i64, ts: i64)
        requires
            side_wf(old(self)@),
            0 <= price,
            0 < qty,
            side_depth(old(self)@) + qty <= i64::MAX,
        ensures
            final(self)@ == add_order(old(self)@, Order { id, price, qty, ts }),
            side_wf(final(self)@),
            final(self).is_bid == old(self).is_bid,
            side_depth(final(self)@) == side_depth(old(self)@) + qty,
    {
        let o = Order { id, price, qty, ts };
        let (pos, found) = self.find_pos(price);
        let ghost s0 = self@;
        if found {
            let mut lvl = self.levels.remove(pos);
            lvl.orders.push(o);
            self.levels.insert(pos, lvl);
            proof {
                lemma_add_order_found(s0, o, pos as int);
                assert(self@ =~~= s0.update(
                    pos as int,
                    LevelModel { price: s0[pos as int].price, orders: s0[pos as int].orders.push(o) },
                ));
            }
        } else {
            self.levels.insert(pos, Level { price, orders: vec![o] });
            proof {
                lemma_add_order_insert(s0, o, pos as int);
                assert(self@ =~~= s0.insert(
                    pos as int,
                    LevelModel { price: price as int, orders: seq![o] },
                ));
            }
        }
    }

    /// Drain the FIFO queue at `price` oldest-first until `qty` is
    /// taken or the level is exhausted; an emptied level is removed.
    /// Returns the filled quantity, the exact accumulated cost, and
    /// the fills in consumption order as (order id, quantity, price).
    #[verifier::rlimit(100)]
    pub fn consume_at_price(&mut self, price: i64, qty: i64) -> (r: (i64, i128, Vec<(u64, i64, i64)>))
        requires
            side_wf(old(self)@),
            0 <= qty,
        ensures
            side_wf(final(self)@),
            final(self).is_bid == old(self).is_bid,
            !has_level(old(self)@, price as int) ==> {
                &&& final(self)@ == old(self)@
                &&& r.0 == 0
                &&& r.1 == 0
                &&& r.2@ == Seq::<FillPart>::empty()
            },
            has_level(old(self)@, price as int) ==> ({
                let c = consume_queue(orders_at(old(self)@, price as int), qty as int);
                &&& r.0 as int == c.filled
                &&& r.1 as int == c.cost
                &&& r.2@ == c.fills
                &&& side_depth(final(self)@) == side_depth(old(self)@) - c.filled
                &&& exists|i: int|
                    {
                        &&& 0 <= i < old(self)@.len()
                        &&& (#[trigger] old(self)@[i]).price == price as int
                        &&& final(self)@ == if c.rest.len() == 0 {
                            old(self)@.remove(i)
                        } else {
                            old(self)@.update(i, LevelModel { price: price as int, orders: c.rest })
                        }
                    }
            }),
    {
        let ghost s0 = self@;
        let (pos, found) = self.find_pos(price);
        if !found {
            let r = (0i64, 0i128, Vec::<(u64, i64, i64)>::new());
            proof {
                assert(r.2@ =~= Seq::<FillPart>::empty());
            }
            return r;
        }
        proof {
            lemma_level_lookup(s0, pos as int);
            assert(forall|k: int|
                0 <= k < s0[pos as int].orders.len() ==> (#[trigger] s0[pos as int].orders[k]).qty
                    > 0);
        }
        let ghost q0 = s0[pos as int].orders;
        let ghost c0 = consume_queue(q0, qty as int);
        proof {
            lemma_consume_queue_props(q0, qty as int);
            lemma_side_depth_split(s0, pos as int);
            assert(levels_positive(s0.take(pos as int)));
            assert(levels_positive(s0.skip(pos as int + 1)));
            lemma_side_depth_nonneg(s0.take(pos as int));
            lemma_side_depth_nonneg(s0.skip(pos as int + 1));
            lemma_queue_qty_nonneg(q0);
        }
        let mut lvl = self.levels.remove(pos);
        proof {
            assert(self@ =~~= s0.remove(pos as int));
        }
        let mut need = qty;
        let mut filled: i64 = 0;
        let mut cost: i128 = 0;
        let mut fills: Vec<(u64, i64, i64)> = Vec::new();
        proof {
            assert(fills@ =~= Seq::<FillPart>::empty());
            assert(fills@ + consume_queue(lvl.orders@, need as int).fills =~= consume_queue(
                lvl.orders@,
                need as int,
            ).fills);
        }
        while need > 0 && lvl.orders.len() > 0
            invariant
                0 <= need <= qty,
                qty <= i64::MAX,
                filled == qty - need,
                lvl.price == price,
                0 <= price,
                forall|k: int|
                    0 <= k < lvl.orders@.len() ==> {
                        &&& (#[trigger] lvl.orders@[k]).qty > 0
                        &&& lvl.orders@[k].price == price
                    },
                c0 == consume_queue(q0, qty as int),
                ({
                    let c = consume_queue(lvl.orders@, need as int);
                    &&& c0.fills == fills@ + c.fills
                    &&& c0.filled == filled + c.filled
                    &&& c0.cost == cost + c.cost
                    &&& c0.rest == c.rest
                }),
                cost == (filled as int) * (price as int),
                queue_qty(lvl.orders@) == queue_qty(q0) - filled,
            decreases lvl.orders@.len() + need,
        {
            let ghost cur = lvl.orders@;
            let ghost c_cur = consume_queue(cur, need as int);
            let o = lvl.orders[0];
            proof {
                assert((filled as int + o.qty) * (price as int) == (filled as int) * (price as int)
                    + o.qty * (price as int)) by (nonlinear_arith);
                assert((filled as int + need) * (price as int) == (filled as int) * (price as int)
                    + (need as int) * (price as int)) by (nonlinear_arith);
                assert((qty as int) * (price as int) <= (i64::MAX as int) * (i64::MAX as int))
                    by (nonlinear_arith)
                    requires
                        0 <= qty <= i64::MAX,
                        0 <= price <= i64::MAX,
                ;
                assert(0 <= (o.qty as int) * (price as int)) by (nonlinear_arith)
                    requires
                        0 <= o.qty,
                        0 <= price,
                ;
                assert(0 <= (need as int) * (price as int)) by (nonlinear_arith)
                    requires
                        0 <= need,
                        0 <= price,
                ;
            }
            if o.qty <= need {
                proof {
                    assert((filled as int + o.qty) * (price as int) <= (qty as int) * (
                    price as int)) by (nonlinear_arith)
                        requires
                            0 <= price,
                            o.qty <= need,
                            filled == qty - need,
                    ;
                }
                fills.push((o.id, o.qty, o.price));
                filled = filled + o.qty;
                cost = cost + (o.qty as i128) * (price as i128);
                need = need - o.qty;
                lvl.orders.remove(0);
                proof {
                    assert(lvl.orders@ =~= cur.drop_first());
                    let c_next = consume_queue(lvl.orders@, need as int);
                    assert(c_cur.fills == seq![(o.id, o.qty, o.price)] + c_next.fills);
                    assert(fills@ =~= (fills@.drop_last()) + seq![(o.id, o.qty, o.price)]);
                    assert((fills@.drop_last() + seq![(o.id, o.qty, o.price)]) + c_next.fills
                        =~= fills@.drop_last() + (seq![(o.id, o.qty, o.price)] + c_next.fills));
                    assert(queue_qty(cur) == cur[0].qty + queue_qty(cur.drop_first()));
                }
            } else {
                proof {
                    assert((filled as int + need) * (price as int) <= (qty as int) * (
                    price as int)) by (nonlinear_arith)
                        requires
                            0 <= price,
                            0 <= need,
                            filled == qty - need,
                    ;
                }
                let mut o2 = lvl.orders.remove(0);
                o2.qty = o2.qty - need;
                lvl.orders.insert(0, o2);
                fills.push((o.id, need, o.price));
                filled = filled + need;
                cost = cost + (need as i128) * (price as i128);
                proof {
                    assert(lvl.orders@ =~= cur.update(
                        0,
                        Order { id: o.id, price: o.price, qty: (o.qty - need) as i64, ts: o.ts },
                    ));
                    assert(c_cur.fills == seq![(o.id, need, o.price)]);
                    assert(c_cur.rest == lvl.orders@);
                    assert(fills@ =~= fills@.drop_last() + seq![(o.id, need, o.price)]);
                    assert(queue_qty(cur) == cur[0].qty + queue_qty(cur.drop_first()));
                    assert(queue_qty(lvl.orders@) == lvl.orders@[0].qty + queue_qty(
                        lvl.orders@.drop_first(),
                    ));
                    assert(lvl.orders@.drop_first() =~= cur.drop_first());
                }
                need = 0;
                proof {
                    let c_next = consume_queue(lvl.orders@, need as int);
                    assert(c_next.fills =~= Seq::<FillPart>::empty());
                    assert(fills@ + c_next.fills =~= fills@);
                }
            }
        }
        proof {
            let c_end = consume_queue(lvl.orders@, need as int);
            assert(c_end.fills =~= Seq::<FillPart>::empty());
            assert(fills@ + c_end.fills =~= fills@);
            assert(c0.fills == fills@);
            assert(c0.filled == filled as int);
            assert(c0.cost == cost as int);
            assert(c0.rest == lvl.orders@);
        }
        if lvl.orders.len() > 0 {
            self.levels.insert(pos, lvl);
            proof {
                assert(self@ =~~= s0.update(
                    pos as int,
                    LevelModel { price: price as int, orders: c0.rest },
                ));
                lemma_side_depth_split(self@, pos as int);
                assert(self@.take(pos as int) =~= s0.take(pos as int));
                assert(self@.skip(pos as int + 1) =~= s0.skip(pos as int + 1));
                assert forall|i: int, k: int|
                    0 <= i < self@.len() && 0 <= k < self@[i].orders.len() implies {
                        &&& (#[trigger] self@[i].orders[k]).qty > 0
                        &&& self@[i].orders[k].price == self@[i].price
                    } by {
                    if i != pos as int {
                        assert(s0[i].orders[k].qty > 0);
                    }
                }
            }
        } else {
            proof {
                assert(self@ =~~= s0.remove(pos as int));
                assert(queue_qty(c0.rest) == 0);
                lemma_side_depth_concat(s0.take(pos as int), s0.skip(pos as int + 1));
                assert(self@ =~= s0.take(pos as int) + s0.skip(pos as int + 1));
                assert forall|i: int, k: int|
                    0 <= i < self@.len() && 0 <= k < self@[i].orders.len() implies {
                        &&& (#[trigger] self@[i].orders[k]).qty > 0
                        &&& self@[i].orders[k].price == self@[i].price
                    } by {
                    let i0 = if i < pos as int {
                        i
                    } else {
                        i + 1
                    };
                    assert(s0[i0].orders[k].qty > 0);
                }
            }
        }
        (filled, cost, fills)
    }

    /// The best price on this side: the highest level for bids, the
    /// lowest for asks; `None` on an empty side.
    pub fn best_price(&self) -> (r: Option<i64>)
        requires
            side_wf(self@),
        ensures
            (r is Some) == (self@.len() > 0),
            r matches Some(p) ==> p as int == if self.is_bid {
                self@.last().price
            } else {
                self@[0].price
            },
    {
        if self.levels.len() == 0 {
            None
        } else if self.is_bid {
            Some(self.levels[self.levels.len() - 1].price)
        } else {
            Some(self.levels[0].price)
        }
    }

    /// The side's prices best-first: descending for bids, ascending
    /// for asks.
    pub fn price_iter(&self) -> (r: Vec<i64>)
        requires
            side_wf(self@),
        ensures
            r@.len() == self@.len(),
            forall|i: int|
                0 <= i < r@.len() ==> (#[trigger] r@[i]) as int == if self.is_bid {
                    self@[self@.len() - 1 - i].price
                } else {
                    self@[i].price
                },
    {
        let n = self.levels.len();
        let mut out: Vec<i64> = Vec::new();
        let mut i: usize = 0;
        while i < n
            invariant
                0 <= i <= n,
                n == self@.len(),
                side_wf(self@),
                out@.len() == i,
                forall|k: int|
                    0 <= k < i ==> (#[trigger] out@[k]) as int == if self.is_bid {
                        self@[self@.len() - 1 - k].price
                    } else {
                        self@[k].price
                    },
            decreases n - i,
        {
            if self.is_bid {
                out.push(self.levels[n - 1 - i].price);
            } else {
                out.push(self.levels[i].price);
            }
            i += 1;
        }
        out
    }

    /// Total resting quantity across all levels of this side.
    pub fn total_qty(&self) -> (r: i64)
        requires
            side_wf(self@),
        ensures
            r as int == side_depth(self@),
    {
        let mut acc: i64 = 0;
        let mut i: usize = 0;
        let n = self.levels.len();
        proof {
            assert(self@.take(0) =~= Seq::<LevelModel>::empty());
        }
        while i < n
            invariant
                0 <= i <= n,
                n == self@.len(),
                side_wf(self@),
                acc as int == side_depth(self@.take(i as int)),
            decreases n - i,
        {
            let lvl_total = queue_total(&self.levels[i].orders, Ghost(self@), Ghost(i as int));
            proof {
                lemma_side_depth_take_step(self@, i as int);
                assert(self@ =~= self@.take(i as int + 1) + self@.skip(i as int + 1));
                lemma_side_depth_concat(self@.take(i as int + 1), self@.skip(i as int + 1));
                assert(levels_positive(self@.skip(i as int + 1)));
                lemma_side_depth_nonneg(self@.skip(i as int + 1));
                assert(levels_positive(self@.take(i as int + 1)));
                lemma_side_depth_nonneg(self@.take(i as int + 1));
            }
            acc = acc + lvl_total;
            i += 1;
        }
        proof {
            assert(self@.take(n as int) =~= self@);
        }
        acc
    }
}

/// Total quantity in one level's queue; the ghost arguments place the
/// queue inside a well-formed side so the sum is known to fit.
fn queue_total(orders: &Vec<Order>, Ghost(s): Ghost<Seq<LevelModel>>, Ghost(li): Ghost<int>) -> (r: i64)
    requires
        side_wf(s),
        0 <= li < s.len(),
        orders@ == s[li].orders,
    ensures
        r as int == queue_qty(orders@),
{
    let mut acc: i64 = 0;
    let mut k: usize = 0;
    let n = orders.len();
    proof {
        assert(orders@.take(0) =~= Seq::<Order>::empty());
        lemma_side_depth_split(s, li);
        assert(levels_positive(s.take(li)));
        assert(levels_positive(s.skip(li + 1)));
        lemma_side_depth_nonneg(s.take(li));
        lemma_side_depth_nonneg(s.skip(li + 1));
    }
    while k < n
        invariant
            0 <= k <= n,
            n == orders@.len(),
            forall|j: int| 0 <= j < orders@.len() ==> (#[trigger] orders@[j]).qty > 0,
            acc as int == queue_qty(orders@.take(k as int)),
            queue_qty(orders@) <= i64::MAX,
        decreases n - k,
    {
        proof {
            lemma_queue_qty_take_step(orders@, k as int);
            assert(orders@ =~= orders@.take(k as int + 1) + orders@.skip(k as int + 1));
            lemma_queue_qty_concat(orders@.take(k as int + 1), orders@.skip(k as int + 1));
            lemma_queue_qty_nonneg(orders@.skip(k as int + 1));
            lemma_queue_qty_nonneg(orders@.take(k as int + 1));
        }
        acc = acc + orders[k].qty;
        k += 1;
    }
    proof {
        assert(orders@.take(n as int) =~= orders@);
    }
    acc
}

/// One reported fill: the consumed order's id, the quantity taken
/// from it, and the price it was taken at.
pub type FillPart = (u64, i64, i64);

/// Outcome of draining one FIFO queue: the fills in consumption
/// order, what remains of the queue, the total quantity taken and the
/// exact total cost.
#[verifier::ext_equal]
pub struct ConsumeResult {
    pub fills: Seq<FillPart>,
    pub rest: Seq<Order>,
    pub filled: int,
    pub cost: int,
}

/// Drain a FIFO queue oldest-first until `need` is met or the queue
/// is empty; a front order larger than what is still needed is
/// reduced in place, smaller ones are consumed whole and removed.
pub open spec fn consume_queue(orders: Seq<Order>, need: int) -> ConsumeResult
    decreases orders.len(),
{
    if need <= 0 || orders.len() == 0 {
        ConsumeResult { fills: Seq::empty(), rest: orders, filled: 0, cost: 0 }
    } else {
        let o = orders[0];
        if o.qty <= need {
            let r = consume_queue(orders.drop_first(), need - o.qty);
            ConsumeResult {
                fills: seq![(o.id, o.qty, o.price)] + r.fills,
                rest: r.rest,
                filled: o.qty + r.filled,
                cost: o.qty * o.price + r.cost,
            }
        } else {
            ConsumeResult {
                fills: seq![(o.id, need as i64, o.price)],
                rest: orders.update(
                    0,
                    Order { id: o.id, price: o.price, qty: (o.qty - need) as i64, ts: o.ts },
                ),
                filled: need,
                cost: need * o.price,
            }
        }
    }
}

/// Total quantity reported by a list of fills.
pub open spec fn fills_qty(fills: Seq<FillPart>) -> int
    decreases fills.len(),
{
    if fills.len() == 0 {
        0
    } else {
        fills[0].1 + fills_qty(fills.drop_first())
    }
}

/// Total cost (price times quantity, summed) of a list of fills.
pub open spec fn fills_cost(fills: Seq<FillPart>) -> int
    decreases fills.len(),
{
    if fills.len() == 0 {
        0
    } else {
        fills[0].1 * fills[0].2 + fills_cost(fills.drop_first())
    }
}

pub proof fn lemma_fills_qty_concat(a: Seq<FillPart>, b: Seq<FillPart>)
    ensures
        fills_qty(a + b) == fills_qty(a) + fills_qty(b),
        fills_cost(a + b) == fills_cost(a) + fills_cost(b),
    decreases a.len(),
{
    if a.len() == 0 {
        assert(a + b =~= b);
    } else {
        assert((a + b).drop_first() =~= a.drop_first() + b);
        lemma_fills_qty_concat(a.drop_first(), b);
    }
}

/// What always holds of draining a queue of positive orders: the
/// taken quantity is bounded by both the request and the queue's
/// depth, the fills account exactly for quantity and cost, the fills
/// take the oldest orders first and take them whole except perhaps
/// the last, and what remains is a suffix of the queue whose front
/// order may be reduced but stays positive.
pub proof fn lemma_consume_queue_props(orders: Seq<Order>, need: int)
    requires
        0 <= need <= i64::MAX,
        forall|k: int| 0 <= k < orders.len() ==> (#[trigger] orders[k]).qty > 0,
    ensures
        ({
            let c = consume_queue(orders, need);
            let off = orders.len() - c.rest.len();
            &&& 0 <= c.filled <= need
            &&& c.filled <= queue_qty(orders)
            &&& queue_qty(c.rest) == queue_qty(orders) - c.filled
            &&& c.rest.len() > 0 ==> c.filled == need
            &&& c.filled == fills_qty(c.fills)
            &&& c.cost == fills_cost(c.fills)
            &&& c.fills.len() <= orders.len()
            &&& forall|i: int|
                0 <= i < c.fills.len() ==> {
                    &&& (#[trigger] c.fills[i]).0 == orders[i].id
                    &&& c.fills[i].2 == orders[i].price
                    &&& 0 < c.fills[i].1 <= orders[i].qty
                    &&& (i + 1 < c.fills.len() ==> c.fills[i].1 == orders[i].qty)
                }
            &&& 0 <= off
            &&& forall|k: int|
                0 <= k < c.rest.len() ==> {
                    &&& (#[trigger] c.rest[k]).id == orders[off + k].id
                    &&& c.rest[k].price == orders[off + k].price
                    &&& c.rest[k].ts == orders[off + k].ts
                    &&& 0 < c.rest[k].qty <= orders[off + k].qty
                    &&& (k > 0 ==> c.rest[k] == orders[off + k])
                }
        }),
    decreases orders.len(),
{
    let c = consume_queue(orders, need);
    if need <= 0 || orders.len() == 0 {
        lemma_queue_qty_nonneg(orders);
    } else {
        let o = orders[0];
        if o.qty <= need {
            lemma_consume_queue_props(orders.drop_first(), need - o.qty);
            let r = consume_queue(orders.drop_first(), need - o.qty);
            assert(c.fills.drop_first() =~= r.fills);
            assert(c.fills[0] == (o.id, o.qty, o.price));
            assert(fills_cost(c.fills) == c.fills[0].1 * c.fills[0].2 + fills_cost(r.fills));
            assert(queue_qty(orders) == o.qty + queue_qty(orders.drop_first()));
            lemma_queue_qty_nonneg(orders.drop_first());
            let off = orders.len() - c.rest.len();
            assert forall|i: int| 0 <= i < c.fills.len() implies {
                &&& (#[trigger] c.fills[i]).0 == orders[i].id
                &&& c.fills[i].2 == orders[i].price
                &&& 0 < c.fills[i].1 <= orders[i].qty
                &&& (i + 1 < c.fills.len() ==> c.fills[i].1 == orders[i].qty)
            } by {
                if i > 0 {
                    assert(c.fills[i] == r.fills[i - 1]);
                    assert(orders[i] == orders.drop_first()[i - 1]);
                }
            }
            assert forall|k: int| 0 <= k < c.rest.len() implies {
                &&& (#[trigger] c.rest[k]).id == orders[off + k].id
                &&& c.rest[k].price == orders[off + k].price
                &&& c.rest[k].ts == orders[off + k].ts
                &&& 0 < c.rest[k].qty <= orders[off + k].qty
                &&& (k > 0 ==> c.rest[k] == orders[off + k])
            } by {
                let offr = orders.drop_first().len() - r.rest.len();
                assert(c.rest[k] == r.rest[k]);
                assert(r.rest[k].id == orders.drop_first()[offr + k].id);
                assert(orders.drop_first()[offr + k] == orders[off + k]);
            }
        } else {
            let reduced = Order { id: o.id, price: o.price, qty: (o.qty - need) as i64, ts: o.ts };
            assert(c.rest =~= orders.update(0, reduced));
            assert(c.fills.drop_first() =~= Seq::<FillPart>::empty());
            assert(queue_qty(c.rest) == reduced.qty + queue_qty(c.rest.drop_first()));
            assert(c.rest.drop_first() =~= orders.drop_first());
            assert(queue_qty(orders) == o.qty + queue_qty(orders.drop_first()));
            lemma_queue_qty_nonneg(orders.drop_first());
            assert(c.fills.drop_first() =~= Seq::<FillPart>::empty());
            assert(fills_qty(c.fills) == c.fills[0].1 + fills_qty(c.fills.drop_first()));
            assert(c.fills[0].1 == need as i64);
            assert(c.fills[0].2 == o.price);
            assert(fills_cost(c.fills) == c.fills[0].1 * c.fills[0].2 + fills_cost(c.fills.drop_first()));
        }
    }
}

/// At one price level every order carries the level's price, so the
/// cost of draining it is exactly the taken quantity times that price.
pub proof fn lemma_consume_queue_cost_at_price(orders: Seq<Order>, need: int, price: int)
    requires
        0 <= need,
        forall|k: int| 0 <= k < orders.len() ==> (#[trigger] orders[k]).price == price,
    ensures
        consume_queue(orders, need).cost == consume_queue(orders, need).filled * price,
    decreases orders.len(),
{
    let c = consume_queue(orders, need);
    if need <= 0 || orders.len() == 0 {
        assert(c.cost == 0);
        assert(c.filled == 0);
        assert(c.cost == c.filled * price) by (nonlinear_arith)
            requires c.cost == 0 && c.filled == 0;
    } else {
        let o = orders[0];
        assert forall|k: int| 0 <= k < orders.drop_first().len() implies (#[trigger] orders.drop_first()[k]).price == price by {
            assert(orders[k + 1].price == price);
        }
        if o.qty <= need {
            lemma_consume_queue_cost_at_price(orders.drop_first(), need - o.qty, price);
            let r = consume_queue(orders.drop_first(), need - o.qty);
            assert(orders[0].price == price);
            assert(r.cost == r.filled * price);
            assert(c.cost == o.qty * o.price + r.cost);
            assert(c.filled == o.qty + r.filled);
            assert((o.qty + r.filled) * price == o.qty * price + r.filled * price) by (nonlinear_arith);
            assert(o.qty * o.price == o.qty * price);
            assert(c.cost == c.filled * price);
        } else {
            assert(orders[0].price == price);
            assert(c.cost == need * o.price);
            assert(c.filled == need);
            assert(c.cost == c.filled * price);
        }
    }
}

/// In a sorted side the level holding a given price is unique, so
/// `orders_at` agrees with any index that exhibits the price.
pub proof fn lemma_level_lookup(s: Seq<LevelModel>, i: int)
    requires
        forall|a: int, b: int| 0 <= a < b < s.len() ==> s[a].price < s[b].price,
        0 <= i < s.len(),
    ensures
        has_level(s, s[i].price),
        orders_at(s, s[i].price) == s[i].orders,
{
    assert(has_level(s, s[i].price));
    let j = choose|j: int| 0 <= j < s.len() && (#[trigger] s[j]).price == s[i].price;
    if j < i {
        assert(s[j].price < s[i].price);
    } else if j > i {
        assert(s[i].price < s[j].price);
    }
}

/// Queue quantity of a prefix grows by the next order.
pub proof fn lemma_queue_qty_take_step(a: Seq<Order>, k: int)
    requires
        0 <= k < a.len(),
    ensures
        queue_qty(a.take(k + 1)) == queue_qty(a.take(k)) + a[k].qty,
{
    assert(a.take(k + 1) =~= a.take(k) + seq![a[k]]);
    lemma_queue_qty_concat(a.take(k), seq![a[k]]);
    assert(queue_qty(seq![a[k]]) == a[k].qty + queue_qty(seq![a[k]].drop_first()));
    assert(seq![a[k]].drop_first() =~= Seq::<Order>::empty());
}

/// Levels strictly ascending by price (so each price occurs at most
/// once).
pub open spec fn prices_sorted(s: Seq<LevelModel>) -> bool {
    forall|i: int, j: int| 0 <= i < j < s.len() ==> s[i].price < s[j].price
}

/// Resting an order changes exactly one price's presence: afterwards
/// a price has a level iff it had one before or it is the order's
/// price; sortedness is kept.
pub proof fn lemma_add_order_prices(s: Seq<LevelModel>, o: Order)
    requires
        prices_sorted(s),
    ensures
        prices_sorted(add_order(s, o)),
        forall|p: int|
            #![trigger has_level(add_order(s, o), p)]
            has_level(add_order(s, o), p) <==> (has_level(s, p) || p == o.price as int),
    decreases s.len(),
{
    let t = add_order(s, o);
    if s.len() == 0 {
        assert forall|p: int| has_level(t, p) <==> (has_level(s, p) || p == o.price as int) by {
            if p == o.price as int {
                assert(t[0].price == p);
                assert(has_level(t, p));
            }
            if has_level(t, p) {
                let i = choose|i: int| 0 <= i < t.len() && (#[trigger] t[i]).price == p;
                assert(i == 0);
            }
            if has_level(s, p) {
                let i = choose|i: int| 0 <= i < s.len() && (#[trigger] s[i]).price == p;
            }
        }
    } else if s[0].price < o.price as int {
        assert(prices_sorted(s.drop_first()));
        lemma_add_order_prices(s.drop_first(), o);
        let r = add_order(s.drop_first(), o);
        assert(t =~= seq![s[0]] + r);
        assert forall|k: int| 0 <= k < r.len() implies (#[trigger] r[k]).price > s[0].price by {
            assert(has_level(r, r[k].price));
            if has_level(s.drop_first(), r[k].price) {
                let i = choose|i: int|
                    0 <= i < s.drop_first().len() && (#[trigger] s.drop_first()[i]).price
                        == r[k].price;
                assert(s.drop_first()[i] == s[i + 1]);
                assert(s[0].price < s[i + 1].price);
            } else {
                assert(r[k].price == o.price as int);
            }
        }
        assert forall|i: int, j: int| 0 <= i < j < t.len() implies t[i].price < t[j].price by {
            if i == 0 {
                assert(t[j] == r[j - 1]);
            } else {
                assert(t[i] == r[i - 1] && t[j] == r[j - 1]);
            }
        }
        assert forall|p: int| has_level(t, p) <==> (has_level(s, p) || p == o.price as int) by {
            if has_level(t, p) {
                let i = choose|i: int| 0 <= i < t.len() && (#[trigger] t[i]).price == p;
                if i == 0 {
                    assert(s[0].price == p);
                    assert(has_level(s, p));
                } else {
                    assert(r[i - 1].price == p);
                    assert(has_level(r, p));
                    if has_level(s.drop_first(), p) {
                        let k = choose|k: int|
                            0 <= k < s.drop_first().len() && (#[trigger] s.drop_first()[k]).price
                                == p;
                        assert(s[k + 1].price == p);
                        assert(has_level(s, p));
                    }
                }
            }
            if has_level(s, p) {
                let i = choose|i: int| 0 <= i < s.len() && (#[trigger] s[i]).price == p;
                if i == 0 {
                    assert(t[0].price == p);
                } else {
                    assert(s.drop_first()[i - 1].price == p);
                    assert(has_level(s.drop_first(), p));
                    assert(has_level(r, p));
                    let k = choose|k: int| 0 <= k < r.len() && (#[trigger] r[k]).price == p;
                    assert(t[k + 1].price == p);
                }
                assert(has_level(t, p));
            }
            if p == o.price as int {
                assert(has_level(r, p));
                let k = choose|k: int| 0 <= k < r.len() && (#[trigger] r[k]).price == p;
                assert(t[k + 1].price == p);
                assert(has_level(t, p));
            }
        }
    } else if s[0].price == o.price as int {
        assert(t =~= seq![LevelModel { price: s[0].price, orders: s[0].orders.push(o) }]
            + s.drop_first());
        assert forall|p: int| has_level(t, p) <==> (has_level(s, p) || p == o.price as int) by {
            if has_level(t, p) {
                let i = choose|i: int| 0 <= i < t.len() && (#[trigger] t[i]).price == p;
                assert(s[i].price == p);
                assert(has_level(s, p));
            }
            if has_level(s, p) {
                let i = choose|i: int| 0 <= i < s.len() && (#[trigger] s[i]).price == p;
                assert(t[i].price == p);
                assert(has_level(t, p));
            }
            if p == o.price as int {
                assert(t[0].price == p);
                assert(has_level(t, p));
            }
        }
        assert forall|i: int, j: int| 0 <= i < j < t.len() implies t[i].price < t[j].price by {
            assert(t[i].price == s[i].price && t[j].price == s[j].price);
        }
    } else {
        assert(t =~= seq![LevelModel { price: o.price as int, orders: seq![o] }] + s);
        assert forall|i: int, j: int| 0 <= i < j < t.len() implies t[i].price < t[j].price by {
            if i == 0 {
                assert(t[j] == s[j - 1]);
                assert((o.price as int) < s[0].price);
                if j > 1 {
                    assert(s[0].price < s[j - 1].price);
                }
            } else {
                assert(t[i] == s[i - 1] && t[j] == s[j - 1]);
            }
        }
        assert forall|p: int| has_level(t, p) <==> (has_level(s, p) || p == o.price as int) by {
            if has_level(t, p) {
                let i = choose|i: int| 0 <= i < t.len() && (#[trigger] t[i]).price == p;
                if i == 0 {
                } else {
                    assert(s[i - 1].price == p);
                    assert(has_level(s, p));
                }
            }
            if has_level(s, p) {
                let i = choose|i: int| 0 <= i < s.len() && (#[trigger] s[i]).price == p;
                assert(t[i + 1].price == p);
                assert(has_level(t, p));
            }
            if p == o.price as int {
                assert(t[0].price == p);
                assert(has_level(t, p));
            }
        }
    }
}

/// Removing a price leaves exactly the other prices: afterwards a
/// price has a level iff it had one before and is not the removed
/// one; sortedness is kept.
pub proof fn lemma_remove_level_prices(s: Seq<LevelModel>, pr: i64)
    requires
        prices_sorted(s),
    ensures
        prices_sorted(remove_level(s, pr)),
        forall|p: int|
            #![trigger has_level(remove_level(s, pr), p)]
            has_level(remove_level(s, pr), p) <==> (has_level(s, p) && p != pr as int),
    decreases s.len(),
{
    let t = remove_level(s, pr);
    if s.len() == 0 {
        assert forall|p: int| has_level(t, p) <==> (has_level(s, p) && p != pr as int) by {
            if has_level(t, p) {
                let i = choose|i: int| 0 <= i < t.len() && (#[trigger] t[i]).price == p;
            }
            if has_level(s, p) {
                let i = choose|i: int| 0 <= i < s.len() && (#[trigger] s[i]).price == p;
            }
        }
    } else if s[0].price == pr as int {
        assert(t =~= s.drop_first());
        assert forall|p: int| has_level(t, p) <==> (has_level(s, p) && p != pr as int) by {
            if has_level(t, p) {
                let i = choose|i: int| 0 <= i < t.len() && (#[trigger] t[i]).price == p;
                assert(s[i + 1].price == p);
                assert(has_level(s, p));
                assert(s[0].price < s[i + 1].price);
            }
            if has_level(s, p) && p != pr as int {
                let i = choose|i: int| 0 <= i < s.len() && (#[trigger] s[i]).price == p;
                assert(i > 0);
                assert(t[i - 1].price == p);
                assert(has_level(t, p));
            }
        }
    } else {
        assert(prices_sorted(s.drop_first()));
        lemma_remove_level_prices(s.drop_first(), pr);
        let r = remove_level(s.drop_first(), pr);
        assert(t =~= seq![s[0]] + r);
        assert forall|k: int| 0 <= k < r.len() implies (#[trigger] r[k]).price > s[0].price by {
            assert(has_level(r, r[k].price));
            assert(has_level(s.drop_first(), r[k].price));
            let i = choose|i: int|
                0 <= i < s.drop_first().len() && (#[trigger] s.drop_first()[i]).price == r[k].price;
            assert(s.drop_first()[i] == s[i + 1]);
            assert(s[0].price < s[i + 1].price);
        }
        assert forall|i: int, j: int| 0 <= i < j < t.len() implies t[i].price < t[j].price by {
            if i == 0 {
                assert(t[j] == r[j - 1]);
            } else {
                assert(t[i] == r[i - 1] && t[j] == r[j - 1]);
            }
        }
        assert forall|p: int| has_level(t, p) <==> (has_level(s, p) && p != pr as int) by {
            if has_level(t, p) {
                let i = choose|i: int| 0 <= i < t.len() && (#[trigger] t[i]).price == p;
                if i == 0 {
                    assert(s[0].price == p);
                    assert(has_level(s, p));
                } else {
                    assert(r[i - 1].price == p);
                    assert(has_level(r, p));
                    assert(has_level(s.drop_first(), p));
                    let k = choose|k: int|
                        0 <= k < s.drop_first().len() && (#[trigger] s.drop_first()[k]).price == p;
                    assert(s[k + 1].price == p);
                    assert(has_level(s, p));
                }
            }
            if has_level(s, p) && p != pr as int {
                let i = choose|i: int| 0 <= i < s.len() && (#[trigger] s[i]).price == p;
                if i == 0 {
                    assert(t[0].price == p);
                    assert(has_level(t, p));
                } else {
                    assert(s.drop_first()[i - 1].price == p);
                    assert(has_level(s.drop_first(), p));
                    assert(has_level(r, p));
                    let k = choose|k: int| 0 <= k < r.len() && (#[trigger] r[k]).price == p;
                    assert(t[k + 1].price == p);
                    assert(has_level(t, p));
                }
            }
        }
    }
}

/// Once a price is absent, deltas that never name it keep it absent.
pub proof fn lemma_deltas_preserve_absence(
    s: Seq<LevelModel>,
    ds: Seq<(i64, i64)>,
    next: u64,
    ts: i64,
    p: i64,
)
    requires
        prices_sorted(s),
        !has_level(s, p as int),
        forall|j: int| 0 <= j < ds.len() ==> (#[trigger] ds[j]).0 != p,
    ensures
        !has_level(apply_deltas(s, ds, next, ts).0, p as int),
    decreases ds.len(),
{
    if ds.len() > 0 {
        let e = ds[0];
        let s1 = set_level(s, e.0, e.1, next, ts);
        lemma_remove_level_prices(s, e.0);
        if e.1 > 0 {
            lemma_add_order_prices(
                remove_level(s, e.0),
                Order { id: next, price: e.0, qty: e.1, ts },
            );
        }
        assert(!has_level(s1, p as int));
        assert(prices_sorted(s1));
        assert(forall|j: int|
            0 <= j < ds.drop_first().len() ==> (#[trigger] ds.drop_first()[j]).0 != p);
        if e.1 > 0 {
            lemma_deltas_preserve_absence(s1, ds.drop_first(), seq_next(next), ts, p);
        } else {
            lemma_deltas_preserve_absence(s1, ds.drop_first(), next, ts, p);
        }
    }
}

/// A depth delta with non-positive quantity removes its price level:
/// after applying the deltas, a price that was removed and that no
/// later delta names again is absent from the side. (A later delta
/// naming the same price with positive quantity would re-create the
/// level, so such inputs are excluded.)
pub proof fn lemma_delta_removes(
    s: Seq<LevelModel>,
    ds: Seq<(i64, i64)>,
    next: u64,
    ts: i64,
    i: int,
)
    requires
        prices_sorted(s),
        0 <= i < ds.len(),
        ds[i].1 <= 0,
        forall|j: int| i < j < ds.len() ==> (#[trigger] ds[j]).0 != ds[i].0,
    ensures
        !has_level(apply_deltas(s, ds, next, ts).0, ds[i].0 as int),
    decreases i,
{
    let e = ds[0];
    let s1 = set_level(s, e.0, e.1, next, ts);
    lemma_remove_level_prices(s, e.0);
    if e.1 > 0 {
        lemma_add_order_prices(remove_level(s, e.0), Order { id: next, price: e.0, qty: e.1, ts });
    }
    assert(prices_sorted(s1));
    let n1 = if e.1 > 0 {
        seq_next(next)
    } else {
        next
    };
    if i == 0 {
        assert(e.1 <= 0);
        assert(s1 == remove_level(s, e.0));
        assert(!has_level(remove_level(s, e.0), e.0 as int));
        assert(!has_level(s1, e.0 as int));
        assert(forall|j: int|
            0 <= j < ds.drop_first().len() ==> (#[trigger] ds.drop_first()[j]).0 != e.0);
        lemma_deltas_preserve_absence(s1, ds.drop_first(), n1, ts, e.0);
    } else {
        assert(ds.drop_first()[i - 1] == ds[i]);
        assert(forall|j: int|
            i - 1 < j < ds.drop_first().len() ==> (#[trigger] ds.drop_first()[j]).0 != ds[i].0);
        lemma_delta_removes(s1, ds.drop_first(), n1, ts, i - 1);
    }
}

/// A book state with the internally generated order ids erased: per
/// level, the price and each resting order's (quantity, timestamp)
/// in queue order.
pub open spec fn side_profile(s: Seq<LevelModel>) -> Seq<(int, Seq<(i64, i64)>)> {
    Seq::new(s.len(), |i: int| (s[i].price, Seq::new(s[i].orders.len(), |k: int| (s[i].orders[k].qty, s[i].orders[k].ts))))
}

/// Equal levels contribute equal profile entries, wherever they sit.
proof fn lemma_profile_entry_eq(t: Seq<LevelModel>, i: int, u: Seq<LevelModel>, j: int)
    requires
        0 <= i < t.len(),
        0 <= j < u.len(),
        t[i] == u[j],
    ensures
        side_profile(t)[i] == side_profile(u)[j],
{
    assert(side_profile(t)[i].1.len() == side_profile(u)[j].1.len());
    assert forall|k: int| 0 <= k < side_profile(t)[i].1.len() implies side_profile(t)[i].1[k]
        == side_profile(u)[j].1[k] by {
        assert(t[i].orders == u[j].orders);
    }
    assert(side_profile(t)[i].1 =~= side_profile(u)[j].1);
    assert(side_profile(t)[i] =~~= side_profile(u)[j]);
}

/// Resting orders that agree on price, quantity and timestamp move
/// profile-equal sides to profile-equal sides, whatever their ids.
pub proof fn lemma_add_order_profile(s1: Seq<LevelModel>, s2: Seq<LevelModel>, o1: Order, o2: Order)
    requires
        side_profile(s1) == side_profile(s2),
        o1.price == o2.price,
        o1.qty == o2.qty,
        o1.ts == o2.ts,
    ensures
        side_profile(add_order(s1, o1)) == side_profile(add_order(s2, o2)),
    decreases s1.len(),
{
    let t1 = add_order(s1, o1);
    let t2 = add_order(s2, o2);
    assert(side_profile(s1).len() == s1.len());
    assert(side_profile(s2).len() == s2.len());
    assert(side_profile(t1).len() == t1.len());
    assert(side_profile(t2).len() == t2.len());
    assert(s1.len() == s2.len());
    if s1.len() == 0 {
        assert(side_profile(t1)[0].1 =~= side_profile(t2)[0].1) by {
            assert(side_profile(t1)[0].1.len() == 1);
            assert(side_profile(t2)[0].1.len() == 1);
            assert(side_profile(t1)[0].1[0] == (o1.qty, o1.ts));
            assert(side_profile(t2)[0].1[0] == (o2.qty, o2.ts));
        }
        assert(side_profile(t1)[0] =~~= side_profile(t2)[0]);
        assert(side_profile(t1) =~= side_profile(t2));
    } else {
        assert(side_profile(s1)[0] == side_profile(s2)[0]);
        assert(s1[0].price == s2[0].price);
        assert(side_profile(s1.drop_first()) =~= side_profile(s2.drop_first())) by {
            assert forall|i: int| 0 <= i < s1.drop_first().len() implies side_profile(
                s1.drop_first(),
            )[i] == side_profile(s2.drop_first())[i] by {
                lemma_profile_entry_eq(s1.drop_first(), i, s1, i + 1);
                lemma_profile_entry_eq(s2.drop_first(), i, s2, i + 1);
                assert(side_profile(s1)[i + 1] == side_profile(s2)[i + 1]);
            }
        }
        if s1[0].price < o1.price as int {
            lemma_add_order_profile(s1.drop_first(), s2.drop_first(), o1, o2);
            let a1 = add_order(s1.drop_first(), o1);
            let a2 = add_order(s2.drop_first(), o2);
            assert(side_profile(a1).len() == a1.len());
            assert(side_profile(a2).len() == a2.len());
            assert(t1 =~= seq![s1[0]] + a1);
            assert(t2 =~= seq![s2[0]] + a2);
            assert forall|i: int| 0 <= i < side_profile(t1).len() implies side_profile(t1)[i]
                == side_profile(t2)[i] by {
                if i == 0 {
                    lemma_profile_entry_eq(t1, 0, s1, 0);
                    lemma_profile_entry_eq(t2, 0, s2, 0);
                    assert(side_profile(s1)[0] == side_profile(s2)[0]);
                } else {
                    lemma_profile_entry_eq(t1, i, a1, i - 1);
                    lemma_profile_entry_eq(t2, i, a2, i - 1);
                    assert(side_profile(a1)[i - 1] == side_profile(a2)[i - 1]);
                }
            }
            assert(side_profile(t1) =~= side_profile(t2));
        } else if s1[0].price == o1.price as int {
            assert forall|i: int| 0 <= i < side_profile(t1).len() implies side_profile(t1)[i]
                == side_profile(t2)[i] by {
                if i == 0 {
                    assert(t1[0].orders == s1[0].orders.push(o1));
                    assert(t2[0].orders == s2[0].orders.push(o2));
                    assert(side_profile(s1)[0].1.len() == s1[0].orders.len());
                    assert(side_profile(t1)[0].1 =~= side_profile(t2)[0].1) by {
                        assert forall|k: int| 0 <= k < side_profile(t1)[0].1.len() implies
                            side_profile(t1)[0].1[k] == side_profile(t2)[0].1[k] by {
                            if k < s1[0].orders.len() {
                                assert(t1[0].orders[k] == s1[0].orders[k]);
                                assert(t2[0].orders[k] == s2[0].orders[k]);
                                assert(side_profile(s1)[0].1[k] == side_profile(s2)[0].1[k]);
                            } else {
                                assert(t1[0].orders[k] == o1);
                                assert(t2[0].orders[k] == o2);
                            }
                        }
                    }
                    assert(side_profile(t1)[0] =~~= side_profile(t2)[0]);
                } else {
                    lemma_profile_entry_eq(t1, i, s1, i);
                    lemma_profile_entry_eq(t2, i, s2, i);
                    assert(side_profile(s1)[i] == side_profile(s2)[i]);
                }
            }
            assert(side_profile(t1) =~= side_profile(t2));
        } else {
            assert(t1 =~= seq![LevelModel { price: o1.price as int, orders: seq![o1] }] + s1);
            assert(t2 =~= seq![LevelModel { price: o2.price as int, orders: seq![o2] }] + s2);
            assert forall|i: int| 0 <= i < side_profile(t1).len() implies side_profile(t1)[i]
                == side_profile(t2)[i] by {
                if i == 0 {
                    assert(side_profile(t1)[0].1 =~= side_profile(t2)[0].1) by {
                        assert(side_profile(t1)[0].1.len() == 1);
                        assert(side_profile(t2)[0].1.len() == 1);
                        assert(side_profile(t1)[0].1[0] == (o1.qty, o1.ts));
                        assert(side_profile(t2)[0].1[0] == (o2.qty, o2.ts));
                    }
                    assert(side_profile(t1)[0] =~~= side_profile(t2)[0]);
                } else {
                    lemma_profile_entry_eq(t1, i, s1, i - 1);
                    lemma_profile_entry_eq(t2, i, s2, i - 1);
                    assert(side_profile(s1)[i - 1] == side_profile(s2)[i - 1]);
                }
            }
            assert(side_profile(t1) =~= side_profile(t2));
        }
    }
}

/// Building a side from the same entries gives the same profile
/// whatever the id counter started at: snapshot application is
/// idempotent up to internally generated ids.
pub proof fn lemma_build_profile(
    acc1: Seq<LevelModel>,
    acc2: Seq<LevelModel>,
    entries: Seq<(i64, i64)>,
    n1: u64,
    n2: u64,
    ts: i64,
)
    requires
        side_profile(acc1) == side_profile(acc2),
    ensures
        side_profile(build_side_from(acc1, entries, n1, ts).0) == side_profile(
            build_side_from(acc2, entries, n2, ts).0,
        ),
    decreases entries.len(),
{
    if entries.len() > 0 {
        let pq = entries[0];
        if pq.1 > 0 {
            let o1 = Order { id: n1, price: pq.0, qty: pq.1, ts };
            let o2 = Order { id: n2, price: pq.0, qty: pq.1, ts };
            lemma_add_order_profile(acc1, acc2, o1, o2);
            lemma_build_profile(
                add_order(acc1, o1),
                add_order(acc2, o2),
                entries.drop_first(),
                seq_next(n1),
                seq_next(n2),
                ts,
            );
        } else {
            lemma_build_profile(acc1, acc2, entries.drop_first(), n1, n2, ts);
        }
    }
}

/// Applying one and the same snapshot input always yields the same
/// book state apart from the internally generated order ids,
/// whatever the id counters stood at: applying an identical snapshot
/// twice leaves an identical book up to ids.
pub proof fn lemma_snapshot_idempotent(
    bids: Seq<(i64, i64)>,
    asks: Seq<(i64, i64)>,
    ts: i64,
    n1: u64,
    n2: u64,
)
    ensures
        ({
            let b1 = build_side_from(Seq::empty(), bids, n1, ts);
            let a1 = build_side_from(Seq::empty(), asks, b1.1, ts);
            let b2 = build_side_from(Seq::empty(), bids, n2, ts);
            let a2 = build_side_from(Seq::empty(), asks, b2.1, ts);
            &&& side_profile(b1.0) == side_profile(b2.0)
            &&& side_profile(a1.0) == side_profile(a2.0)
        }),
{
    let b1 = build_side_from(Seq::empty(), bids, n1, ts);
    let b2 = build_side_from(Seq::empty(), bids, n2, ts);
    lemma_build_profile(Seq::empty(), Seq::empty(), bids, n1, n2, ts);
    lemma_build_profile(Seq::empty(), Seq::empty(), asks, b1.1, b2.1, ts);
}

/// Errors rejecting malformed book input, per the hardening rule
/// that bad snapshot or delta data must not corrupt the book.
#[derive(Clone, Copy, Debug, PartialEq, Eq, Structural)]
pub enum BookError {
    /// A level carried a negative price.
    NegativePrice,
    /// A snapshot level carried a negative quantity.
    NegativeQty,
    /// Accepting the input would push total resting quantity past
    /// what the machine representation can hold.
    DepthOverflow,
}

/// Some entry carries a negative price.
pub open spec fn has_neg_price(entries: Seq<(i64, i64)>) -> bool {
    exists|i: int| 0 <= i < entries.len() && (#[trigger] entries[i]).0 < 0
}

/// Some entry carries a negative quantity.
pub open spec fn has_neg_qty(entries: Seq<(i64, i64)>) -> bool {
    exists|i: int| 0 <= i < entries.len() && (#[trigger] entries[i]).1 < 0
}

/// Sum of the positive quantities among the entries: an upper bound
/// on how much resting quantity the entries can add to a side.
pub open spec fn pos_qty_sum(entries: Seq<(i64, i64)>) -> int
    decreases entries.len(),
{
    if entries.len() == 0 {
        0
    } else {
        (if entries[0].1 > 0 {
            entries[0].1 as int
        } else {
            0
        }) + pos_qty_sum(entries.drop_first())
    }
}

/// The next order id after one draw: the sequence saturates at the
/// top of its range rather than wrap.
pub open spec fn seq_next(next: u64) -> u64 {
    if next < u64::MAX {
        (next + 1) as u64
    } else {
        next
    }
}

/// Build a side by resting the entries in order onto `acc`, drawing
/// one fresh id per entry with positive quantity and skipping the
/// rest: the functional specification of snapshot building. Returns
/// the side and the id counter after the build.
pub open spec fn build_side_from(
    acc: Seq<LevelModel>,
    entries: Seq<(i64, i64)>,
    next: u64,
    ts: i64,
) -> (Seq<LevelModel>, u64)
    decreases entries.len(),
{
    if entries.len() == 0 {
        (acc, next)
    } else {
        let pq = entries[0];
        if pq.1 > 0 {
            build_side_from(
                add_order(acc, Order { id: next, price: pq.0, qty: pq.1, ts }),
                entries.drop_first(),
                seq_next(next),
                ts,
            )
        } else {
            build_side_from(acc, entries.drop_first(), next, ts)
        }
    }
}

/// Remove the level at `price`, if any.
pub open spec fn remove_level(s: Seq<LevelModel>, price: i64) -> Seq<LevelModel>
    decreases s.len(),
{
    if s.len() == 0 {
        s
    } else if s[0].price == price as int {
        s.drop_first()
    } else {
        seq![s[0]] + remove_level(s.drop_first(), price)
    }
}

/// One depth delta: a non-positive quantity removes the whole level,
/// a positive one replaces the level with a single fresh order of
/// that absolute size.
pub open spec fn set_level(s: Seq<LevelModel>, price: i64, qty: i64, id: u64, ts: i64) -> Seq<
    LevelModel,
> {
    if qty <= 0 {
        remove_level(s, price)
    } else {
        add_order(remove_level(s, price), Order { id, price, qty, ts })
    }
}

/// Apply depth deltas left to right, drawing one fresh id per upsert:
/// the functional specification of `apply_delta` on one side.
pub open spec fn apply_deltas(
    s: Seq<LevelModel>,
    ds: Seq<(i64, i64)>,
    next: u64,
    ts: i64,
) -> (Seq<LevelModel>, u64)
    decreases ds.len(),
{
    if ds.len() == 0 {
        (s, next)
    } else {
        let pq = ds[0];
        if pq.1 > 0 {
            apply_deltas(set_level(s, pq.0, pq.1, next, ts), ds.drop_first(), seq_next(next), ts)
        } else {
            apply_deltas(set_level(s, pq.0, pq.1, next, ts), ds.drop_first(), next, ts)
        }
    }
}

pub proof fn lemma_pos_qty_concat(a: Seq<(i64, i64)>, b: Seq<(i64, i64)>)
    ensures
        pos_qty_sum(a + b) == pos_qty_sum(a) + pos_qty_sum(b),
    decreases a.len(),
{
    if a.len() == 0 {
        assert(a + b =~= b);
    } else {
        assert((a + b).drop_first() =~= a.drop_first() + b);
        lemma_pos_qty_concat(a.drop_first(), b);
    }
}

pub proof fn lemma_pos_qty_nonneg(e: Seq<(i64, i64)>)
    ensures
        0 <= pos_qty_sum(e),
    decreases e.len(),
{
    if e.len() > 0 {
        lemma_pos_qty_nonneg(e.drop_first());
    }
}

/// Unfold the positive-quantity sum of a suffix by one entry.
pub proof fn lemma_pos_qty_skip_step(e: Seq<(i64, i64)>, i: int)
    requires
        0 <= i < e.len(),
    ensures
        pos_qty_sum(e.skip(i)) == (if e[i].1 > 0 {
            e[i].1 as int
        } else {
            0
        }) + pos_qty_sum(e.skip(i + 1)),
{
    assert(e.skip(i).len() > 0);
    assert(e.skip(i)[0] == e[i]);
    assert(e.skip(i).drop_first() =~= e.skip(i + 1));
}

/// Whether no entry has a negative price.
fn prices_ok(entries: &Vec<(i64, i64)>) -> (r: bool)
    ensures
        r == !has_neg_price(entries@),
{
    let n = entries.len();
    let mut i: usize = 0;
    while i < n
        invariant
            0 <= i <= n,
            n == entries@.len(),
            forall|j: int| 0 <= j < i ==> (#[trigger] entries@[j]).0 >= 0,
        decreases n - i,
    {
        if entries[i].0 < 0 {
            proof {
                assert(has_neg_price(entries@));
            }
            return false;
        }
        i += 1;
    }
    true
}

/// Whether no entry has a negative quantity.
fn qtys_ok(entries: &Vec<(i64, i64)>) -> (r: bool)
    ensures
        r == !has_neg_qty(entries@),
{
    let n = entries.len();
    let mut i: usize = 0;
    while i < n
        invariant
            0 <= i <= n,
            n == entries@.len(),
            forall|j: int| 0 <= j < i ==> (#[trigger] entries@[j]).1 >= 0,
        decreases n - i,
    {
        if entries[i].1 < 0 {
            proof {
                assert(has_neg_qty(entries@));
            }
            return false;
        }
        i += 1;
    }
    true
}

/// Sum of the positive quantities among the entries.
fn pos_sum(entries: &Vec<(i64, i64)>) -> (r: i128)
    ensures
        r as int == pos_qty_sum(entries@),
        0 <= r as int <= (entries@.len() as int) * (i64::MAX as int),
{
    let n = entries.len();
    let mut acc: i128 = 0;
    let mut i: usize = 0;
    proof {
        assert(entries@.take(0) =~= Seq::<(i64, i64)>::empty());
    }
    while i < n
        invariant
            0 <= i <= n,
            n == entries@.len(),
            acc as int == pos_qty_sum(entries@.take(i as int)),
            0 <= acc as int <= (i as int) * (i64::MAX as int),
        decreases n - i,
    {
        proof {
            assert(entries@.take(i as int + 1) =~= entries@.take(i as int) + seq![entries@[i as int]]);
            lemma_pos_qty_concat(entries@.take(i as int), seq![entries@[i as int]]);
            assert(seq![entries@[i as int]].drop_first() =~= Seq::<(i64, i64)>::empty());
            assert(pos_qty_sum(Seq::<(i64, i64)>::empty()) == 0);
            assert(pos_qty_sum(seq![entries@[i as int]]) == (if entries@[i as int].1 > 0 {
                entries@[i as int].1 as int
            } else {
                0
            }) + pos_qty_sum(seq![entries@[i as int]].drop_first()));
            assert((i as int + 1) * (i64::MAX as int) == (i as int) * (i64::MAX as int) + (
            i64::MAX as int)) by (nonlinear_arith);
            assert((i as int) * (i64::MAX as int) <= (usize::MAX as int) * (i64::MAX as int))
                by (nonlinear_arith)
                requires
                    0 <= i as int <= usize::MAX as int,
            ;
        }
        let q = entries[i].1;
        if q > 0 {
            acc = acc + (q as i128);
        }
        proof {
            assert((i as int + 1) * (i64::MAX as int) <= (usize::MAX as int) * (i64::MAX as int))
                by (nonlinear_arith)
                requires
                    0 <= i as int + 1 <= usize::MAX as int,
            ;
        }
        i += 1;
    }
    proof {
        assert(entries@.take(n as int) =~= entries@);
    }
    acc
}

/// `remove_level` takes out the level at the position `find_pos`
/// reports, or leaves the side alone when the price is absent.
proof fn lemma_remove_level_at(s: Seq<LevelModel>, price: i64, i: int)
    requires
        0 <= i <= s.len(),
        forall|a: int, b: int| 0 <= a < b < s.len() ==> s[a].price < s[b].price,
        forall|j: int| 0 <= j < i ==> (#[trigger] s[j]).price < price as int,
        i < s.len() ==> s[i].price >= price as int,
    ensures
        remove_level(s, price) == if i < s.len() && s[i].price == price as int {
            s.remove(i)
        } else {
            s
        },
    decreases i,
{
    if i == 0 {
        if s.len() == 0 {
        } else if s[0].price == price as int {
            assert(remove_level(s, price) =~= s.remove(0));
        } else {
            assert forall|j: int| 0 <= j < s.drop_first().len() implies (#[trigger] s.drop_first()[j]).price != price as int by {
                assert(s.drop_first()[j] == s[j + 1]);
                assert(s[0].price < s[j + 1].price);
            }
            lemma_remove_level_no_hit(s.drop_first(), price);
            assert(seq![s[0]] + remove_level(s.drop_first(), price) =~= s);
        }
    } else {
        assert(s[0].price < price as int);
        lemma_remove_level_at(s.drop_first(), price, i - 1);
        if i < s.len() && s[i].price == price as int {
            assert(s.drop_first()[i - 1] == s[i]);
            assert(seq![s[0]] + s.drop_first().remove(i - 1) =~= s.remove(i));
        } else {
            assert(seq![s[0]] + s.drop_first() =~= s);
        }
    }
}

/// Removing an absent price is the identity.
proof fn lemma_remove_level_no_hit(s: Seq<LevelModel>, price: i64)
    requires
        forall|j: int| 0 <= j < s.len() ==> (#[trigger] s[j]).price != price as int,
    ensures
        remove_level(s, price) == s,
    decreases s.len(),
{
    if s.len() > 0 {
        assert(s[0].price != price as int);
        lemma_remove_level_no_hit(s.drop_first(), price);
        assert(seq![s[0]] + s.drop_first() =~= s);
    }
}

impl OrderBookSide {
    /// Remove the whole level at `price`, if present.
    pub fn remove_price(&mut self, price: i64)
        requires
            side_wf(old(self)@),
        ensures
            final(self)@ == remove_level(old(self)@, price),
            side_wf(final(self)@),
            final(self).is_bid == old(self).is_bid,
            side_depth(final(self)@) == side_depth(old(self)@) - qty_at(old(self)@, price as int),
    {
        let ghost s0 = self@;
        let (pos, found) = self.find_pos(price);
        proof {
            lemma_remove_level_at(s0, price, pos as int);
        }
        if found {
            self.levels.remove(pos);
            proof {
                lemma_level_lookup(s0, pos as int);
                assert(self@ =~~= s0.remove(pos as int));
                lemma_side_depth_split(s0, pos as int);
                lemma_side_depth_concat(s0.take(pos as int), s0.skip(pos as int + 1));
                assert(self@ =~= s0.take(pos as int) + s0.skip(pos as int + 1));
                assert forall|i: int, k: int|
                    0 <= i < self@.len() && 0 <= k < self@[i].orders.len() implies {
                        &&& (#[trigger] self@[i].orders[k]).qty > 0
                        &&& self@[i].orders[k].price == self@[i].price
                    } by {
                    let i0 = if i < pos as int {
                        i
                    } else {
                        i + 1
                    };
                    assert(s0[i0].orders[k].qty > 0);
                }
                lemma_queue_qty_nonneg(s0[pos as int].orders);
            }
        } else {
            proof {
                if has_level(s0, price as int) {
                    let j = choose|j: int|
                        0 <= j < s0.len() && (#[trigger] s0[j]).price == price as int;
                }
            }
        }
    }
}

/// With positive queues everywhere, no price rests a negative amount.
pub proof fn lemma_qty_at_nonneg(s: Seq<LevelModel>, price: int)
    requires
        levels_positive(s),
    ensures
        qty_at(s, price) >= 0,
{
    if has_level(s, price) {
        let i = choose|i: int| 0 <= i < s.len() && (#[trigger] s[i]).price == price;
        lemma_queue_qty_nonneg(s[i].orders);
    }
}

impl OrderBookSide {
    /// Rest the entries in order, drawing one fresh id per entry with
    /// positive quantity and skipping the rest; returns the id
    /// counter after the build.
    fn rest_entries(&mut self, entries: &Vec<(i64, i64)>, nid0: u64, ts: i64) -> (r: u64)
        requires
            side_wf(old(self)@),
            !has_neg_price(entries@),
            !has_neg_qty(entries@),
            side_depth(old(self)@) + pos_qty_sum(entries@) <= i64::MAX,
        ensures
            side_wf(final(self)@),
            final(self).is_bid == old(self).is_bid,
            final(self)@ == build_side_from(old(self)@, entries@, nid0, ts).0,
            r == build_side_from(old(self)@, entries@, nid0, ts).1,
    {
        let ghost s0 = self@;
        let ghost goal = build_side_from(s0, entries@, nid0, ts);
        let n = entries.len();
        let mut i: usize = 0;
        let mut nid = nid0;
        proof {
            assert(entries@.skip(0) =~= entries@);
        }
        while i < n
            invariant
                0 <= i <= n,
                n == entries@.len(),
                side_wf(self@),
                self.is_bid == old(self).is_bid,
                !has_neg_price(entries@),
                !has_neg_qty(entries@),
                goal == build_side_from(self@, entries@.skip(i as int), nid, ts),
                side_depth(self@) + pos_qty_sum(entries@.skip(i as int)) <= i64::MAX,
            decreases n - i,
        {
            let ghost cur = self@;
            let e = entries[i];
            proof {
                lemma_pos_qty_skip_step(entries@, i as int);
                lemma_pos_qty_nonneg(entries@.skip(i as int + 1));
                assert(entries@.skip(i as int)[0] == entries@[i as int]);
                assert(entries@.skip(i as int).drop_first() =~= entries@.skip(i as int + 1));
                if e.0 < 0 {
                    assert(has_neg_price(entries@));
                }
                if e.1 < 0 {
                    assert(has_neg_qty(entries@));
                }
            }
            if e.1 > 0 {
                let id = nid;
                if nid < u64::MAX {
                    nid = nid + 1;
                }
                self.add_limit(id, e.0, e.1, ts);
            }
            i += 1;
        }
        proof {
            assert(entries@.skip(n as int) =~= Seq::<(i64, i64)>::empty());
        }
        nid
    }

    /// Apply depth deltas in order: each non-positive quantity removes
    /// its price level, each positive one replaces the level with one
    /// fresh order of that size; returns the id counter afterwards.
    fn apply_depth_deltas(&mut self, ds: &Vec<(i64, i64)>, nid0: u64, ts: i64) -> (r: u64)
        requires
            side_wf(old(self)@),
            !has_neg_price(ds@),
            side_depth(old(self)@) + pos_qty_sum(ds@) <= i64::MAX,
        ensures
            side_wf(final(self)@),
            final(self).is_bid == old(self).is_bid,
            final(self)@ == apply_deltas(old(self)@, ds@, nid0, ts).0,
            r == apply_deltas(old(self)@, ds@, nid0, ts).1,
    {
        let ghost s0 = self@;
        let ghost goal = apply_deltas(s0, ds@, nid0, ts);
        let n = ds.len();
        let mut i: usize = 0;
        let mut nid = nid0;
        proof {
            assert(ds@.skip(0) =~= ds@);
        }
        while i < n
            invariant
                0 <= i <= n,
                n == ds@.len(),
                side_wf(self@),
                self.is_bid == old(self).is_bid,
                !has_neg_price(ds@),
                goal == apply_deltas(self@, ds@.skip(i as int), nid, ts),
                side_depth(self@) + pos_qty_sum(ds@.skip(i as int)) <= i64::MAX,
            decreases n - i,
        {
            let ghost cur = self@;
            let e = ds[i];
            proof {
                lemma_pos_qty_skip_step(ds@, i as int);
                lemma_pos_qty_nonneg(ds@.skip(i as int + 1));
                assert(ds@.skip(i as int)[0] == ds@[i as int]);
                assert(ds@.skip(i as int).drop_first() =~= ds@.skip(i as int + 1));
                if e.0 < 0 {
                    assert(has_neg_price(ds@));
                }
                lemma_qty_at_nonneg(cur, e.0 as int);
            }
            self.remove_price(e.0);
            if e.1 > 0 {
                let id = nid;
                if nid < u64::MAX {
                    nid = nid + 1;
                }
                self.add_limit(id, e.0, e.1, ts);
            }
            i += 1;
        }
        proof {
            assert(ds@.skip(n as int) =~= Seq::<(i64, i64)>::empty());
        }
        nid
    }
}

/// Verdict of snapshot validation: which error a snapshot input is
/// rejected with, if any.
pub open spec fn snapshot_verdict(bids: Seq<(i64, i64)>, asks: Seq<(i64, i64)>) -> Result<
    (),
    BookError,
> {
    if has_neg_price(bids) || has_neg_price(asks) {
        Err(BookError::NegativePrice)
    } else if has_neg_qty(bids) || has_neg_qty(asks) {
        Err(BookError::NegativeQty)
    } else if pos_qty_sum(bids) + pos_qty_sum(asks) > i64::MAX {
        Err(BookError::DepthOverflow)
    } else {
        Ok(())
    }
}

/// Mathematical model of a whole book.
#[verifier::ext_equal]
pub struct BookModel {
    pub bids: Seq<LevelModel>,
    pub asks: Seq<LevelModel>,
    pub bids_is_bid: bool,
    pub asks_is_bid: bool,
    pub ts: i64,
    pub seq: u64,
}

/// A well-formed book: two well-formed sides with the right
/// orientation flags.
pub open spec fn book_wf(m: BookModel) -> bool {
    &&& side_wf(m.bids)
    &&& side_wf(m.asks)
    &&& m.bids_is_bid
    &&& !m.asks_is_bid
}

/// Verdict of delta validation against the current book: which error
/// a delta input is rejected with, if any.
pub open spec fn delta_verdict(m: BookModel, bid_d: Seq<(i64, i64)>, ask_d: Seq<(i64, i64)>) -> Result<
    (),
    BookError,
> {
    if has_neg_price(bid_d) || has_neg_price(ask_d) {
        Err(BookError::NegativePrice)
    } else if side_depth(m.bids) + pos_qty_sum(bid_d) > i64::MAX || side_depth(m.asks)
        + pos_qty_sum(ask_d) > i64::MAX {
        Err(BookError::DepthOverflow)
    } else {
        Ok(())
    }
}

/// One symbol's order book: a bid side, an ask side, the timestamp of
/// the last accepted update, and a monotonically increasing id
/// sequence for resting orders.
#[derive(Clone, Debug)]
pub struct OrderBook {
    pub bids: OrderBookSide,
    pub asks: OrderBookSide,
    pub ts: i64,
    pub next_order_id: u64,
}

impl View for OrderBook {
    type V = BookModel;

    open spec fn view(&self) -> BookModel {
        BookModel {
            bids: self.bids@,
            asks: self.asks@,
            bids_is_bid: self.bids.is_bid,
            asks_is_bid: self.asks.is_bid,
            ts: self.ts,
            seq: self.next_order_id,
        }
    }
}

impl OrderBook {
    /// An empty book; ids start at 1.
    pub fn new() -> (r: OrderBook)
        ensures
            book_wf(r@),
            r@.bids =~= Seq::<LevelModel>::empty(),
            r@.asks =~= Seq::<LevelModel>::empty(),
            r@.ts == 0,
            r@.seq == 1,
    {
        OrderBook {
            bids: OrderBookSide::new(true),
            asks: OrderBookSide::new(false),
            ts: 0,
            next_order_id: 1,
        }
    }

    /// Draw the next order id; the counter saturates at the top of
    /// its range instead of wrapping to reuse low ids.
    pub(crate) fn next_id(&mut self) -> (r: u64)
        ensures
            r == old(self).next_order_id,
            final(self).next_order_id == seq_next(old(self).next_order_id),
            final(self).bids == old(self).bids,
            final(self).asks == old(self).asks,
            final(self).ts == old(self).ts,
    {
        let id = self.next_order_id;
        if self.next_order_id < u64::MAX {
            self.next_order_id = self.next_order_id + 1;
        }
        id
    }

    /// Highest bid price, if any bid level rests.
    pub fn best_bid(&self) -> (r: Option<i64>)
        requires
            book_wf(self@),
        ensures
            (r is Some) == (self@.bids.len() > 0),
            r matches Some(p) ==> p as int == self@.bids.last().price,
    {
        self.bids.best_price()
    }

    /// Lowest ask price, if any ask level rests.
    pub fn best_ask(&self) -> (r: Option<i64>)
        requires
            book_wf(self@),
        ensures
            (r is Some) == (self@.asks.len() > 0),
            r matches Some(p) ==> p as int == self@.asks[0].price,
    {
        self.asks.best_price()
    }

    /// Midpoint of best bid and best ask, rounded toward zero; absent
    /// unless both sides are non-empty.
    pub fn mid(&self) -> (r: Option<i64>)
        requires
            book_wf(self@),
        ensures
            (r is Some) == (self@.bids.len() > 0 && self@.asks.len() > 0),
            r matches Some(m) ==> m as int == (self@.bids.last().price + self@.asks[0].price) / 2,
    {
        match (self.bids.best_price(), self.asks.best_price()) {
            (Some(b), Some(a)) => Some((((b as i128) + (a as i128)) / 2) as i64),
            _ => None,
        }
    }

    /// Replace the whole book with the given level lists: both sides
    /// are cleared and rebuilt in order, fresh ids drawn per accepted
    /// entry, entries with zero quantity skipped. Malformed input
    /// (any negative price or quantity, or more total quantity than
    /// the representation can hold) is rejected and the book is left
    /// untouched.
    pub fn apply_snapshot(&mut self, bids: &Vec<(i64, i64)>, asks: &Vec<(i64, i64)>, ts: i64) -> (r:
        Result<(), BookError>)
        requires
            book_wf(old(self)@),
        ensures
            book_wf(final(self)@),
            r == snapshot_verdict(bids@, asks@),
            r is Err ==> *final(self) == *old(self),
            r is Ok ==> ({
                let b1 = build_side_from(Seq::empty(), bids@, old(self)@.seq, ts);
                let a1 = build_side_from(Seq::empty(), asks@, b1.1, ts);
                &&& final(self)@.bids == b1.0
                &&& final(self)@.asks == a1.0
                &&& final(self)@.seq == a1.1
                &&& final(self)@.ts == ts
            }),
    {
        if !(prices_ok(bids) && prices_ok(asks)) {
            return Err(BookError::NegativePrice);
        }
        if !(qtys_ok(bids) && qtys_ok(asks)) {
            return Err(BookError::NegativeQty);
        }
        let sb = pos_sum(bids);
        let sa = pos_sum(asks);
        proof {
            lemma_pos_qty_nonneg(bids@);
            lemma_pos_qty_nonneg(asks@);
        }
        if sb > i64::MAX as i128 || sa > i64::MAX as i128 || sb + sa > i64::MAX as i128 {
            return Err(BookError::DepthOverflow);
        }
        self.bids.levels = Vec::new();
        self.asks.levels = Vec::new();
        proof {
            assert(self.bids@ =~= Seq::<LevelModel>::empty());
            assert(self.asks@ =~= Seq::<LevelModel>::empty());
            assert(side_depth(Seq::<LevelModel>::empty()) == 0);
        }
        let n1 = self.bids.rest_entries(bids, self.next_order_id, ts);
        let n2 = self.asks.rest_entries(asks, n1, ts);
        self.next_order_id = n2;
        self.ts = ts;
        Ok(())
    }

    /// Apply depth deltas to both sides in order: a quantity of zero
    /// or less removes the price level outright, a positive one
    /// replaces the level's resting quantity. A negative price, or
    /// more added quantity than the representation can hold, is
    /// rejected and the book is left untouched.
    pub fn apply_delta(&mut self, bid_d: &Vec<(i64, i64)>, ask_d: &Vec<(i64, i64)>, ts: i64) -> (r:
        Result<(), BookError>)
        requires
            book_wf(old(self)@),
        ensures
            book_wf(final(self)@),
            r == delta_verdict(old(self)@, bid_d@, ask_d@),
            r is Err ==> *final(self) == *old(self),
            r is Ok ==> ({
                let b1 = apply_deltas(old(self)@.bids, bid_d@, old(self)@.seq, ts);
                let a1 = apply_deltas(old(self)@.asks, ask_d@, b1.1, ts);
                &&& final(self)@.bids == b1.0
                &&& final(self)@.asks == a1.0
                &&& final(self)@.seq == a1.1
                &&& final(self)@.ts == ts
            }),
    {
        if !(prices_ok(bid_d) && prices_ok(ask_d)) {
            return Err(BookError::NegativePrice);
        }
        let db = self.bids.total_qty();
        let da = self.asks.total_qty();
        let nb = bid_d.len();
        let na = ask_d.len();
        let sb = pos_sum(bid_d);
        let sa = pos_sum(ask_d);
        proof {
            assert(bid_d@.len() == nb as int && ask_d@.len() == na as int);
            lemma_pos_qty_nonneg(bid_d@);
            lemma_pos_qty_nonneg(ask_d@);
            assert(levels_positive(self.bids@));
            assert(levels_positive(self.asks@));
            lemma_side_depth_nonneg(self.bids@);
            lemma_side_depth_nonneg(self.asks@);
            assert(sb as int <= (bid_d@.len() as int) * (i64::MAX as int));
            assert(sa as int <= (ask_d@.len() as int) * (i64::MAX as int));
            assert((bid_d@.len() as int) * (i64::MAX as int) <= (usize::MAX as int) * (
            i64::MAX as int)) by (nonlinear_arith)
                requires
                    0 <= bid_d@.len() <= usize::MAX as int,
            ;
            assert((ask_d@.len() as int) * (i64::MAX as int) <= (usize::MAX as int) * (
            i64::MAX as int)) by (nonlinear_arith)
                requires
                    0 <= ask_d@.len() <= usize::MAX as int,
            ;
        }
        if (db as i128) + sb > i64::MAX as i128 || (da as i128) + sa > i64::MAX as i128 {
            return Err(BookError::DepthOverflow);
        }
        let n1 = self.bids.apply_depth_deltas(bid_d, self.next_order_id, ts);
        let n2 = self.asks.apply_depth_deltas(ask_d, n1, ts);
        self.next_order_id = n2;
        self.ts = ts;
        Ok(())
    }

    /// Best ask minus best bid; absent unless both sides are
    /// non-empty. Negative exactly when the book is crossed.
    pub fn spread(&self) -> (r: Option<i64>)
        requires
            book_wf(self@),
        ensures
            (r is Some) == (self@.bids.len() > 0 && self@.asks.len() > 0),
            r matches Some(d) ==> d as int == self@.asks[0].price - self@.bids.last().price,
    {
        match (self.bids.best_price(), self.asks.best_price()) {
            (Some(b), Some(a)) => Some(a - b),
            _ => None,
        }
    }
}

} // verus!
