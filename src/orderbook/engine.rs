use super::arena::OrderArena;
use super::types::{OrderEntry, OrderId, Price, PricePoint, Quantity, Side, Trade, TraderId};
use std::collections::HashMap;
use vstd::prelude::*;

verus! {

broadcast use vstd::std_specs::hash::group_hash_axioms;

/// Number of price levels of a book made by `OrderBook::new`.
pub const MAX_PRICE: usize = 10_000_000;

/// Number of arena slots of a book made by `OrderBook::new`.
pub const DEFAULT_MAX_ORDERS: usize = 1_000_000;

/// Why `limit_order` refused an order. A refused order leaves the book as it was.
#[derive(Debug, Clone, Copy, PartialEq, Eq, Structural)]
pub enum OrderError {
    /// The price is at or above the book's number of price levels.
    InvalidPrice,
    /// The price or the quantity is zero.
    InvalidOrder,
    /// Every arena slot is taken.
    OrderBookFull,
}

/// Read-only summary of a book.
#[derive(Debug, Clone, Copy)]
pub struct OrderBookSnapshot {
    pub next_order_id: OrderId,
    pub bid_max: Option<Price>,
    pub ask_min: Option<Price>,
    pub active_orders: usize,
    pub total_trades: usize,
}

/// A price-time priority limit-order book over the prices `0 .. max_price`.
///
/// Each price has one `PricePoint` per side; the orders resting there form a
/// queue linked through the arena slots' `next_idx`. Ghost state records, for
/// every side and price, the queue as a sequence of slot indices, and for
/// every slot the side and price it was placed at.
pub struct OrderBook {
    bids: Vec<PricePoint>,
    asks: Vec<PricePoint>,
    arena: OrderArena,
    order_index: HashMap<OrderId, usize>,
    bid_max: Option<Price>,
    ask_min: Option<Price>,
    next_order_id: OrderId,
    trades: Vec<Trade>,
    bid_queues: Ghost<Seq<Seq<usize>>>,
    ask_queues: Ghost<Seq<Seq<usize>>>,
    homes: Ghost<Seq<(Side, int)>>,
}

/// The queue `q` of slot indices is what the price level `pp` links
/// through the slots of `entries`.
pub open spec fn level_ok(pp: PricePoint, q: Seq<usize>, entries: Seq<OrderEntry>) -> bool {
    &&& (q.len() == 0) == pp.first_order_idx.is_none()
    &&& q.len() == 0 ==> pp.last_order_idx.is_none()
    &&& q.len() > 0 ==> pp.first_order_idx == Some(q[0]) && pp.last_order_idx == Some(q.last())
    &&& q.no_duplicates()
    &&& forall|i: int| 0 <= i < q.len() ==> (#[trigger] q[i]) < entries.len()
    &&& forall|i: int|
        0 <= i < q.len() - 1 ==> entries[#[trigger] q[i] as int].next_idx == Some(q[i + 1])
    &&& q.len() > 0 ==> entries[q.last() as int].next_idx.is_none()
}

/// `b` holds the same slots as `a`, with the same ids, traders and links;
/// only quantities may differ.
pub open spec fn same_layout(a: Seq<OrderEntry>, b: Seq<OrderEntry>) -> bool {
    &&& a.len() == b.len()
    &&& forall|s: int|
        0 <= s < a.len() ==> (#[trigger] b[s]).order_id == a[s].order_id && b[s].trader
            == a[s].trader && b[s].next_idx == a[s].next_idx
}

/// The trades `ts`, made for an order on `side`, come best price first
/// (lowest for a buy, highest for a sell) and, within one price, in queue
/// order: `pos` gives each trade's position in its queue.
pub open spec fn in_priority_order(ts: Seq<Trade>, pos: Seq<int>, side: Side) -> bool {
    forall|j: int, j2: int|
        0 <= j < j2 < ts.len() ==> (if side == Side::Buy {
            ts[j].price < ts[j2].price
        } else {
            ts[j].price > ts[j2].price
        }) || (ts[j].price == ts[j2].price && pos[j] < pos[j2])
}

/// Appending the trades of one price level to trades of better prices
/// keeps priority order.
pub proof fn lemma_priority_append(
    a: Seq<Trade>,
    pa: Seq<int>,
    b: Seq<Trade>,
    pb: Seq<int>,
    side: Side,
    p: Price,
)
    requires
        a.len() == pa.len(),
        b.len() == pb.len(),
        in_priority_order(a, pa, side),
        forall|j: int| 0 <= j < a.len() ==> if side == Side::Buy {
            (#[trigger] a[j]).price < p
        } else {
            a[j].price > p
        },
        forall|j: int| 0 <= j < b.len() ==> (#[trigger] b[j]).price == p,
        forall|j: int, j2: int| 0 <= j < j2 < pb.len() ==> pb[j] < pb[j2],
    ensures
        in_priority_order(a + b, pa + pb, side),
{
    let ts = a + b;
    let ps = pa + pb;
    assert forall|j: int, j2: int| 0 <= j < j2 < ts.len() implies (if side == Side::Buy {
        ts[j].price < ts[j2].price
    } else {
        ts[j].price > ts[j2].price
    }) || (ts[j].price == ts[j2].price && ps[j] < ps[j2]) by {
        if j >= a.len() {
            assert(ts[j] == b[j - a.len()]);
            assert(ts[j2] == b[j2 - a.len()]);
            assert(ps[j] == pb[j - a.len()]);
            assert(ps[j2] == pb[j2 - a.len()]);
        } else if j2 >= a.len() {
            assert(ts[j] == a[j]);
            assert(ts[j2] == b[j2 - a.len()]);
        } else {
            assert(ts[j] == a[j]);
            assert(ts[j2] == a[j2]);
            assert(ps[j] == pa[j]);
            assert(ps[j2] == pa[j2]);
        }
    }
}

/// A trade at `price` respects the limit `limit` of an order on `side`.
pub open spec fn within_limit(side: Side, price: Price, limit: Price) -> bool {
    match side {
        Side::Buy => price <= limit,
        Side::Sell => price >= limit,
    }
}

/// Sum of the quantities of the slots `q` in `entries`.
pub open spec fn live_sum(entries: Seq<OrderEntry>, q: Seq<usize>) -> nat
    decreases q.len(),
{
    if q.len() == 0 {
        0
    } else {
        live_sum(entries, q.drop_last()) + entries[q.last() as int].quantity as nat
    }
}

/// Changing the quantity of one slot that `q` holds once changes the sum by
/// the same amount; changing one it does not hold changes nothing.
proof fn lemma_live_sum_update(e: Seq<OrderEntry>, q: Seq<usize>, s: usize, x: OrderEntry)
    requires
        q.no_duplicates(),
        0 <= s < e.len(),
        forall|i: int| 0 <= i < q.len() ==> (#[trigger] q[i]) < e.len(),
    ensures
        live_sum(e.update(s as int, x), q) == live_sum(e, q) + (if q.contains(s) {
            x.quantity - e[s as int].quantity
        } else {
            0
        }),
    decreases q.len(),
{
    if q.len() > 0 {
        let d = q.drop_last();
        assert(d.no_duplicates());
        lemma_live_sum_update(e, d, s, x);
        if q.last() == s {
            assert(!d.contains(s));
        } else if d.contains(s) {
            assert(q.contains(s));
        } else {
            assert(!q.contains(s)) by {
                if q.contains(s) {
                    let i = choose|i: int| 0 <= i < q.len() && q[i] == s;
                    assert(i != q.len() - 1);
                    assert(d[i] == s);
                }
            }
        }
    }
}

/// Sums over `q` agree where the quantities of its slots agree.
proof fn lemma_live_sum_agree(a: Seq<OrderEntry>, b: Seq<OrderEntry>, q: Seq<usize>)
    requires
        forall|i: int| 0 <= i < q.len() ==> a[#[trigger] q[i] as int].quantity == b[q[i] as int].quantity,
    ensures
        live_sum(a, q) == live_sum(b, q),
    decreases q.len(),
{
    if q.len() > 0 {
        lemma_live_sum_agree(a, b, q.drop_last());
        assert(a[q[q.len() - 1] as int].quantity == b[q[q.len() - 1] as int].quantity);
    }
}

/// Slots that all hold nothing sum to nothing.
proof fn lemma_live_sum_zero(e: Seq<OrderEntry>, q: Seq<usize>)
    requires
        forall|i: int| 0 <= i < q.len() ==> e[#[trigger] q[i] as int].quantity == 0,
    ensures
        live_sum(e, q) == 0,
    decreases q.len(),
{
    if q.len() > 0 {
        lemma_live_sum_zero(e, q.drop_last());
        assert(e[q[q.len() - 1] as int].quantity == 0);
    }
}

/// Sum of the quantities of `ts`.
pub open spec fn total_quantity(ts: Seq<Trade>) -> int
    decreases ts.len(),
{
    if ts.len() == 0 {
        0
    } else {
        total_quantity(ts.drop_last()) + ts.last().quantity
    }
}

/// The quantity of a concatenation is the sum of the quantities.
pub proof fn lemma_total_quantity_append(a: Seq<Trade>, b: Seq<Trade>)
    ensures
        total_quantity(a + b) == total_quantity(a) + total_quantity(b),
    decreases b.len(),
{
    if b.len() == 0 {
        assert(a + b =~= a);
    } else {
        lemma_total_quantity_append(a, b.drop_last());
        assert((a + b).drop_last() =~= a + b.drop_last());
    }
}

/// Every trade's quantity is at least zero, so the total is too.
pub proof fn lemma_total_quantity_nonneg(ts: Seq<Trade>)
    ensures
        total_quantity(ts) >= 0,
    decreases ts.len(),
{
    if ts.len() > 0 {
        lemma_total_quantity_nonneg(ts.drop_last());
    }
}

/// Dropping the first `k` slots of a well-linked queue, and pointing the
/// level's head at what follows, gives a well-linked queue.
proof fn lemma_level_suffix(pp: PricePoint, q: Seq<usize>, k: int, entries: Seq<OrderEntry>)
    requires
        level_ok(pp, q, entries),
        0 <= k <= q.len(),
    ensures
        level_ok(
            PricePoint {
                first_order_idx: if k < q.len() {
                    Some(q[k])
                } else {
                    None
                },
                last_order_idx: if k < q.len() {
                    pp.last_order_idx
                } else {
                    None
                },
            },
            q.subrange(k, q.len() as int),
            entries,
        ),
{
    let nq = q.subrange(k, q.len() as int);
    assert forall|i: int| 0 <= i < nq.len() - 1 implies entries[#[trigger] nq[i] as int].next_idx
        == Some(nq[i + 1]) by {
        assert(nq[i] == q[i + k]);
        assert(q[i + k] == q[i + k]);
    }
    assert forall|i: int| 0 <= i < nq.len() implies (#[trigger] nq[i]) < entries.len() by {
        assert(nq[i] == q[i + k]);
    }
    if nq.len() > 0 {
        assert(nq.last() == q.last());
    }
}

/// A fill stays a fill when only a slot outside the orders it speaks of changes.
proof fn lemma_fill_kept(
    pre: OrderBook,
    a: OrderBook,
    b: OrderBook,
    side: Side,
    trader: TraderId,
    t: Trade,
    pos: int,
    x: int,
)
    requires
        a.fills_resting(pre, side, trader, t, pos),
        b.arena@.len() == a.arena@.len(),
        forall|s: int| 0 <= s < a.arena@.len() && s != x ==> b.arena@[s] == a.arena@[s],
        forall|i: int| 0 <= i <= pos ==> pre.queue(side.spec_opposite(), t.price as int)[i] != x,
        forall|i: int|
            0 <= i <= pos ==> pre.queue(side.spec_opposite(), t.price as int)[i] < a.arena@.len(),
    ensures
        b.fills_resting(pre, side, trader, t, pos),
{
    let q = pre.queue(side.spec_opposite(), t.price as int);
    assert(q[pos] != x);
    assert forall|i: int| 0 <= i < pos implies b.arena@[#[trigger] q[i] as int].quantity == 0 by {
        assert(q[i] != x);
        assert(a.arena@[q[i] as int].quantity == 0);
    }
}

/// A fill stays a fill when only orders resting at another price change.
proof fn lemma_fill_kept_home(
    pre: OrderBook,
    a: OrderBook,
    b: OrderBook,
    side: Side,
    trader: TraderId,
    t: Trade,
    pos: int,
    p: int,
)
    requires
        pre.structure_ok(),
        a.fills_resting(pre, side, trader, t, pos),
        t.price != p,
        a.arena@.len() == pre.arena@.len(),
        same_layout(a.arena@, b.arena@),
        forall|s: int|
            0 <= s < pre.arena@.len() && pre.homes@[s] != (side.spec_opposite(), p) ==> (
            #[trigger] b.arena@[s]).quantity == a.arena@[s].quantity,
    ensures
        b.fills_resting(pre, side, trader, t, pos),
{
    let opp = side.spec_opposite();
    let q = pre.queue(opp, t.price as int);
    assert(pre.side_ok(opp)) by {
        if side == Side::Buy {
            assert(pre.side_ok(Side::Sell));
        } else {
            assert(pre.side_ok(Side::Buy));
        }
    }
    assert(pre.queues(opp)[t.price as int] == q);
    assert(level_ok(pre.levels(opp)[t.price as int], q, pre.arena@));
    assert forall|i: int| 0 <= i <= pos implies b.arena@[#[trigger] q[i] as int].quantity
        == a.arena@[q[i] as int].quantity by {
        assert(pre.homes@[pre.queues(opp)[t.price as int][i] as int] == (opp, t.price as int));
        assert(q[i] < pre.arena@.len());
    }
    assert(b.arena@[q[pos] as int].quantity == a.arena@[q[pos] as int].quantity);
}

/// A fill measured from `mid` is one measured from `pre` when the queue it
/// speaks of, and the orders in it up to the one filled, were the same in both.
proof fn lemma_fill_rebase(
    pre: OrderBook,
    mid: OrderBook,
    post: OrderBook,
    side: Side,
    trader: TraderId,
    t: Trade,
    pos: int,
)
    requires
        post.fills_resting(mid, side, trader, t, pos),
        mid.max_price() == pre.max_price(),
        mid.queue(side.spec_opposite(), t.price as int) == pre.queue(
            side.spec_opposite(),
            t.price as int,
        ),
        ({
            let q = pre.queue(side.spec_opposite(), t.price as int);
            forall|i: int|
                0 <= i <= pos ==> mid.arena@[#[trigger] q[i] as int].quantity == pre.arena@[q[i] as int].quantity
                    && mid.arena@[q[i] as int].trader == pre.arena@[q[i] as int].trader
        }),
    ensures
        post.fills_resting(pre, side, trader, t, pos),
{
    let q = pre.queue(side.spec_opposite(), t.price as int);
    assert(mid.arena@[q[pos] as int].quantity == pre.arena@[q[pos] as int].quantity);
}

/// A fill stays a fill when the arena only grows and keeps every old quantity.
proof fn lemma_fill_grown(
    pre: OrderBook,
    a: OrderBook,
    b: OrderBook,
    side: Side,
    trader: TraderId,
    t: Trade,
    pos: int,
)
    requires
        pre.structure_ok(),
        a.fills_resting(pre, side, trader, t, pos),
        a.arena@.len() == pre.arena@.len(),
        b.arena@.len() >= a.arena@.len(),
        forall|s: int|
            0 <= s < a.arena@.len() ==> (#[trigger] b.arena@[s]).quantity == a.arena@[s].quantity,
    ensures
        b.fills_resting(pre, side, trader, t, pos),
{
    let opp = side.spec_opposite();
    let q = pre.queue(opp, t.price as int);
    assert(pre.side_ok(opp)) by {
        if side == Side::Buy {
            assert(pre.side_ok(Side::Sell));
        } else {
            assert(pre.side_ok(Side::Buy));
        }
    }
    assert(pre.queues(opp)[t.price as int] == q);
    assert(level_ok(pre.levels(opp)[t.price as int], q, pre.arena@));
    assert(b.arena@[q[pos] as int].quantity == a.arena@[q[pos] as int].quantity);
    assert forall|i: int| 0 <= i < pos implies b.arena@[#[trigger] q[i] as int].quantity == 0 by {
        assert(a.arena@[q[i] as int].quantity == 0);
    }
}

/// A well-formed book is never crossed: when both best prices exist, the
/// best bid is below the best ask. Every operation keeps the book
/// well-formed, so this holds after any sequence of orders and cancels.
pub proof fn lemma_book_uncrossed(book: OrderBook)
    requires
        book.wf(),
    ensures
        book.spec_best_bid() matches Some(b) ==> (book.spec_best_ask() matches Some(a) ==> b < a),
{
}

/// What a well-formed book's accessors say of its queues: the best bid is
/// the highest price with a non-empty bid queue and the best ask the lowest
/// with a non-empty ask queue (none when there is no such queue), and a
/// resting order has quantity left.
pub proof fn lemma_book_queries(book: OrderBook)
    requires
        book.wf(),
    ensures
        match book.spec_best_bid() {
            None => forall|p: int| 0 <= p < book.max_price() ==> (#[trigger] book.queue(Side::Buy, p)).len() == 0,
            Some(b) => {
                &&& b < book.max_price()
                &&& book.queue(Side::Buy, b as int).len() > 0
                &&& forall|p: int| b < p < book.max_price() ==> (#[trigger] book.queue(Side::Buy, p)).len() == 0
            },
        },
        match book.spec_best_ask() {
            None => forall|p: int| 0 <= p < book.max_price() ==> (#[trigger] book.queue(Side::Sell, p)).len() == 0,
            Some(a) => {
                &&& a < book.max_price()
                &&& book.queue(Side::Sell, a as int).len() > 0
                &&& forall|p: int| 0 <= p < a ==> (#[trigger] book.queue(Side::Sell, p)).len() == 0
            },
        },
        forall|k: OrderId| #[trigger] book.is_resting(k) ==> book.resting_quantity(k) > 0 && 0
            <= book.slot_of(k) < book.entries().len(),
        book.entries().len() == book.slots_used(),
        book.slots_used() <= book.slot_capacity(),
        book.resting_ids().finite(),
        book.resting_count() == book.resting_ids().len(),
        forall|k: OrderId| #[trigger] book.is_resting(k) == book.resting_ids().contains(k),
        forall|k: OrderId| #[trigger] book.is_resting(k) ==> book.entries()[book.slot_of(k)].order_id == k,
{
    book.arena.lemma_bounds();
    assert forall|k: OrderId| #[trigger] book.is_resting(k) implies book.resting_quantity(k) > 0 && 0
        <= book.slot_of(k) < book.entries().len() by {
        assert(book.order_index@.contains_key(k));
    }
    assert forall|p: int| 0 <= p < book.max_price() implies book.queue(Side::Buy, p) == book.bid_queues@[p]
        && book.queue(Side::Sell, p) == book.ask_queues@[p] by {}
}

/// Time priority within a price: when the trades `ts` of an order include
/// the fill `ts[j]` of the order at position `pos[j]` of a queue, every order
/// ahead of it in that queue is left with nothing, so it was filled in full
/// (or was already dead) before the later one got anything.
pub proof fn lemma_fifo_within_level(
    pre: OrderBook,
    post: OrderBook,
    side: Side,
    trader: TraderId,
    limit: Price,
    ts: Seq<Trade>,
    pos: Seq<int>,
    j: int,
    ahead: int,
)
    requires
        post.fills_in_order(pre, side, trader, limit, ts, pos),
        0 <= j < ts.len(),
        0 <= ahead < pos[j],
    ensures
        post.entries()[pre.queue(side.spec_opposite(), ts[j].price as int)[ahead] as int].quantity == 0,
{
    assert(post.fills_resting(pre, side, trader, ts[j], pos[j]));
}

/// Price improvement goes to the aggressor: every trade of an order is at
/// the price where the filled order rested, within the order's limit, and
/// pairs the aggressor with that resting order's trader.
pub proof fn lemma_trade_at_resting_price(
    pre: OrderBook,
    post: OrderBook,
    side: Side,
    trader: TraderId,
    limit: Price,
    ts: Seq<Trade>,
    pos: Seq<int>,
    j: int,
)
    requires
        post.fills_in_order(pre, side, trader, limit, ts, pos),
        0 <= j < ts.len(),
    ensures
        ({
            let q = pre.queue(side.spec_opposite(), ts[j].price as int);
            let resting = pre.entries()[q[pos[j]] as int];
            &&& 0 <= pos[j] < q.len()
            &&& within_limit(side, ts[j].price, limit)
            &&& if side == Side::Buy {
                ts[j].buyer == trader && ts[j].seller == resting.trader
            } else {
                ts[j].buyer == resting.trader && ts[j].seller == trader
            }
        }),
{
    assert(post.fills_resting(pre, side, trader, ts[j], pos[j]));
}

/// Shrinking one level of `opp` from `mid` to `post`, where `mid` had only
/// shrunk `opp`'s levels from `pre` and left that one as it was, gives a
/// `post` that has only shrunk them from `pre`.
proof fn lemma_levels_shrunk(pre: OrderBook, mid: OrderBook, post: OrderBook, opp: Side, p: int)
    requires
        pre.structure_ok(),
        0 <= p < pre.max_price(),
        mid.arena@.len() == pre.arena@.len(),
        post.arena@.len() == pre.arena@.len(),
        forall|x: int| 0 <= x < pre.max_price() ==> #[trigger] mid.level_shrunk(pre, opp, x),
        mid.queue(opp, p) == pre.queue(opp, p),
        post.level_shrunk(mid, opp, p),
        forall|x: int| 0 <= x < pre.max_price() && x != p ==> #[trigger] post.queue(opp, x) == mid.queue(opp, x),
        forall|s: int|
            0 <= s < pre.arena@.len() && pre.homes@[s] != (opp, p) ==> (#[trigger] post.arena@[s]).quantity
                == mid.arena@[s].quantity,
    ensures
        forall|x: int| 0 <= x < pre.max_price() ==> #[trigger] post.level_shrunk(pre, opp, x),
{
    assert(pre.side_ok(opp)) by {
        if opp == Side::Buy {
            assert(pre.side_ok(Side::Buy));
        } else {
            assert(pre.side_ok(Side::Sell));
        }
    }
    assert forall|x: int| 0 <= x < pre.max_price() implies #[trigger] post.level_shrunk(pre, opp, x) by {
        assert(mid.level_shrunk(pre, opp, x));
        let q = pre.queue(opp, x);
        assert(q == pre.queues(opp)[x]);
        assert(level_ok(pre.levels(opp)[x], q, pre.arena@));
        if x != p {
            assert forall|i: int| 0 <= i < q.len() - post.queue(opp, x).len() implies (#[trigger] post.arena@[q[i] as int]).quantity == 0 by {
                assert(pre.homes@[pre.queues(opp)[x][i] as int] == (opp, x));
                assert(mid.arena@[q[i] as int].quantity == 0);
            }
        }
    }
}

/// Sum, over the prices `lo .. hi`, of the quantities in `arena` of the
/// slots that `pre` queues at that price on `side`.
pub open spec fn level_sums(pre: OrderBook, arena: Seq<OrderEntry>, side: Side, lo: int, hi: int) -> nat
    decreases hi - lo,
{
    if hi <= lo {
        0
    } else {
        level_sums(pre, arena, side, lo, hi - 1) + live_sum(arena, pre.queue(side, hi - 1))
    }
}

/// Changing the sum of one level changes the sum over the range by the same amount.
proof fn lemma_level_sums_change(
    pre: OrderBook,
    a: Seq<OrderEntry>,
    b: Seq<OrderEntry>,
    side: Side,
    lo: int,
    hi: int,
    p: int,
)
    requires
        forall|x: int| lo <= x < hi && x != p ==> live_sum(b, #[trigger] pre.queue(side, x)) == live_sum(a, pre.queue(side, x)),
    ensures
        level_sums(pre, b, side, lo, hi) == level_sums(pre, a, side, lo, hi) + if lo <= p < hi {
            live_sum(b, pre.queue(side, p)) - live_sum(a, pre.queue(side, p))
        } else {
            0
        },
    decreases hi - lo,
{
    if hi > lo {
        lemma_level_sums_change(pre, a, b, side, lo, hi - 1, p);
    }
}

/// Levels that all sum to nothing sum to nothing.
proof fn lemma_level_sums_zero(pre: OrderBook, a: Seq<OrderEntry>, side: Side, lo: int, hi: int)
    requires
        forall|x: int| lo <= x < hi ==> live_sum(a, #[trigger] pre.queue(side, x)) == 0,
    ensures
        level_sums(pre, a, side, lo, hi) == 0,
    decreases hi - lo,
{
    if hi > lo {
        lemma_level_sums_zero(pre, a, side, lo, hi - 1);
    }
}

/// Levels that a book emptied, leaving each dropped slot with nothing, now sum to nothing.
proof fn lemma_emptied_levels(pre: OrderBook, post: OrderBook, side: Side, lo: int, hi: int)
    requires
        forall|x: int| lo <= x < hi ==> #[trigger] post.level_shrunk(pre, side, x) && post.queue(side, x).len() == 0,
    ensures
        level_sums(pre, post.arena@, side, lo, hi) == 0,
{
    assert forall|x: int| lo <= x < hi implies live_sum(post.arena@, #[trigger] pre.queue(side, x)) == 0 by {
        assert(post.level_shrunk(pre, side, x));
        let q = pre.queue(side, x);
        assert forall|i: int| 0 <= i < q.len() implies post.arena@[#[trigger] q[i] as int].quantity == 0 by {}
        lemma_live_sum_zero(post.arena@, q);
    }
    lemma_level_sums_zero(pre, post.arena@, side, lo, hi);
}

/// A prefix of a queue sums to no more than the whole queue.
proof fn lemma_live_sum_prefix(e: Seq<OrderEntry>, q: Seq<usize>, k: int)
    requires
        0 <= k <= q.len(),
    ensures
        live_sum(e, q.subrange(0, k)) <= live_sum(e, q),
    decreases q.len(),
{
    if k < q.len() {
        lemma_live_sum_prefix(e, q.drop_last(), k);
        assert(q.drop_last().subrange(0, k) =~= q.subrange(0, k));
    } else {
        assert(q.subrange(0, k) =~= q);
    }
}

/// Sums over more levels are no smaller.
proof fn lemma_level_sums_mono(pre: OrderBook, a: Seq<OrderEntry>, side: Side, lo: int, h1: int, h2: int)
    requires
        lo <= h1 <= h2,
    ensures
        level_sums(pre, a, side, lo, h1) <= level_sums(pre, a, side, lo, h2),
    decreases h2 - h1,
{
    if h1 < h2 {
        lemma_level_sums_mono(pre, a, side, lo, h1, h2 - 1);
    }
}

/// A positive total needs at least one trade.
proof fn lemma_total_quantity_positive(ts: Seq<Trade>)
    requires
        total_quantity(ts) > 0,
    ensures
        ts.len() > 0,
{
}

impl OrderBook {
    /// Number of price levels on each side.
    pub closed spec fn max_price(&self) -> nat {
        self.bids@.len()
    }

    /// The price levels of `side`.
    pub closed spec fn levels(&self, side: Side) -> Seq<PricePoint> {
        match side {
            Side::Buy => self.bids@,
            Side::Sell => self.asks@,
        }
    }

    /// The queue of slot indices resting at price `p` on `side`, oldest first.
    pub closed spec fn queue(&self, side: Side, p: int) -> Seq<usize> {
        match side {
            Side::Buy => self.bid_queues@[p],
            Side::Sell => self.ask_queues@[p],
        }
    }

    /// All queues of `side`.
    pub closed spec fn queues(&self, side: Side) -> Seq<Seq<usize>> {
        match side {
            Side::Buy => self.bid_queues@,
            Side::Sell => self.ask_queues@,
        }
    }

    /// The order records of the arena.
    pub closed spec fn entries(&self) -> Seq<OrderEntry> {
        self.arena@
    }

    /// Cached best bid.
    pub closed spec fn spec_best_bid(&self) -> Option<Price> {
        self.bid_max
    }

    /// Cached best ask.
    pub closed spec fn spec_best_ask(&self) -> Option<Price> {
        self.ask_min
    }

    /// The id the next accepted order gets.
    pub closed spec fn spec_next_order_id(&self) -> OrderId {
        self.next_order_id
    }

    /// The trade log.
    pub closed spec fn trade_log(&self) -> Seq<Trade> {
        self.trades@
    }

    /// Number of arena slots in all.
    pub closed spec fn slot_capacity(&self) -> nat {
        self.arena.spec_capacity()
    }

    /// Number of arena slots handed out so far.
    pub closed spec fn slots_used(&self) -> nat {
        self.arena@.len()
    }

    /// The ids of the resting orders.
    pub closed spec fn resting_ids(&self) -> Set<OrderId> {
        self.order_index@.dom()
    }

    /// Number of resting orders.
    pub closed spec fn resting_count(&self) -> nat {
        self.order_index@.len()
    }

    /// Whether order `id` is resting with quantity left.
    pub closed spec fn is_resting(&self, id: OrderId) -> bool {
        self.order_index@.contains_key(id)
    }

    /// The arena slot of resting order `id`.
    pub closed spec fn slot_of(&self, id: OrderId) -> int {
        self.order_index@[id] as int
    }

    /// Quantity left on order `id`: zero unless it is resting.
    pub open spec fn resting_quantity(&self, id: OrderId) -> nat {
        if self.is_resting(id) {
            self.entries()[self.slot_of(id)].quantity as nat
        } else {
            0
        }
    }

    /// Every queue of `side` is linked as its price level says, and each of
    /// its slots was placed on `side` at that price.
    pub closed spec fn side_ok(&self, side: Side) -> bool {
        &&& self.levels(side).len() == self.max_price()
        &&& self.queues(side).len() == self.max_price()
        &&& forall|p: int|
            0 <= p < self.max_price() ==> level_ok(
                #[trigger] self.levels(side)[p],
                self.queues(side)[p],
                self.arena@,
            )
        &&& forall|p: int, i: int|
            0 <= p < self.max_price() && 0 <= i < self.queues(side)[p].len() ==> self.homes@[#[trigger] self.queues(side)[p][i] as int]
                == (side, p)
    }

    /// `bid_max` is the highest price with a non-empty bid queue, `ask_min`
    /// the lowest with a non-empty ask queue.
    pub closed spec fn caches_ok(&self) -> bool {
        &&& match self.bid_max {
            None => forall|p: int|
                0 <= p < self.max_price() ==> (#[trigger] self.bid_queues@[p]).len() == 0,
            Some(b) => {
                &&& b < self.max_price()
                &&& self.bid_queues@[b as int].len() > 0
                &&& forall|p: int|
                    b < p < self.max_price() ==> (#[trigger] self.bid_queues@[p]).len() == 0
            },
        }
        &&& match self.ask_min {
            None => forall|p: int|
                0 <= p < self.max_price() ==> (#[trigger] self.ask_queues@[p]).len() == 0,
            Some(a) => {
                &&& a < self.max_price()
                &&& self.ask_queues@[a as int].len() > 0
                &&& forall|p: int| 0 <= p < a ==> (#[trigger] self.ask_queues@[p]).len() == 0
            },
        }
    }

    /// The id index holds exactly the live slots, each under its own id,
    /// and every id in it was issued already.
    pub closed spec fn index_ok(&self) -> bool {
        &&& forall|id: OrderId| #[trigger]
            self.order_index@.contains_key(id) ==> {
                let s = self.order_index@[id] as int;
                &&& 0 <= s < self.arena@.len()
                &&& self.arena@[s].order_id == id
                &&& self.arena@[s].quantity > 0
                &&& id < self.next_order_id
            }
        &&& forall|s: int|
            0 <= s < self.arena@.len() && (#[trigger] self.arena@[s]).quantity > 0 ==> {
                &&& self.order_index@.contains_key(self.arena@[s].order_id)
                &&& self.order_index@[self.arena@[s].order_id] == s
            }
    }

    /// When both sides have a best price, the best bid is below the best ask.
    pub closed spec fn uncrossed(&self) -> bool {
        match (self.bid_max, self.ask_min) {
            (Some(b), Some(a)) => b < a,
            _ => true,
        }
    }

    /// The queues, the arena and the id index agree.
    pub closed spec fn structure_ok(&self) -> bool {
        &&& self.max_price() <= u32::MAX
        &&& self.arena.wf()
        &&& self.homes@.len() == self.arena@.len()
        &&& self.side_ok(Side::Buy)
        &&& self.side_ok(Side::Sell)
        &&& self.index_ok()
    }

    /// The book's invariant.
    pub closed spec fn wf(&self) -> bool {
        &&& self.structure_ok()
        &&& self.caches_ok()
        &&& self.uncrossed()
    }

    /// `t` is a fill, on behalf of `trader` on `side`, of the order at
    /// position `pos` of the queue at `t.price` on the other side of `pre`:
    /// the trade pairs the two traders, takes no more than that order had
    /// and leaves it with the rest, and every order ahead of it in that
    /// queue is left with nothing.
    pub open spec fn fills_resting(
        &self,
        pre: OrderBook,
        side: Side,
        trader: TraderId,
        t: Trade,
        pos: int,
    ) -> bool {
        let q = pre.queue(side.spec_opposite(), t.price as int);
        let e = pre.entries()[q[pos] as int];
        &&& (t.price as int) < pre.max_price()
        &&& 0 <= pos < q.len()
        &&& match side {
            Side::Buy => t.buyer == trader && t.seller == e.trader,
            Side::Sell => t.buyer == e.trader && t.seller == trader,
        }
        &&& 0 < t.quantity <= e.quantity
        &&& self.entries()[q[pos] as int].quantity == e.quantity - t.quantity
        &&& forall|i: int| 0 <= i < pos ==> self.entries()[#[trigger] q[i] as int].quantity == 0
    }

    /// A book with `MAX_PRICE` price levels and room for
    /// `DEFAULT_MAX_ORDERS` resting orders.
    pub fn new() -> (r: Self)
        ensures
            r.wf(),
            r.max_price() == MAX_PRICE,
            r.slot_capacity() == DEFAULT_MAX_ORDERS,
            r.slots_used() == 0,
            r.spec_best_bid().is_none(),
            r.spec_best_ask().is_none(),
            r.spec_next_order_id() == 1,
            r.trade_log() == Seq::<Trade>::empty(),
            r.resting_count() == 0,
            forall|id: OrderId| !r.is_resting(id),
    {
        OrderBook::with_capacity(MAX_PRICE, DEFAULT_MAX_ORDERS)
    }

    /// An empty book with prices `0 .. max_price` and room for `max_orders`
    /// resting orders.
    pub fn with_capacity(max_price: usize, max_orders: usize) -> (r: Self)
        requires
            max_price <= u32::MAX,
        ensures
            r.wf(),
            r.max_price() == max_price,
            r.slot_capacity() == max_orders,
            r.slots_used() == 0,
            r.spec_best_bid().is_none(),
            r.spec_best_ask().is_none(),
            r.spec_next_order_id() == 1,
            r.trade_log() == Seq::<Trade>::empty(),
            forall|id: OrderId| !r.is_resting(id),
            r.resting_count() == 0,
    {
        let mut bids: Vec<PricePoint> = Vec::with_capacity(max_price);
        let mut asks: Vec<PricePoint> = Vec::with_capacity(max_price);
        let mut i: usize = 0;
        while i < max_price
            invariant
                i <= max_price,
                bids@.len() == i,
                asks@.len() == i,
                forall|p: int| 0 <= p < i ==> (#[trigger] bids@[p]).first_order_idx.is_none()
                    && bids@[p].last_order_idx.is_none(),
                forall|p: int| 0 <= p < i ==> (#[trigger] asks@[p]).first_order_idx.is_none()
                    && asks@[p].last_order_idx.is_none(),
            decreases max_price - i,
        {
            bids.push(PricePoint::empty());
            asks.push(PricePoint::empty());
            i = i + 1;
        }
        let ghost empty_queues = Seq::new(max_price as nat, |p: int| Seq::<usize>::empty());
        let r = OrderBook {
            bids,
            asks,
            arena: OrderArena::new(max_orders),
            order_index: HashMap::with_capacity(max_orders),
            bid_max: None,
            ask_min: None,
            next_order_id: 1,
            trades: Vec::new(),
            bid_queues: Ghost(empty_queues),
            ask_queues: Ghost(empty_queues),
            homes: Ghost(Seq::empty()),
        };
        assert forall|p: int| 0 <= p < r.max_price() implies level_ok(
            #[trigger] r.levels(Side::Buy)[p],
            r.queues(Side::Buy)[p],
            r.arena@,
        ) && level_ok(r.levels(Side::Sell)[p], r.queues(Side::Sell)[p], r.arena@) by {
            assert(r.queues(Side::Buy)[p].no_duplicates());
            assert(r.queues(Side::Sell)[p].no_duplicates());
        }
        assert forall|p: int| 0 <= p < r.max_price() implies level_ok(
            #[trigger] r.levels(Side::Sell)[p],
            r.queues(Side::Sell)[p],
            r.arena@,
        ) by {
            assert(r.levels(Side::Buy)[p] == r.bids@[p]);
        }
        assert(r.side_ok(Side::Buy));
        assert(r.side_ok(Side::Sell));
        assert(r.caches_ok());
        assert(r.index_ok());
        r
    }

    /// The id the next accepted order gets.
    pub fn next_order_id(&self) -> (r: OrderId)
        ensures
            r == self.spec_next_order_id(),
    {
        self.next_order_id
    }

    /// Sets the id the next accepted order gets, for a book restored from a
    /// log. Every resting order must have a smaller id, so that ids stay
    /// unique.
    pub fn set_next_order_id(&mut self, id: OrderId)
        requires
            old(self).wf(),
            forall|k: OrderId| old(self).is_resting(k) ==> k < id,
        ensures
            final(self).wf(),
            final(self).max_price() == old(self).max_price(),
            final(self).slots_used() == old(self).slots_used(),
            final(self).slot_capacity() == old(self).slot_capacity(),
            final(self).spec_next_order_id() == id,
            final(self).spec_best_bid() == old(self).spec_best_bid(),
            final(self).spec_best_ask() == old(self).spec_best_ask(),
            final(self).trade_log() == old(self).trade_log(),
            forall|k: OrderId| final(self).is_resting(k) == old(self).is_resting(k),
            forall|k: OrderId| final(self).resting_quantity(k) == old(self).resting_quantity(k),
            final(self).resting_count() == old(self).resting_count(),
            forall|k: OrderId| #[trigger] final(self).is_resting(k) ==> final(self).slot_of(k) == old(self).slot_of(k),
            final(self).entries() == old(self).entries(),
    {
        self.next_order_id = id;
        proof {
            self.lemma_layout_keeps_sides(*old(self));
        }
        assert forall|k: OrderId| #[trigger] self.order_index@.contains_key(k) implies k < id by {
            assert(old(self).is_resting(k));
        }
        assert(self.index_ok());
    }

    /// Highest price with a bid queue, if any.
    pub fn best_bid(&self) -> (r: Option<Price>)
        ensures
            r == self.spec_best_bid(),
    {
        self.bid_max
    }

    /// Lowest price with an ask queue, if any.
    pub fn best_ask(&self) -> (r: Option<Price>)
        ensures
            r == self.spec_best_ask(),
    {
        self.ask_min
    }

    /// Best ask minus best bid, when both exist and the ask is higher.
    pub fn spread(&self) -> (r: Option<Price>)
        ensures
            r == (match (self.spec_best_ask(), self.spec_best_bid()) {
                (Some(a), Some(b)) => if a > b {
                    Some((a - b) as Price)
                } else {
                    None
                },
                _ => None,
            }),
    {
        match (self.ask_min, self.bid_max) {
            (Some(ask), Some(bid)) => if ask > bid {
                Some(ask - bid)
            } else {
                None
            },
            _ => None,
        }
    }

    /// Midpoint of best bid and best ask, rounded down, when both exist.
    pub fn mid_price(&self) -> (r: Option<Price>)
        ensures
            r == (match (self.spec_best_ask(), self.spec_best_bid()) {
                (Some(a), Some(b)) => Some(((a + b) / 2) as Price),
                _ => None,
            }),
    {
        match (self.ask_min, self.bid_max) {
            (Some(ask), Some(bid)) => Some(((ask as u64 + bid as u64) / 2) as u32),
            _ => None,
        }
    }

    /// The trade log.
    pub fn trades(&self) -> (r: &[Trade])
        ensures
            r@ == self.trade_log(),
    {
        self.trades.as_slice()
    }

    /// Empties the trade log; the book itself is unchanged.
    pub fn clear_trades(&mut self)
        requires
            old(self).wf(),
        ensures
            final(self).wf(),
            final(self).max_price() == old(self).max_price(),
            final(self).slots_used() == old(self).slots_used(),
            final(self).slot_capacity() == old(self).slot_capacity(),
            final(self).trade_log() == Seq::<Trade>::empty(),
            final(self).spec_best_bid() == old(self).spec_best_bid(),
            final(self).spec_best_ask() == old(self).spec_best_ask(),
            final(self).spec_next_order_id() == old(self).spec_next_order_id(),
            forall|k: OrderId| final(self).is_resting(k) == old(self).is_resting(k),
            forall|k: OrderId| final(self).resting_quantity(k) == old(self).resting_quantity(k),
            final(self).resting_count() == old(self).resting_count(),
            forall|k: OrderId| #[trigger] final(self).is_resting(k) ==> final(self).slot_of(k) == old(self).slot_of(k),
            final(self).entries() == old(self).entries(),
    {
        self.trades.clear();
    }

    /// Cancels order `order_id`: true when it was resting, and then its
    /// quantity is zeroed and it leaves the index. Its slot stays linked in
    /// its queue until a match walks past it.
    pub fn cancel_order(&mut self, order_id: OrderId) -> (r: bool)
        requires
            old(self).wf(),
        ensures
            final(self).wf(),
            final(self).max_price() == old(self).max_price(),
            final(self).slots_used() == old(self).slots_used(),
            final(self).slot_capacity() == old(self).slot_capacity(),
            r == old(self).is_resting(order_id),
            !final(self).is_resting(order_id),
            forall|k: OrderId| k != order_id ==> final(self).is_resting(k) == old(self).is_resting(k),
            forall|k: OrderId|
                k != order_id ==> final(self).resting_quantity(k) == old(self).resting_quantity(k),
            final(self).spec_best_bid() == old(self).spec_best_bid(),
            final(self).spec_best_ask() == old(self).spec_best_ask(),
            final(self).spec_next_order_id() == old(self).spec_next_order_id(),
            final(self).trade_log() == old(self).trade_log(),
            forall|side: Side, p: int| #[trigger] final(self).queue(side, p) == old(self).queue(side, p),
            r ==> final(self).entries() == old(self).entries().update(
                old(self).slot_of(order_id),
                OrderEntry { quantity: 0, ..old(self).entries()[old(self).slot_of(order_id)] },
            ),
            !r ==> final(self).entries() == old(self).entries(),
            final(self).resting_count() == old(self).resting_count() - if r {
                1int
            } else {
                0int
            },
    {
        let found = self.order_index.get(&order_id);
        match found {
            Some(i) => {
                let idx = *i;
                self.arena.set_quantity(idx, 0);
                self.order_index.remove(&order_id);
                proof {
                    old(self).order_index@.lemma_remove_key_len(order_id);
                }
                assert(same_layout(old(self).arena@, self.arena@));
                proof {
                    self.lemma_layout_keeps_sides(*old(self));
                }
                assert forall|k: OrderId| k != order_id && #[trigger] self.is_resting(k) implies self.resting_quantity(k) == old(self).resting_quantity(k) by {
                    assert(old(self).order_index@.contains_key(k));
                }
                assert(self.side_ok(Side::Buy));
                assert(self.caches_ok());
                assert(self.index_ok());
                true
            },
            None => false,
        }
    }

    /// Head slot of the queue at `price` on `side`.
    fn level_head(&self, side: Side, price: Price) -> (r: Option<usize>)
        requires
            self.structure_ok(),
            (price as int) < self.max_price(),
        ensures
            r == self.levels(side)[price as int].first_order_idx,
            r == (if self.queue(side, price as int).len() > 0 {
                Some(self.queue(side, price as int)[0])
            } else {
                None::<usize>
            }),
    {
        assert(level_ok(
            self.levels(side)[price as int],
            self.queues(side)[price as int],
            self.arena@,
        ));
        match side {
            Side::Buy => self.bids[price as usize].first_order_idx,
            Side::Sell => self.asks[price as usize].first_order_idx,
        }
    }

    /// Drops the first `k` slots of the queue at `price` on `side`; `head`
    /// is the slot that now comes first, if any.
    fn drop_queue_prefix(&mut self, side: Side, price: Price, head: Option<usize>, k: Ghost<int>)
        requires
            old(self).structure_ok(),
            (price as int) < old(self).max_price(),
            0 <= k@ <= old(self).queue(side, price as int).len(),
            head == (if k@ < old(self).queue(side, price as int).len() {
                Some(old(self).queue(side, price as int)[k@])
            } else {
                None::<usize>
            }),
        ensures
            final(self).structure_ok(),
            final(self).queue(side, price as int) == old(self).queue(side, price as int).subrange(
                k@,
                old(self).queue(side, price as int).len() as int,
            ),
            forall|p: int|
                0 <= p < old(self).max_price() && p != price ==> final(self).queue(side, p) == old(
                    self,
                ).queue(side, p),
            final(self).queues(side).len() == old(self).queues(side).len(),
            final(self).queues(side.spec_opposite()) == old(self).queues(side.spec_opposite()),
            final(self).levels(side.spec_opposite()) == old(self).levels(side.spec_opposite()),
            final(self).arena == old(self).arena,
            final(self).homes == old(self).homes,
            final(self).order_index == old(self).order_index,
            final(self).bid_max == old(self).bid_max,
            final(self).ask_min == old(self).ask_min,
            final(self).next_order_id == old(self).next_order_id,
            final(self).trades == old(self).trades,
    {
        let ghost pre = *self;
        let ghost q = pre.queue(side, price as int);
        let ghost nq = q.subrange(k@, q.len() as int);
        let pi = price as usize;
        let mut pp = match side {
            Side::Buy => self.bids[pi],
            Side::Sell => self.asks[pi],
        };
        assert(level_ok(pp, q, pre.arena@));
        let ghost old_pp = pp;
        pp.first_order_idx = head;
        if head.is_none() {
            pp.last_order_idx = None;
        }
        match side {
            Side::Buy => {
                self.bids.set(pi, pp);
                self.bid_queues = Ghost(self.bid_queues@.update(pi as int, nq));
            },
            Side::Sell => {
                self.asks.set(pi, pp);
                self.ask_queues = Ghost(self.ask_queues@.update(pi as int, nq));
            },
        }
        proof {
            lemma_level_suffix(old_pp, q, k@, pre.arena@);
            assert(self.levels(side) =~= pre.levels(side).update(price as int, pp));
            assert(self.queues(side) =~= pre.queues(side).update(price as int, nq));
            assert forall|i: int| 0 <= i < nq.len() implies self.homes@[#[trigger] nq[i] as int] == (
            side,
            price as int,
            ) by {
                assert(nq[i] == q[i + k@]);
            }
            self.lemma_replace_level(pre, side, price as int);
        }
    }

    /// Fills `*remaining` for `trader` on `side` against the orders resting
    /// at `price` on the other side, oldest first, skipping dead slots.
    /// Filled orders leave the id index; the slots walked past leave the
    /// queue. Returns the trades and, for each, its position in the queue.
    fn match_at_price(
        &mut self,
        side: Side,
        trader: TraderId,
        price: Price,
        remaining: &mut Quantity,
    ) -> (r: (Vec<Trade>, Ghost<Seq<int>>))
        requires
            old(self).structure_ok(),
            (price as int) < old(self).max_price(),
        ensures
            final(self).structure_ok(),
            same_layout(old(self).arena@, final(self).arena@),
            final(self).homes == old(self).homes,
            final(self).queues(side) == old(self).queues(side),
            final(self).levels(side) == old(self).levels(side),
            final(self).queues(side.spec_opposite()).len() == old(self).queues(
                side.spec_opposite(),
            ).len(),
            forall|p: int|
                0 <= p < old(self).max_price() && p != price ==> final(self).queue(
                    side.spec_opposite(),
                    p,
                ) == old(self).queue(side.spec_opposite(), p),
            ({
                let q = old(self).queue(side.spec_opposite(), price as int);
                let nq = final(self).queue(side.spec_opposite(), price as int);
                &&& final(self).level_shrunk(*old(self), side.spec_opposite(), price as int)
                &&& live_sum(final(self).arena@, q) + total_quantity(r.0@) == live_sum(old(self).arena@, q)
                &&& *final(remaining) > 0 ==> nq.len() == 0
                &&& *final(remaining) > 0 ==> forall|i: int|
                    0 <= i < q.len() ==> (#[trigger] final(self).arena@[q[i] as int]).quantity == 0
                &&& forall|j: int|
                    0 <= j < r.0@.len() && (#[trigger] r.0@[j]).quantity < old(self).arena@[q[r.1@[j]] as int].quantity
                        ==> j == r.0@.len() - 1 && *final(remaining) == 0
                &&& forall|j: int|
                    0 <= j < r.0@.len() && (#[trigger] r.0@[j]).quantity == old(self).arena@[q[r.1@[j]] as int].quantity
                        ==> r.1@[j] < q.len() - nq.len()
            }),
            forall|s: int|
                0 <= s < old(self).arena@.len() && old(self).homes@[s] != (
                    side.spec_opposite(),
                    price as int,
                ) ==> (#[trigger] final(self).arena@[s]).quantity == old(self).arena@[s].quantity,
            r.0@.len() == r.1@.len(),
            forall|j: int|
                0 <= j < r.0@.len() ==> #[trigger] final(self).fills_resting(
                    *old(self),
                    side,
                    trader,
                    r.0@[j],
                    r.1@[j],
                ),
            forall|j: int| 0 <= j < r.0@.len() ==> (#[trigger] r.0@[j]).price == price,
            forall|j: int, j2: int| 0 <= j < j2 < r.1@.len() ==> r.1@[j] < r.1@[j2],
            final(self).only_fills_changed(*old(self), side, r.0@, r.1@),
            total_quantity(r.0@) + *final(remaining) == *old(remaining),
            final(self).bid_max == old(self).bid_max,
            final(self).ask_min == old(self).ask_min,
            final(self).next_order_id == old(self).next_order_id,
            final(self).trades == old(self).trades,
            forall|k: OrderId| #[trigger] final(self).order_index@.contains_key(k) ==> old(self).order_index@.contains_key(k) && final(self).order_index@[k] == old(self).order_index@[k],
            final(self).arena.spec_capacity() == old(self).arena.spec_capacity(),
    {
        let ghost pre = *self;
        let opp = side.opposite();
        let ghost c = pre.queue(opp, price as int);
        assert(level_ok(pre.levels(opp)[price as int], pre.queues(opp)[price as int], pre.arena@));
        let mut cur = self.level_head(opp, price);
        let mut trades: Vec<Trade> = Vec::new();
        let ghost mut pos: Seq<int> = Seq::empty();
        let ghost mut k: int = 0;
        while *remaining > 0 && cur.is_some()
            invariant
                self.structure_ok(),
                opp == side.spec_opposite(),
                c == pre.queue(opp, price as int),
                level_ok(pre.levels(opp)[price as int], c, pre.arena@),
                (price as int) < pre.max_price(),
                0 <= k <= c.len(),
                cur == (if k < c.len() {
                    Some(c[k])
                } else {
                    None::<usize>
                }),
                same_layout(pre.arena@, self.arena@),
                self.arena.spec_capacity() == pre.arena.spec_capacity(),
                forall|k: OrderId| #[trigger] self.order_index@.contains_key(k) ==> pre.order_index@.contains_key(k) && self.order_index@[k] == pre.order_index@[k],
                self.homes == pre.homes,
                self.bids == pre.bids,
                self.asks == pre.asks,
                self.bid_queues == pre.bid_queues,
                self.ask_queues == pre.ask_queues,
                self.bid_max == pre.bid_max,
                self.ask_min == pre.ask_min,
                self.next_order_id == pre.next_order_id,
                self.trades == pre.trades,
                forall|i: int| 0 <= i < k ==> self.arena@[#[trigger] c[i] as int].quantity == 0,
                forall|i: int|
                    k < i < c.len() ==> self.arena@[#[trigger] c[i] as int].quantity
                        == pre.arena@[c[i] as int].quantity,
                *remaining > 0 && k < c.len() ==> self.arena@[c[k] as int].quantity
                    == pre.arena@[c[k] as int].quantity,
                forall|s: int|
                    0 <= s < pre.arena@.len() && pre.homes@[s] != (opp, price as int) ==> (
                    #[trigger] self.arena@[s]).quantity == pre.arena@[s].quantity,
                trades@.len() == pos.len(),
                forall|j: int|
                    0 <= j < trades@.len() ==> #[trigger] self.fills_resting(
                        pre,
                        side,
                        trader,
                        trades@[j],
                        pos[j],
                    ),
                forall|j: int| 0 <= j < trades@.len() ==> (#[trigger] trades@[j]).price == price,
                forall|j: int|
                    0 <= j < pos.len() ==> (#[trigger] pos[j] < k || (pos[j] == k && *remaining
                        == 0)),
                forall|j: int, j2: int| 0 <= j < j2 < pos.len() ==> pos[j] < pos[j2],
                self.only_fills_changed(pre, side, trades@, pos),
                forall|j: int|
                    0 <= j < trades@.len() && (#[trigger] trades@[j]).quantity < pre.arena@[c[pos[j]] as int].quantity
                        ==> j == trades@.len() - 1 && *remaining == 0,
                forall|j: int|
                    0 <= j < trades@.len() && pos[j] == k ==> (#[trigger] trades@[j]).quantity < pre.arena@[c[pos[j]] as int].quantity,
                live_sum(self.arena@, c) + total_quantity(trades@) == live_sum(pre.arena@, c),
                total_quantity(trades@) + *remaining == *old(remaining),
            decreases c.len() - k, *remaining,
        {
            let idx = cur.unwrap();
            let ghost mid = *self;
            let e = *self.arena.get(idx).unwrap();
            assert(c[k] < pre.arena@.len());
            assert(pre.homes@[c[k] as int] == (opp, price as int));
            if e.quantity > 0 {
                let ghost before_fill = self.arena@;
                let fill = self.take_from_slot(idx, remaining);
                proof {
                    lemma_live_sum_update(before_fill, c, idx, self.arena@[idx as int]);
                    assert(before_fill.update(idx as int, self.arena@[idx as int]) == self.arena@);
                    assert(c.contains(idx)) by {
                        assert(c[k] == idx);
                    }
                }
                let left = e.quantity - fill;
                let t = match side {
                    Side::Buy => Trade::new(trader, e.trader, price, fill),
                    Side::Sell => Trade::new(e.trader, trader, price, fill),
                };
                let ghost old_trades = trades@;
                trades.push(t);
                proof {
                    assert forall|j: int| 0 <= j < pos.len() implies pos[j] < k by {
                        assert(mid.fills_resting(pre, side, trader, trades@[j], pos[j]));
                    }
                    assert(trades@.drop_last() =~= old_trades);
                    assert forall|j: int| 0 <= j < old_trades.len() implies #[trigger] self.fills_resting(
                        pre,
                        side,
                        trader,
                        trades@[j],
                        pos[j],
                    ) by {
                        assert(trades@[j] == old_trades[j]);
                        assert(mid.fills_resting(pre, side, trader, old_trades[j], pos[j]));
                        assert forall|i: int| 0 <= i <= pos[j] implies c[i] != idx by {
                            assert(c[k] == idx);
                        }
                        lemma_fill_kept(pre, mid, *self, side, trader, old_trades[j], pos[j], idx as int);
                    }
                    assert(self.fills_resting(pre, side, trader, t, k));
                    pos = pos.push(k);
                    assert(trades@[trades@.len() - 1] == t);
                    assert(left > 0 ==> *remaining == 0);
                    assert(forall|j: int| 0 <= j < old_trades.len() ==> pos[j] < k);
                }
                if left == 0 {
                    cur = e.next_idx;
                    proof {
                        k = k + 1;
                    }
                }
            } else {
                cur = e.next_idx;
                proof {
                    k = k + 1;
                }
            }
        }
        let ghost before = *self;
        self.drop_queue_prefix(opp, price, cur, Ghost(k));
        assert forall|j: int| 0 <= j < trades@.len() implies #[trigger] self.fills_resting(
            pre,
            side,
            trader,
            trades@[j],
            pos[j],
        ) && trades@[j].price == price by {
            assert(before.fills_resting(pre, side, trader, trades@[j], pos[j]));
        }
        (trades, Ghost(pos))
    }

    /// `ts`, with queue positions `pos`, are fills for `trader` on `side`
    /// with limit `limit` against the orders resting in `pre`, best price
    /// first and in queue order within a price.
    pub open spec fn fills_in_order(
        &self,
        pre: OrderBook,
        side: Side,
        trader: TraderId,
        limit: Price,
        ts: Seq<Trade>,
        pos: Seq<int>,
    ) -> bool {
        &&& pos.len() == ts.len()
        &&& in_priority_order(ts, pos, side)
        &&& forall|j: int|
            0 <= j < ts.len() ==> #[trigger] self.fills_resting(pre, side, trader, ts[j], pos[j])
        &&& forall|j: int| 0 <= j < ts.len() ==> within_limit(side, (#[trigger] ts[j]).price, limit)
        &&& self.only_fills_changed(pre, side, ts, pos)
        &&& self.full_fills_dropped(pre, side, ts, pos)
    }

    /// Price priority: no queue on the other side at a price better than
    /// that of one of the trades `ts` of an order on `side` holds any slot.
    pub open spec fn cleared_ahead(&self, side: Side, ts: Seq<Trade>) -> bool {
        match side {
            Side::Buy => forall|j: int, q: int|
                #![trigger ts[j], self.queue(Side::Sell, q)]
                0 <= j < ts.len() && 0 <= q < ts[j].price ==> self.queue(Side::Sell, q).len() == 0,
            Side::Sell => forall|j: int, q: int|
                #![trigger ts[j], self.queue(Side::Buy, q)]
                0 <= j < ts.len() && ts[j].price < q < self.max_price() ==> self.queue(Side::Buy, q).len() == 0,
        }
    }

    /// Every order of `pre` whose quantity differs here was filled by one of
    /// the trades `ts` (at the queue positions `pos`) of an order on `side`.
    pub open spec fn only_fills_changed(
        &self,
        pre: OrderBook,
        side: Side,
        ts: Seq<Trade>,
        pos: Seq<int>,
    ) -> bool {
        forall|s: int|
            0 <= s < pre.entries().len() && #[trigger] self.entries()[s].quantity != pre.entries()[s].quantity
                ==> exists|j: int|
                0 <= j < ts.len() && pre.queue(side.spec_opposite(), (#[trigger] ts[j]).price as int)[pos[j]] == s
    }

    /// The queue at `p` on `side` is what is left of `pre`'s once some of
    /// its first slots were dropped, and each dropped slot was left with
    /// nothing.
    pub open spec fn level_shrunk(&self, pre: OrderBook, side: Side, p: int) -> bool {
        let q = pre.queue(side, p);
        let nq = self.queue(side, p);
        &&& nq.len() <= q.len()
        &&& nq == q.subrange(q.len() - nq.len(), q.len() as int)
        &&& forall|i: int|
            0 <= i < q.len() - nq.len() ==> (#[trigger] self.entries()[q[i] as int]).quantity == 0
    }

    /// Every trade of `ts` (at the queue positions `pos`) that took all of
    /// the order it filled has taken that order, and all ahead of it, out of
    /// its queue.
    pub open spec fn full_fills_dropped(&self, pre: OrderBook, side: Side, ts: Seq<Trade>, pos: Seq<int>) -> bool {
        forall|j: int|
            0 <= j < ts.len() && (#[trigger] ts[j]).quantity == pre.entries()[pre.queue(
                side.spec_opposite(),
                ts[j].price as int,
            )[pos[j]] as int].quantity ==> pos[j] < pre.queue(side.spec_opposite(), ts[j].price as int).len()
                - self.queue(side.spec_opposite(), ts[j].price as int).len()
    }

    /// `ts` are the trades of an order of `trader` on `side` with limit
    /// `limit` that met the book `pre` and left this one.
    pub open spec fn matched(
        &self,
        pre: OrderBook,
        side: Side,
        trader: TraderId,
        limit: Price,
        ts: Seq<Trade>,
    ) -> bool {
        exists|pos: Seq<int>| #[trigger] self.fills_in_order(pre, side, trader, limit, ts, pos)
    }

    /// Quantity left on the orders of the other side that an order on `side`
    /// with limit `limit` could trade against: the ask queues at `0 ..= limit`
    /// for a buy, the bid queues at `limit ..` for a sell.
    pub open spec fn marketable(&self, side: Side, limit: Price) -> nat {
        match side {
            Side::Buy => level_sums(*self, self.entries(), Side::Sell, 0, limit + 1),
            Side::Sell => level_sums(*self, self.entries(), Side::Buy, limit as int, self.max_price() as int),
        }
    }

    /// Whether the other side holds at least `quantity` that an order on
    /// `side` with limit `limit` could trade against. Reads the book only.
    fn fillable(&self, side: Side, limit: Price, quantity: Quantity) -> (r: bool)
        requires
            self.structure_ok(),
            (limit as int) < self.max_price(),
        ensures
            r == (self.marketable(side, limit) >= quantity),
    {
        let opp = side.opposite();
        let (lo, end): (usize, usize) = match side {
            Side::Buy => (0, limit as usize + 1),
            Side::Sell => (limit as usize, self.bids.len()),
        };
        let mut p: usize = lo;
        let mut acc: u64 = 0;
        if quantity == 0 {
            return true;
        }
        while p < end
            invariant
                self.structure_ok(),
                opp == side.spec_opposite(),
                lo <= p <= end <= self.max_price(),
                side == Side::Buy ==> lo == 0 && end == limit + 1,
                side == Side::Sell ==> lo == limit && end == self.max_price(),
                acc == level_sums(*self, self.arena@, opp, lo as int, p as int),
                acc < quantity,
            decreases end - p,
        {
            let ghost c = self.queue(opp, p as int);
            assert(level_ok(self.levels(opp)[p as int], self.queues(opp)[p as int], self.arena@));
            let mut cur = self.level_head(opp, p as Price);
            let ghost mut k: int = 0;
            let mut lacc: u64 = acc;
            while cur.is_some()
                invariant
                    self.structure_ok(),
                    c == self.queue(opp, p as int),
                    level_ok(self.levels(opp)[p as int], c, self.arena@),
                    0 <= k <= c.len(),
                    cur == (if k < c.len() {
                        Some(c[k])
                    } else {
                        None::<usize>
                    }),
                    lacc == acc + live_sum(self.arena@, c.subrange(0, k)),
                    lacc < quantity,
                    opp == side.spec_opposite(),
                    side == Side::Buy ==> lo == 0 && end == limit + 1,
                    side == Side::Sell ==> lo == limit && end == self.max_price(),
                    lo <= p < end <= self.max_price(),
                    acc == level_sums(*self, self.arena@, opp, lo as int, p as int),
                decreases c.len() - k,
            {
                let idx = cur.unwrap();
                let e = self.arena.get(idx).unwrap();
                lacc = lacc + e.quantity as u64;
                proof {
                    assert(c.subrange(0, k + 1).drop_last() =~= c.subrange(0, k));
                    k = k + 1;
                }
                if lacc >= quantity as u64 {
                    proof {
                        lemma_live_sum_prefix(self.arena@, c, k);
                        lemma_level_sums_mono(*self, self.arena@, opp, lo as int, p + 1, end as int);
                        assert(self.queue(opp, p as int) == c);
                        assert(level_sums(*self, self.arena@, opp, lo as int, p + 1) == level_sums(
                            *self,
                            self.arena@,
                            opp,
                            lo as int,
                            p as int,
                        ) + live_sum(self.arena@, c));
                        assert(self.marketable(side, limit) == level_sums(*self, self.arena@, opp, lo as int, end as int));
                    }
                    return true;
                }
                cur = e.next_idx;
            }
            proof {
                assert(c.subrange(0, k) =~= c);
            }
            acc = lacc;
            p = p + 1;
        }
        false
    }

    /// Submits a limit order of `trader` for `quantity` at `price` on
    /// `side`. It first trades against the other side, best price first and
    /// oldest first within a price, each trade at the resting order's price;
    /// what is left rests at `price`. Returns the order's id and its trades.
    ///
    /// Refused, with the book unchanged: a zero price or quantity
    /// (`InvalidOrder`), a price outside the book (`InvalidPrice`), and,
    /// while every arena slot is taken, an order that the other side cannot
    /// fill in full, since its rest would need a slot (`OrderBookFull`).
    pub fn limit_order(
        &mut self,
        trader: TraderId,
        side: Side,
        price: Price,
        quantity: Quantity,
    ) -> (r: Result<(OrderId, Vec<Trade>), OrderError>)
        requires
            old(self).wf(),
            old(self).spec_next_order_id() < u64::MAX,
        ensures
            final(self).wf(),
            final(self).max_price() == old(self).max_price(),
            r.is_err() ==> *final(self) == *old(self),
            (r == Err::<(OrderId, Vec<Trade>), OrderError>(OrderError::InvalidOrder)) == (quantity
                == 0 || price == 0),
            (r == Err::<(OrderId, Vec<Trade>), OrderError>(OrderError::InvalidPrice)) == (quantity
                > 0 && price > 0 && price >= old(self).max_price()),
            r.is_ok() == (quantity > 0 && price > 0 && price < old(self).max_price() && (old(
                self,
            ).slots_used() < old(self).slot_capacity() || old(self).marketable(side, price) >= quantity)),
            (r == Err::<(OrderId, Vec<Trade>), OrderError>(OrderError::OrderBookFull)) == (quantity
                > 0 && price > 0 && price < old(self).max_price() && old(self).slots_used() >= old(
                self,
            ).slot_capacity() && old(self).marketable(side, price) < quantity),
            match r {
                Ok((id, ts)) => {
                    &&& id == old(self).spec_next_order_id()
                    &&& final(self).spec_next_order_id() == id + 1
                    &&& final(self).trade_log() == old(self).trade_log() + ts@
                    &&& final(self).matched(*old(self), side, trader, price, ts@)
                    &&& final(self).cleared_ahead(side, ts@)
                    &&& total_quantity(ts@) + final(self).resting_quantity(id) == quantity
                    &&& final(self).is_resting(id) ==> final(self).entries()[final(self).slot_of(id)].trader
                        == trader && final(self).entries()[final(self).slot_of(id)].order_id == id
                    &&& final(self).is_resting(id) ==> final(self).queue(side, price as int)
                        == old(self).queue(side, price as int).push(final(self).slot_of(id) as usize)
                    &&& !final(self).is_resting(id) ==> final(self).queue(side, price as int)
                        == old(self).queue(side, price as int)
                    &&& forall|p: int|
                        0 <= p < old(self).max_price() && p != price ==> #[trigger] final(self).queue(
                            side,
                            p,
                        ) == old(self).queue(side, p)
                    &&& final(self).slot_capacity() == old(self).slot_capacity()
                    &&& final(self).slots_used() == old(self).slots_used() + if final(self).is_resting(id) {
                        1int
                    } else {
                        0int
                    }
                    &&& forall|p: int|
                        0 <= p < old(self).max_price() ==> #[trigger] final(self).level_shrunk(
                            *old(self),
                            side.spec_opposite(),
                            p,
                        )
                    &&& forall|p: int|
                        0 <= p < old(self).max_price() && #[trigger] final(self).queue(side.spec_opposite(), p)
                            != old(self).queue(side.spec_opposite(), p) ==> within_limit(side, p as Price, price)
                            && (final(self).is_resting(id) || (ts@.len() > 0 && within_limit(
                            side,
                            p as Price,
                            ts@.last().price,
                        )))
                    &&& side == Side::Buy ==> final(self).spec_best_bid() == if final(self).is_resting(id) {
                        Some(match old(self).spec_best_bid() {
                            Some(b) => if b >= price {
                                b
                            } else {
                                price
                            },
                            None => price,
                        })
                    } else {
                        old(self).spec_best_bid()
                    }
                    &&& side == Side::Sell ==> final(self).spec_best_ask() == if final(self).is_resting(id) {
                        Some(match old(self).spec_best_ask() {
                            Some(a) => if a <= price {
                                a
                            } else {
                                price
                            },
                            None => price,
                        })
                    } else {
                        old(self).spec_best_ask()
                    }
                    &&& forall|k: OrderId|
                        #[trigger] final(self).is_resting(k) ==> old(self).is_resting(k) || k == id
                    &&& forall|k: OrderId|
                        k != id && #[trigger] final(self).is_resting(k) ==> final(self).slot_of(k) == old(
                            self,
                        ).slot_of(k)
                    &&& forall|k: OrderId|
                        k != id && #[trigger] old(self).is_resting(k) ==> (final(self).is_resting(k)
                            <==> final(self).entries()[old(self).slot_of(k)].quantity > 0)
                },
                Err(_) => true,
            },
    {
        if quantity == 0 || price == 0 {
            return Err(OrderError::InvalidOrder);
        }
        if price as usize >= self.bids.len() {
            return Err(OrderError::InvalidPrice);
        }
        if self.arena.len() >= self.arena.capacity() && !self.fillable(side, price, quantity) {
            return Err(OrderError::OrderBookFull);
        }
        let ghost pre = *self;
        let order_id = self.next_order_id;
        let mut remaining = quantity;
        let (trades, Ghost(pos)) = match side {
            Side::Buy => self.sweep_asks(trader, price, &mut remaining),
            Side::Sell => self.sweep_bids(trader, price, &mut remaining),
        };
        proof {
            lemma_total_quantity_nonneg(trades@);
            assert(forall|j: int| 0 <= j < trades@.len() ==> within_limit(side, (#[trigger] trades@[j]).price, price));
        }
        let ghost swept = *self;
        self.next_order_id = order_id + 1;
        proof {
            self.lemma_layout_keeps_sides(swept);
            assert forall|k: OrderId| #[trigger] self.order_index@.contains_key(k) implies k < order_id by {
                assert(swept.order_index@.contains_key(k));
            }
            assert(self.index_ok());
        }
        let ghost bumped = *self;
        if remaining > 0 {
            proof {
                if side == Side::Buy {
                    if let Some(a) = self.ask_min {
                        assert(self.queue(Side::Sell, a as int).len() > 0);
                        assert(swept.queue(Side::Sell, a as int).len() > 0);
                        assert(self.ask_queues@[a as int].len() > 0);
                    }
                } else {
                    if let Some(b) = self.bid_max {
                        assert(swept.queue(Side::Buy, b as int).len() > 0);
                        assert(self.bid_queues@[b as int].len() > 0);
                    }
                }
            }
            self.rest_order(order_id, trader, side, price, remaining);
        }
        let ghost rested = *self;
        let mut i: usize = 0;
        while i < trades.len()
            invariant
                i <= trades@.len(),
                self.trades@ == pre.trades@ + trades@.subrange(0, i as int),
                self.arena == rested.arena,
                self.bids == rested.bids,
                self.asks == rested.asks,
                self.bid_queues == rested.bid_queues,
                self.ask_queues == rested.ask_queues,
                self.homes == rested.homes,
                self.order_index == rested.order_index,
                self.bid_max == rested.bid_max,
                self.ask_min == rested.ask_min,
                self.next_order_id == rested.next_order_id,
            decreases trades@.len() - i,
        {
            self.trades.push(trades[i]);
            i = i + 1;
            proof {
                assert(trades@.subrange(0, i as int) =~= trades@.subrange(0, i - 1).push(trades@[i - 1]));
            }
        }
        proof {
            assert(trades@.subrange(0, trades@.len() as int) =~= trades@);
            assert(self.side_ok(Side::Buy) == rested.side_ok(Side::Buy));
            assert(self.side_ok(Side::Sell) == rested.side_ok(Side::Sell));
            assert(self.index_ok() == rested.index_ok());
            assert(self.caches_ok() == rested.caches_ok());
            assert(self.uncrossed() == rested.uncrossed());
            assert forall|j: int| 0 <= j < trades@.len() implies #[trigger] self.fills_resting(
                pre,
                side,
                trader,
                trades@[j],
                pos[j],
            ) by {
                assert(swept.fills_resting(pre, side, trader, trades@[j], pos[j]));
                lemma_fill_grown(pre, swept, rested, side, trader, trades@[j], pos[j]);
                assert(rested.fills_resting(pre, side, trader, trades@[j], pos[j]));
            }
            assert(self.fills_in_order(pre, side, trader, price, trades@, pos));
            assert(self.matched(pre, side, trader, price, trades@));
            assert(self.index_ok());
            assert(same_layout(pre.arena@, swept.arena@));
            assert forall|k: OrderId| k != order_id && #[trigger] self.is_resting(k) implies self.slot_of(k) == pre.slot_of(k) by {
                assert(self.order_index@.contains_key(k));
                assert(rested.order_index@.contains_key(k));
                assert(bumped.order_index@.contains_key(k));
                assert(swept.order_index@.contains_key(k));
            }
            assert forall|k: OrderId| k != order_id && #[trigger] pre.is_resting(k) implies (self.is_resting(k)
                <==> self.entries()[pre.slot_of(k)].quantity > 0) by {
                assert(pre.order_index@.contains_key(k));
                let sl = pre.order_index@[k] as int;
                assert(pre.index_ok());
                assert(pre.arena@[sl].order_id == k);
                assert(swept.arena@[sl].order_id == k);
                assert(self.arena@[sl].order_id == k);
                if self.is_resting(k) {
                    assert(self.order_index@.contains_key(k));
                    assert(rested.order_index@.contains_key(k));
                    assert(bumped.order_index@.contains_key(k));
                    assert(swept.order_index@.contains_key(k));
                    assert(self.order_index@[k] == sl);
                }
                if self.arena@[sl].quantity > 0 {
                    assert(self.order_index@.contains_key(self.arena@[sl].order_id));
                }
            }
            let opp = side.spec_opposite();
            assert(self.queues(opp) == swept.queues(opp));
            assert(swept.arena@.len() == pre.arena@.len());
            assert forall|p: int| 0 <= p < pre.max_price() implies #[trigger] self.level_shrunk(pre, opp, p) by {
                assert(swept.level_shrunk(pre, opp, p));
                assert(self.queue(opp, p) == self.queues(opp)[p]);
                assert(swept.queue(opp, p) == swept.queues(opp)[p]);
                let q = pre.queue(opp, p);
                assert(q == pre.queues(opp)[p]);
                assert(pre.side_ok(opp)) by {
                    if side == Side::Buy {
                        assert(pre.side_ok(Side::Sell));
                    } else {
                        assert(pre.side_ok(Side::Buy));
                    }
                }
                assert(level_ok(pre.levels(opp)[p], q, pre.arena@));
                assert forall|i: int| 0 <= i < q.len() - self.queue(opp, p).len() implies (#[trigger] self.arena@[q[i] as int]).quantity == 0 by {
                    assert(swept.arena@[q[i] as int].quantity == 0);
                    assert(q[i] < pre.arena@.len());
                    assert(rested.arena@[q[i] as int].quantity == bumped.arena@[q[i] as int].quantity);
                }
            }
            assert forall|p: int|
                0 <= p < pre.max_price() && #[trigger] self.queue(opp, p) != pre.queue(opp, p) implies within_limit(side, p as Price, price)
                && (self.is_resting(order_id) || (trades@.len() > 0 && within_limit(side, p as Price, trades@.last().price))) by {
                assert(self.queue(opp, p) == self.queues(opp)[p]);
                assert(swept.queue(opp, p) == swept.queues(opp)[p]);
                assert(swept.queue(opp, p) != pre.queue(opp, p));
            }
            assert(swept.queues(side) == pre.queues(side));
            assert(self.queues(side.spec_opposite()) == swept.queues(side.spec_opposite()));
            assert(self.max_price() == swept.max_price());
            if side == Side::Buy {
                assert(swept.cleared_ahead(Side::Buy, trades@));
                assert forall|j: int, q: int|
                    #![trigger trades@[j], self.queue(Side::Sell, q)]
                    0 <= j < trades@.len() && 0 <= q < trades@[j].price implies self.queue(Side::Sell, q).len() == 0 by {
                    assert(swept.queue(Side::Sell, q).len() == 0);
                    assert(self.queue(Side::Sell, q) == self.queues(Side::Sell)[q]);
                    assert(swept.queue(Side::Sell, q) == swept.queues(Side::Sell)[q]);
                }
            } else {
                assert(swept.cleared_ahead(Side::Sell, trades@));
                assert forall|j: int, q: int|
                    #![trigger trades@[j], self.queue(Side::Buy, q)]
                    0 <= j < trades@.len() && trades@[j].price < q < self.max_price() implies self.queue(Side::Buy, q).len() == 0 by {
                    assert(swept.queue(Side::Buy, q).len() == 0);
                    assert(self.queue(Side::Buy, q) == self.queues(Side::Buy)[q]);
                    assert(swept.queue(Side::Buy, q) == swept.queues(Side::Buy)[q]);
                }
            }
            assert forall|p: int|
                0 <= p < pre.max_price() && (p != price || !self.is_resting(order_id)) implies #[trigger] self.queue(side, p)
                == pre.queue(side, p) by {
                assert(self.queue(side, p) == rested.queue(side, p));
                assert(bumped.queue(side, p) == swept.queue(side, p));
                assert(swept.queue(side, p) == swept.queues(side)[p]);
                assert(pre.queue(side, p) == pre.queues(side)[p]);
            }
            if remaining > 0 {
                assert(self.resting_quantity(order_id) == remaining);
            } else {
                assert(!bumped.order_index@.contains_key(order_id));
                assert(!self.is_resting(order_id));
            }
        }
        Ok((order_id, trades))
    }

    /// Rests `quantity` of order `order_id` at `price` on `side`: a fresh
    /// arena slot is linked at the tail of that price's queue, indexed
    /// under `order_id`, and the side's best price is raised to `price`
    /// when it is better.
    #[verifier::rlimit(100)]
    fn rest_order(
        &mut self,
        order_id: OrderId,
        trader: TraderId,
        side: Side,
        price: Price,
        quantity: Quantity,
    )
        requires
            old(self).structure_ok(),
            old(self).caches_ok(),
            old(self).uncrossed(),
            (price as int) < old(self).max_price(),
            quantity > 0,
            old(self).arena@.len() < old(self).arena.spec_capacity(),
            order_id < old(self).next_order_id,
            forall|k: OrderId| #[trigger] old(self).order_index@.contains_key(k) ==> k < order_id,
            side == Side::Buy ==> (old(self).ask_min matches Some(a) ==> price < a),
            side == Side::Sell ==> (old(self).bid_max matches Some(b) ==> b < price),
        ensures
            final(self).wf(),
            final(self).arena@.len() == old(self).arena@.len() + 1,
            final(self).arena@[old(self).arena@.len() as int] == (OrderEntry {
                order_id,
                trader,
                quantity,
                next_idx: None,
            }),
            forall|s: int|
                0 <= s < old(self).arena@.len() ==> (#[trigger] final(self).arena@[s]).quantity
                    == old(self).arena@[s].quantity && final(self).arena@[s].trader == old(
                    self,
                ).arena@[s].trader && final(self).arena@[s].order_id == old(self).arena@[s].order_id,
            final(self).order_index@ == old(self).order_index@.insert(
                order_id,
                old(self).arena@.len() as usize,
            ),
            final(self).queue(side, price as int) == old(self).queue(side, price as int).push(
                old(self).arena@.len() as usize,
            ),
            forall|p: int|
                0 <= p < old(self).max_price() && p != price ==> #[trigger] final(self).queue(side, p)
                    == old(self).queue(side, p),
            final(self).queues(side.spec_opposite()) == old(self).queues(side.spec_opposite()),
            final(self).next_order_id == old(self).next_order_id,
            final(self).trades == old(self).trades,
            final(self).arena.spec_capacity() == old(self).arena.spec_capacity(),
            side == Side::Buy ==> final(self).ask_min == old(self).ask_min && final(self).bid_max
                == Some(match old(self).bid_max {
                Some(b) => if b >= price {
                    b
                } else {
                    price
                },
                None => price,
            }),
            side == Side::Sell ==> final(self).bid_max == old(self).bid_max && final(self).ask_min
                == Some(match old(self).ask_min {
                Some(a) => if a <= price {
                    a
                } else {
                    price
                },
                None => price,
            }),
    {
        let ghost pre = *self;
        let ghost q = pre.queue(side, price as int);
        let entry = OrderEntry::new(order_id, trader, quantity);
        let pi = price as usize;
        let pp = match side {
            Side::Buy => self.bids[pi],
            Side::Sell => self.asks[pi],
        };
        assert(pp == pre.levels(side)[price as int]);
        assert(level_ok(pp, q, pre.arena@));
        proof {
            pre.arena.lemma_bounds();
        }
        let slot = self.arena.allocate(entry);
        assert(slot == Some(pre.arena@.len() as usize));
        let idx = slot.unwrap();
        if let Some(last) = pp.last_order_idx {
            self.arena.set_next(last, Some(idx));
        }
        let mut npp = pp;
        npp.push_back(idx);
        self.order_index.insert(order_id, idx);
        let ghost nq = q.push(idx);
        match side {
            Side::Buy => {
                self.bids.set(pi, npp);
                self.bid_queues = Ghost(self.bid_queues@.update(pi as int, nq));
                match self.bid_max {
                    Some(b) => {
                        if price > b {
                            self.bid_max = Some(price);
                        }
                    },
                    None => {
                        self.bid_max = Some(price);
                    },
                }
            },
            Side::Sell => {
                self.asks.set(pi, npp);
                self.ask_queues = Ghost(self.ask_queues@.update(pi as int, nq));
                match self.ask_min {
                    Some(a) => {
                        if price < a {
                            self.ask_min = Some(price);
                        }
                    },
                    None => {
                        self.ask_min = Some(price);
                    },
                }
            },
        }
        self.homes = Ghost(self.homes@.push((side, price as int)));
        proof {
            let n = pre.arena@.len();
            assert(idx == n);
            assert forall|s: int| 0 <= s < n && (q.len() == 0 || s != q.last()) implies self.arena@[s]
                == pre.arena@[s] by {}
            // the new queue is well linked
            assert forall|i: int| 0 <= i < nq.len() implies (#[trigger] nq[i]) < self.arena@.len() by {
                if i < q.len() {
                    assert(nq[i] == q[i]);
                }
            }
            assert forall|i: int| 0 <= i < nq.len() - 1 implies self.arena@[#[trigger] nq[i] as int].next_idx
                == Some(nq[i + 1]) by {
                assert(nq[i] == q[i]);
                if i < q.len() - 1 {
                    assert(q[i] != q.last());
                    assert(q[i] == q[i]);
                }
            }
            assert(nq.no_duplicates()) by {
                assert forall|i: int, j: int| 0 <= i < j < nq.len() implies nq[i] != nq[j] by {
                    if j == q.len() {
                        assert(q[i] < n);
                    } else {
                        assert(q[i] != q[j]);
                    }
                }
            }
            assert(level_ok(npp, nq, self.arena@));
            // the other queues keep their links: none holds the old tail
            assert(pre.side_ok(Side::Buy) && pre.side_ok(Side::Sell));
            assert forall|sd: Side, p: int|
                0 <= p < self.max_price() && !(sd == side && p == price) implies level_ok(
                #[trigger] self.levels(sd)[p],
                self.queues(sd)[p],
                self.arena@,
            ) by {
                assert(self.levels(sd)[p] == pre.levels(sd)[p]);
                assert(self.queues(sd)[p] == pre.queues(sd)[p]);
                let oq = pre.queues(sd)[p];
                assert(pre.side_ok(sd));
                assert(level_ok(pre.levels(sd)[p], oq, pre.arena@));
                assert forall|i: int| 0 <= i < oq.len() implies self.arena@[#[trigger] oq[i] as int]
                    == pre.arena@[oq[i] as int] by {
                    assert(pre.homes@[pre.queues(sd)[p][i] as int] == (sd, p));
                    if q.len() > 0 {
                        assert(pre.homes@[q[q.len() - 1] as int] == (side, price as int));
                        assert(pre.homes@[pre.queues(side)[price as int][q.len() - 1] as int] == (side, price as int));
                    }
                }
                assert forall|i: int| 0 <= i < oq.len() - 1 implies self.arena@[#[trigger] oq[i] as int].next_idx
                    == Some(oq[i + 1]) by {
                    assert(self.arena@[oq[i] as int] == pre.arena@[oq[i] as int]);
                }
                if oq.len() > 0 {
                    assert(self.arena@[oq[oq.len() - 1] as int] == pre.arena@[oq[oq.len() - 1] as int]);
                }
            }
            assert(self.levels(side)[price as int] == npp);
            assert(self.queues(side)[price as int] == nq);
            assert forall|sd: Side, p: int, i: int|
                0 <= p < self.max_price() && 0 <= i < self.queues(sd)[p].len() implies self.homes@[#[trigger] self.queues(
                sd,
            )[p][i] as int] == (sd, p) by {
                assert(pre.side_ok(sd));
                if sd == side && p == price {
                    if i < q.len() {
                        assert(self.queues(sd)[p][i] == pre.queues(sd)[p][i]);
                        assert(pre.homes@[pre.queues(sd)[p][i] as int] == (sd, p));
                        assert(pre.queues(sd)[p][i] < n);
                    } else {
                        assert(self.queues(sd)[p][i] == n);
                    }
                } else {
                    assert(self.queues(sd)[p] == pre.queues(sd)[p]);
                    assert(pre.homes@[pre.queues(sd)[p][i] as int] == (sd, p));
                    assert(level_ok(pre.levels(sd)[p], pre.queues(sd)[p], pre.arena@));
                    assert(pre.queues(sd)[p][i] < n);
                }
            }
            assert(self.side_ok(Side::Buy));
            assert(self.side_ok(Side::Sell));
            assert(self.index_ok());
            assert(self.caches_ok());
            assert(self.uncrossed());
        }
    }

    /// Matches a buy of `*remaining` at limit `limit` against the asks,
    /// lowest price first, then refreshes the best ask.
    fn sweep_asks(&mut self, trader: TraderId, limit: Price, remaining: &mut Quantity) -> (r: (
        Vec<Trade>,
        Ghost<Seq<int>>,
    ))
        requires
            old(self).wf(),
            (limit as int) < old(self).max_price(),
        ensures
            final(self).structure_ok(),
            final(self).caches_ok(),
            final(self).uncrossed(),
            same_layout(old(self).arena@, final(self).arena@),
            final(self).homes == old(self).homes,
            final(self).levels(Side::Buy) == old(self).levels(Side::Buy),
            final(self).queues(Side::Buy) == old(self).queues(Side::Buy),
            final(self).bid_max == old(self).bid_max,
            final(self).next_order_id == old(self).next_order_id,
            final(self).trades == old(self).trades,
            forall|k: OrderId| #[trigger] final(self).order_index@.contains_key(k) ==> old(self).order_index@.contains_key(k) && final(self).order_index@[k] == old(self).order_index@[k],
            final(self).arena.spec_capacity() == old(self).arena.spec_capacity(),
            forall|s: int|
                0 <= s < old(self).arena@.len() && old(self).homes@[s].0 == Side::Buy ==> (
                #[trigger] final(self).arena@[s]).quantity == old(self).arena@[s].quantity,
            *final(remaining) > 0 ==> forall|q: int|
                0 <= q <= limit ==> (#[trigger] final(self).queue(Side::Sell, q)).len() == 0,
            r.0@.len() == r.1@.len(),
            forall|j: int|
                0 <= j < r.0@.len() ==> #[trigger] final(self).fills_resting(
                    *old(self),
                    Side::Buy,
                    trader,
                    r.0@[j],
                    r.1@[j],
                ),
            forall|j: int| 0 <= j < r.0@.len() ==> (#[trigger] r.0@[j]).price <= limit,
            in_priority_order(r.0@, r.1@, Side::Buy),
            final(self).cleared_ahead(Side::Buy, r.0@),
            final(self).only_fills_changed(*old(self), Side::Buy, r.0@, r.1@),
            final(self).full_fills_dropped(*old(self), Side::Buy, r.0@, r.1@),
            total_quantity(r.0@) <= level_sums(*old(self), old(self).arena@, Side::Sell, 0, limit + 1),
            *final(remaining) > 0 ==> total_quantity(r.0@) == level_sums(*old(self), old(self).arena@, Side::Sell, 0, limit + 1),
            forall|p: int| 0 <= p < old(self).max_price() ==> #[trigger] final(self).level_shrunk(*old(self), Side::Sell, p),
            forall|p: int|
                0 <= p < old(self).max_price() && #[trigger] final(self).queue(Side::Sell, p) != old(self).queue(Side::Sell, p)
                    ==> p <= limit && (*final(remaining) > 0 || (r.0@.len() > 0 && p <= r.0@.last().price)),
            total_quantity(r.0@) + *final(remaining) == *old(remaining),
    {
        let ghost pre = *self;
        let mut trades: Vec<Trade> = Vec::new();
        let ghost mut pos: Seq<int> = Seq::empty();
        let start = match self.ask_min {
            Some(a) => a,
            None => 0,
        };
        let mut lo: Price = start;
        let mut next = self.find_next_ask(lo);
        assert forall|q: int| 0 <= q < start implies (#[trigger] pre.queue(Side::Sell, q)).len() == 0 by {
            assert(pre.queue(Side::Sell, q) == pre.ask_queues@[q]);
        }
        assert forall|p: int| 0 <= p < pre.max_price() implies #[trigger] self.level_shrunk(pre, Side::Sell, p) by {
            assert(pre.queue(Side::Sell, p).subrange(0, pre.queue(Side::Sell, p).len() as int) =~= pre.queue(Side::Sell, p));
        }
        while *remaining > 0 && next.is_some() && next.unwrap() <= limit
            invariant
                pre.wf(),
                (limit as int) < pre.max_price(),
                self.structure_ok(),
                same_layout(pre.arena@, self.arena@),
                self.arena.spec_capacity() == pre.arena.spec_capacity(),
                forall|k: OrderId| #[trigger] self.order_index@.contains_key(k) ==> pre.order_index@.contains_key(k) && self.order_index@[k] == pre.order_index@[k],
                self.homes == pre.homes,
                self.levels(Side::Buy) == pre.levels(Side::Buy),
                self.queues(Side::Buy) == pre.queues(Side::Buy),
                self.bid_max == pre.bid_max,
                self.ask_min == pre.ask_min,
                self.next_order_id == pre.next_order_id,
                self.trades == pre.trades,
                self.ask_queues@.len() == pre.ask_queues@.len(),
                start <= lo <= pre.max_price(),
                forall|q: int| 0 <= q < start ==> (#[trigger] pre.queue(Side::Sell, q)).len() == 0,
                forall|q: int|
                    0 <= q < pre.max_price() && pre.queue(Side::Sell, q).len() == 0 ==> (
                    #[trigger] self.queue(Side::Sell, q)).len() == 0,
                forall|s: int|
                    0 <= s < pre.arena@.len() && pre.homes@[s].0 == Side::Buy ==> (
                    #[trigger] self.arena@[s]).quantity == pre.arena@[s].quantity,
                *remaining > 0 ==> forall|q: int|
                    0 <= q < lo ==> (#[trigger] self.queue(Side::Sell, q)).len() == 0,
                *remaining > 0 ==> forall|q: int|
                    lo <= q < pre.max_price() ==> #[trigger] self.queue(Side::Sell, q) == pre.queue(
                        Side::Sell,
                        q,
                    ),
                *remaining > 0 ==> forall|s: int|
                    0 <= s < pre.arena@.len() && pre.homes@[s].1 >= lo ==> (
                    #[trigger] self.arena@[s]).quantity == pre.arena@[s].quantity,
                *remaining > 0 ==> match next {
                    Some(p) => {
                        &&& lo <= p < pre.max_price()
                        &&& self.queue(Side::Sell, p as int).len() > 0
                        &&& forall|q: int|
                            lo <= q < p ==> (#[trigger] self.queue(Side::Sell, q)).len() == 0
                    },
                    None => forall|q: int|
                        lo <= q < pre.max_price() ==> (#[trigger] self.queue(Side::Sell, q)).len()
                            == 0,
                },
                trades@.len() == pos.len(),
                forall|j: int|
                    0 <= j < trades@.len() ==> #[trigger] self.fills_resting(
                        pre,
                        Side::Buy,
                        trader,
                        trades@[j],
                        pos[j],
                    ),
                forall|j: int| 0 <= j < trades@.len() ==> (#[trigger] trades@[j]).price <= limit,
                *remaining > 0 ==> forall|j: int|
                    0 <= j < trades@.len() ==> (#[trigger] trades@[j]).price < lo,
                in_priority_order(trades@, pos, Side::Buy),
                self.cleared_ahead(Side::Buy, trades@),
                self.only_fills_changed(pre, Side::Buy, trades@, pos),
                self.full_fills_dropped(pre, Side::Buy, trades@, pos),
                level_sums(pre, self.arena@, Side::Sell, 0, limit + 1) + total_quantity(trades@) == level_sums(pre, pre.arena@, Side::Sell, 0, limit + 1),
                forall|p: int| 0 <= p < pre.max_price() ==> #[trigger] self.level_shrunk(pre, Side::Sell, p),
                forall|p: int|
                    0 <= p < pre.max_price() && #[trigger] self.queue(Side::Sell, p) != pre.queue(Side::Sell, p)
                        ==> p <= limit && ((*remaining > 0 && p < lo) || (*remaining == 0 && trades@.len() > 0 && p <= trades@.last().price)),
                total_quantity(trades@) + *remaining == *old(remaining),
            decreases pre.max_price() - lo, *remaining,
        {
            let p = next.unwrap();
            let ghost mid = *self;
            let ghost old_trades = trades@;
            let ghost old_pos = pos;
            assert(forall|j: int| 0 <= j < old_trades.len() ==> (#[trigger] old_trades[j]).price < p);
            let (mut fills, Ghost(fpos)) = self.match_at_price(Side::Buy, trader, p, remaining);
            let ghost new_fills = fills@;
            assert(forall|j: int| 0 <= j < new_fills.len() ==> (#[trigger] new_fills[j]).price == p);
            proof {
                assert forall|j: int| 0 <= j < old_trades.len() implies #[trigger] self.fills_resting(
                    pre,
                    Side::Buy,
                    trader,
                    old_trades[j],
                    old_pos[j],
                ) by {
                    assert(mid.fills_resting(pre, Side::Buy, trader, old_trades[j], old_pos[j]));
                    lemma_fill_kept_home(pre, mid, *self, Side::Buy, trader, old_trades[j], old_pos[j], p as int);
                }
                assert forall|j: int| 0 <= j < new_fills.len() implies #[trigger] self.fills_resting(
                    pre,
                    Side::Buy,
                    trader,
                    new_fills[j],
                    fpos[j],
                ) by {
                    assert(self.fills_resting(mid, Side::Buy, trader, new_fills[j], fpos[j]));
                    assert(new_fills[j].price == p);
                    assert(mid.queue(Side::Sell, p as int) == pre.queue(Side::Sell, p as int));
                    let q = pre.queue(Side::Sell, p as int);
                    assert forall|i: int| 0 <= i <= fpos[j] implies mid.arena@[#[trigger] q[i] as int].quantity
                        == pre.arena@[q[i] as int].quantity && mid.arena@[q[i] as int].trader
                        == pre.arena@[q[i] as int].trader by {
                        assert(pre.side_ok(Side::Sell));
                        assert(pre.queues(Side::Sell)[p as int] == q);
                        assert(level_ok(pre.levels(Side::Sell)[p as int], q, pre.arena@));
                        assert(pre.homes@[pre.queues(Side::Sell)[p as int][i] as int] == (Side::Sell, p as int));
                    }
                    lemma_fill_rebase(pre, mid, *self, Side::Buy, trader, new_fills[j], fpos[j]);
                }
                lemma_total_quantity_append(old_trades, new_fills);
                assert(mid.queue(Side::Sell, p as int) == pre.queue(Side::Sell, p as int));
                assert forall|x: int| 0 <= x < limit + 1 && x != p implies live_sum(self.arena@, #[trigger] pre.queue(Side::Sell, x))
                    == live_sum(mid.arena@, pre.queue(Side::Sell, x)) by {
                    let q = pre.queue(Side::Sell, x);
                    assert(pre.side_ok(Side::Sell));
                    assert(q == pre.queues(Side::Sell)[x]);
                    assert(level_ok(pre.levels(Side::Sell)[x], q, pre.arena@));
                    assert forall|i: int| 0 <= i < q.len() implies self.arena@[#[trigger] q[i] as int].quantity == mid.arena@[q[i] as int].quantity by {
                        assert(pre.homes@[pre.queues(Side::Sell)[x][i] as int] == (Side::Sell, x));
                    }
                    lemma_live_sum_agree(self.arena@, mid.arena@, q);
                }
                lemma_level_sums_change(pre, mid.arena@, self.arena@, Side::Sell, 0, limit + 1, p as int);
                lemma_levels_shrunk(pre, mid, *self, Side::Sell, p as int);
                if *remaining == 0 {
                    lemma_total_quantity_positive(new_fills);
                }
            }
            trades.append(&mut fills);
            proof {
                pos = old_pos + fpos;
                assert(trades@ =~= old_trades + new_fills);
                assert forall|j: int| 0 <= j < trades@.len() implies (#[trigger] trades@[j]).price <= limit by {
                    if j >= old_trades.len() {
                        assert(trades@[j] == new_fills[j - old_trades.len()]);
                    }
                }
                lemma_priority_append(old_trades, old_pos, new_fills, fpos, Side::Buy, p);
                assert(mid.full_fills_dropped(pre, Side::Buy, old_trades, old_pos));
                assert forall|j: int|
                    0 <= j < trades@.len() && (#[trigger] trades@[j]).quantity == pre.entries()[pre.queue(
                        Side::Sell,
                        trades@[j].price as int,
                    )[pos[j]] as int].quantity implies pos[j] < pre.queue(Side::Sell, trades@[j].price as int).len()
                    - self.queue(Side::Sell, trades@[j].price as int).len() by {
                    if j < old_trades.len() {
                        assert(trades@[j] == old_trades[j]);
                        assert(pos[j] == old_pos[j]);
                        assert(old_trades[j].price != p);
                        assert(mid.fills_resting(pre, Side::Buy, trader, old_trades[j], old_pos[j]));
                        assert(self.queue(Side::Sell, old_trades[j].price as int) == mid.queue(Side::Sell, old_trades[j].price as int));
                    } else {
                        let jj = j - old_trades.len();
                        assert(trades@[j] == new_fills[jj]);
                        assert(pos[j] == fpos[jj]);
                        assert(new_fills[jj].price == p);
                        let q = pre.queue(Side::Sell, p as int);
                        assert(self.fills_resting(mid, Side::Buy, trader, new_fills[jj], fpos[jj]));
                        assert(pre.side_ok(Side::Sell));
                        assert(q == pre.queues(Side::Sell)[p as int]);
                        assert(level_ok(pre.levels(Side::Sell)[p as int], q, pre.arena@));
                        assert(pre.homes@[pre.queues(Side::Sell)[p as int][fpos[jj]] as int] == (Side::Sell, p as int));
                        assert(mid.arena@[q[fpos[jj]] as int].quantity == pre.arena@[q[fpos[jj]] as int].quantity);
                    }
                }
                assert(mid.only_fills_changed(pre, Side::Buy, old_trades, old_pos));
                assert(self.only_fills_changed(mid, Side::Buy, new_fills, fpos));
                assert(mid.queue(Side::Sell, p as int) == pre.queue(Side::Sell, p as int));
                assert forall|s: int|
                    0 <= s < pre.arena@.len() && #[trigger] self.arena@[s].quantity != pre.arena@[s].quantity implies exists|j: int|
                    0 <= j < trades@.len() && pre.queue(Side::Sell, (#[trigger] trades@[j]).price as int)[pos[j]] == s by {
                    if mid.arena@[s].quantity != pre.arena@[s].quantity {
                        let j = choose|j: int|
                            0 <= j < old_trades.len() && pre.queue(Side::Sell, (#[trigger] old_trades[j]).price as int)[old_pos[j]] == s;
                        assert(trades@[j] == old_trades[j]);
                        assert(pos[j] == old_pos[j]);
                    } else {
                        assert(self.arena@[s].quantity != mid.arena@[s].quantity);
                        let j = choose|j: int|
                            0 <= j < new_fills.len() && mid.queue(Side::Sell, (#[trigger] new_fills[j]).price as int)[fpos[j]] == s;
                        assert(new_fills[j].price == p);
                        assert(trades@[old_trades.len() + j] == new_fills[j]);
                        assert(pos[old_trades.len() + j] == fpos[j]);
                    }
                }
                assert forall|j: int| 0 <= j < trades@.len() implies #[trigger] self.fills_resting(
                    pre,
                    Side::Buy,
                    trader,
                    trades@[j],
                    pos[j],
                ) by {
                    if j >= old_trades.len() {
                        assert(trades@[j] == new_fills[j - old_trades.len()]);
                        assert(pos[j] == fpos[j - old_trades.len()]);
                    } else {
                        assert(trades@[j] == old_trades[j]);
                        assert(pos[j] == old_pos[j]);
                    }
                }
                assert forall|s: int|
                    0 <= s < pre.arena@.len() && pre.homes@[s].0 == Side::Buy implies (
                    #[trigger] self.arena@[s]).quantity == pre.arena@[s].quantity by {
                    assert(mid.arena@[s].quantity == pre.arena@[s].quantity);
                }
            }
            if *remaining > 0 {
                lo = p + 1;
                next = self.find_next_ask(lo);
                proof {
                    assert forall|q: int| 0 <= q < lo implies (#[trigger] self.queue(Side::Sell, q)).len() == 0 by {
                        if q < p {
                            assert(mid.queue(Side::Sell, q).len() == 0);
                        }
                    }
                    assert forall|s: int|
                        0 <= s < pre.arena@.len() && pre.homes@[s].1 >= lo implies (
                        #[trigger] self.arena@[s]).quantity == pre.arena@[s].quantity by {
                        assert(mid.arena@[s].quantity == pre.arena@[s].quantity);
                    }
                }
            }
            proof {
                assert forall|q: int|
                    0 <= q < pre.max_price() && pre.queue(Side::Sell, q).len() == 0 implies (
                    #[trigger] self.queue(Side::Sell, q)).len() == 0 by {
                    assert(mid.queue(Side::Sell, q).len() == 0);
                }
            }
        }
        let ghost after_loop = *self;
        if self.ask_min.is_some() {
            self.ask_min = self.find_next_ask(start);
        }
        proof {
            assert(after_loop.full_fills_dropped(pre, Side::Buy, trades@, pos));
            assert forall|x: int| #[trigger] self.queue(Side::Sell, x) == after_loop.queue(Side::Sell, x) by {}
            if *remaining > 0 {
                assert forall|x: int| 0 <= x < limit + 1 implies #[trigger] after_loop.level_shrunk(pre, Side::Sell, x)
                    && after_loop.queue(Side::Sell, x).len() == 0 by {}
                lemma_emptied_levels(pre, after_loop, Side::Sell, 0, limit + 1);
            }
            assert forall|p: int| 0 <= p < pre.max_price() implies #[trigger] self.level_shrunk(pre, Side::Sell, p) by {
                assert(after_loop.level_shrunk(pre, Side::Sell, p));
            }
            assert forall|p: int|
                0 <= p < pre.max_price() && #[trigger] self.queue(Side::Sell, p) != pre.queue(Side::Sell, p)
                implies after_loop.queue(Side::Sell, p) != pre.queue(Side::Sell, p) by {}
            assert forall|j: int| 0 <= j < trades@.len() implies #[trigger] self.fills_resting(
                pre,
                Side::Buy,
                trader,
                trades@[j],
                pos[j],
            ) by {
                assert(after_loop.fills_resting(pre, Side::Buy, trader, trades@[j], pos[j]));
            }
            if *remaining > 0 {
                assert forall|q: int| 0 <= q <= limit implies (#[trigger] self.queue(Side::Sell, q)).len() == 0 by {
                    if q >= lo {
                        assert(after_loop.queue(Side::Sell, q).len() == 0);
                    } else {
                        assert(after_loop.queue(Side::Sell, q).len() == 0);
                    }
                }
            }
            assert forall|q: int| 0 <= q < start implies (#[trigger] self.ask_queues@[q]).len() == 0 by {
                assert(pre.queue(Side::Sell, q).len() == 0);
                assert(after_loop.queue(Side::Sell, q).len() == 0);
            }
            if pre.ask_min.is_none() {
                assert forall|q: int| 0 <= q < self.max_price() implies (#[trigger] self.ask_queues@[q]).len() == 0 by {
                    assert(pre.ask_queues@[q].len() == 0);
                    assert(pre.queue(Side::Sell, q) == pre.ask_queues@[q]);
                    assert(self.queue(Side::Sell, q) == self.ask_queues@[q]);
                }
            } else {
                assert forall|q: int| start <= q < self.max_price() && #[trigger] self.ask_queues@[q].len() > 0 implies true by {
                    assert(self.queue(Side::Sell, q) == self.ask_queues@[q]);
                }
            }
            assert(self.bid_queues@ == pre.bid_queues@);
            assert(self.max_price() == pre.max_price());
            match self.ask_min {
                Some(a) => {
                    assert forall|q: int| 0 <= q < a implies (#[trigger] self.ask_queues@[q]).len() == 0 by {
                        if q >= start {
                            assert(after_loop.queue(Side::Sell, q).len() == 0);
                        }
                    }
                    assert(after_loop.queue(Side::Sell, a as int).len() > 0);
                },
                None => {
                    assert forall|q: int| 0 <= q < self.max_price() implies (#[trigger] self.ask_queues@[q]).len() == 0 by {
                        if q >= start && pre.ask_min.is_some() {
                            assert(after_loop.queue(Side::Sell, q).len() == 0);
                        }
                    }
                },
            }
        }
        (trades, Ghost(pos))
    }

    /// Matches a sell of `*remaining` at limit `limit` against the bids,
    /// highest price first, then refreshes the best bid.
    fn sweep_bids(&mut self, trader: TraderId, limit: Price, remaining: &mut Quantity) -> (r: (
        Vec<Trade>,
        Ghost<Seq<int>>,
    ))
        requires
            old(self).wf(),
            (limit as int) < old(self).max_price(),
        ensures
            final(self).structure_ok(),
            final(self).caches_ok(),
            final(self).uncrossed(),
            same_layout(old(self).arena@, final(self).arena@),
            final(self).homes == old(self).homes,
            final(self).levels(Side::Sell) == old(self).levels(Side::Sell),
            final(self).queues(Side::Sell) == old(self).queues(Side::Sell),
            final(self).ask_min == old(self).ask_min,
            final(self).next_order_id == old(self).next_order_id,
            final(self).trades == old(self).trades,
            forall|k: OrderId| #[trigger] final(self).order_index@.contains_key(k) ==> old(self).order_index@.contains_key(k) && final(self).order_index@[k] == old(self).order_index@[k],
            final(self).arena.spec_capacity() == old(self).arena.spec_capacity(),
            forall|s: int|
                0 <= s < old(self).arena@.len() && old(self).homes@[s].0 == Side::Sell ==> (
                #[trigger] final(self).arena@[s]).quantity == old(self).arena@[s].quantity,
            *final(remaining) > 0 ==> forall|q: int|
                limit <= q < old(self).max_price() ==> (#[trigger] final(self).queue(Side::Buy, q)).len() == 0,
            r.0@.len() == r.1@.len(),
            forall|j: int|
                0 <= j < r.0@.len() ==> #[trigger] final(self).fills_resting(
                    *old(self),
                    Side::Sell,
                    trader,
                    r.0@[j],
                    r.1@[j],
                ),
            forall|j: int| 0 <= j < r.0@.len() ==> (#[trigger] r.0@[j]).price >= limit,
            in_priority_order(r.0@, r.1@, Side::Sell),
            final(self).cleared_ahead(Side::Sell, r.0@),
            final(self).only_fills_changed(*old(self), Side::Sell, r.0@, r.1@),
            final(self).full_fills_dropped(*old(self), Side::Sell, r.0@, r.1@),
            total_quantity(r.0@) <= level_sums(*old(self), old(self).arena@, Side::Buy, limit as int, old(self).max_price() as int),
            *final(remaining) > 0 ==> total_quantity(r.0@) == level_sums(*old(self), old(self).arena@, Side::Buy, limit as int, old(self).max_price() as int),
            forall|p: int| 0 <= p < old(self).max_price() ==> #[trigger] final(self).level_shrunk(*old(self), Side::Buy, p),
            forall|p: int|
                0 <= p < old(self).max_price() && #[trigger] final(self).queue(Side::Buy, p) != old(self).queue(Side::Buy, p)
                    ==> p >= limit && (*final(remaining) > 0 || (r.0@.len() > 0 && p >= r.0@.last().price)),
            total_quantity(r.0@) + *final(remaining) == *old(remaining),
    {
        let ghost pre = *self;
        let mut trades: Vec<Trade> = Vec::new();
        let ghost mut pos: Seq<int> = Seq::empty();
        let start: Price = match self.bid_max {
            Some(b) => b,
            None => 0,
        };
        let mut hi: Price = match self.bid_max {
            Some(b) => b + 1,
            None => 0,
        };
        let mut next = if hi == 0 {
            None
        } else {
            self.find_prev_bid(hi - 1)
        };
        assert forall|q: int| hi <= q < pre.max_price() implies (#[trigger] pre.queue(Side::Buy, q)).len() == 0 by {
            assert(pre.queue(Side::Buy, q) == pre.bid_queues@[q]);
        }
        assert forall|p: int| 0 <= p < pre.max_price() implies #[trigger] self.level_shrunk(pre, Side::Buy, p) by {
            assert(pre.queue(Side::Buy, p).subrange(0, pre.queue(Side::Buy, p).len() as int) =~= pre.queue(Side::Buy, p));
        }
        while *remaining > 0 && next.is_some() && next.unwrap() >= limit
            invariant
                pre.wf(),
                (limit as int) < pre.max_price(),
                self.structure_ok(),
                same_layout(pre.arena@, self.arena@),
                self.arena.spec_capacity() == pre.arena.spec_capacity(),
                forall|k: OrderId| #[trigger] self.order_index@.contains_key(k) ==> pre.order_index@.contains_key(k) && self.order_index@[k] == pre.order_index@[k],
                self.homes == pre.homes,
                self.levels(Side::Sell) == pre.levels(Side::Sell),
                self.queues(Side::Sell) == pre.queues(Side::Sell),
                self.bid_max == pre.bid_max,
                self.ask_min == pre.ask_min,
                self.next_order_id == pre.next_order_id,
                self.trades == pre.trades,
                self.bid_queues@.len() == pre.bid_queues@.len(),
                hi <= pre.max_price(),
                pre.bid_max.is_some() ==> hi <= start + 1,
                pre.bid_max.is_none() ==> hi == 0,
                forall|q: int|
                    start < q < pre.max_price() ==> (#[trigger] pre.queue(Side::Buy, q)).len() == 0,
                pre.bid_max.is_none() ==> forall|q: int|
                    0 <= q < pre.max_price() ==> (#[trigger] pre.queue(Side::Buy, q)).len() == 0,
                forall|q: int|
                    0 <= q < pre.max_price() && pre.queue(Side::Buy, q).len() == 0 ==> (
                    #[trigger] self.queue(Side::Buy, q)).len() == 0,
                forall|s: int|
                    0 <= s < pre.arena@.len() && pre.homes@[s].0 == Side::Sell ==> (
                    #[trigger] self.arena@[s]).quantity == pre.arena@[s].quantity,
                *remaining > 0 ==> forall|q: int|
                    hi <= q < pre.max_price() ==> (#[trigger] self.queue(Side::Buy, q)).len() == 0,
                *remaining > 0 ==> forall|q: int|
                    0 <= q < hi ==> #[trigger] self.queue(Side::Buy, q) == pre.queue(Side::Buy, q),
                *remaining > 0 ==> forall|s: int|
                    0 <= s < pre.arena@.len() && pre.homes@[s].1 < hi ==> (
                    #[trigger] self.arena@[s]).quantity == pre.arena@[s].quantity,
                *remaining > 0 ==> match next {
                    Some(p) => {
                        &&& p < hi
                        &&& self.queue(Side::Buy, p as int).len() > 0
                        &&& forall|q: int|
                            p < q < hi ==> (#[trigger] self.queue(Side::Buy, q)).len() == 0
                    },
                    None => forall|q: int|
                        0 <= q < hi ==> (#[trigger] self.queue(Side::Buy, q)).len() == 0,
                },
                trades@.len() == pos.len(),
                forall|j: int|
                    0 <= j < trades@.len() ==> #[trigger] self.fills_resting(
                        pre,
                        Side::Sell,
                        trader,
                        trades@[j],
                        pos[j],
                    ),
                forall|j: int| 0 <= j < trades@.len() ==> (#[trigger] trades@[j]).price >= limit,
                *remaining > 0 ==> forall|j: int|
                    0 <= j < trades@.len() ==> (#[trigger] trades@[j]).price >= hi,
                in_priority_order(trades@, pos, Side::Sell),
                self.cleared_ahead(Side::Sell, trades@),
                self.only_fills_changed(pre, Side::Sell, trades@, pos),
                self.full_fills_dropped(pre, Side::Sell, trades@, pos),
                level_sums(pre, self.arena@, Side::Buy, limit as int, pre.max_price() as int) + total_quantity(trades@) == level_sums(pre, pre.arena@, Side::Buy, limit as int, pre.max_price() as int),
                forall|p: int| 0 <= p < pre.max_price() ==> #[trigger] self.level_shrunk(pre, Side::Buy, p),
                forall|p: int|
                    0 <= p < pre.max_price() && #[trigger] self.queue(Side::Buy, p) != pre.queue(Side::Buy, p)
                        ==> p >= limit && ((*remaining > 0 && p >= hi) || (*remaining == 0 && trades@.len() > 0 && p >= trades@.last().price)),
                total_quantity(trades@) + *remaining == *old(remaining),
            decreases hi, *remaining,
        {
            let p = next.unwrap();
            let ghost mid = *self;
            let ghost old_trades = trades@;
            let ghost old_pos = pos;
            assert(forall|j: int| 0 <= j < old_trades.len() ==> (#[trigger] old_trades[j]).price > p);
            let (mut fills, Ghost(fpos)) = self.match_at_price(Side::Sell, trader, p, remaining);
            let ghost new_fills = fills@;
            assert(forall|j: int| 0 <= j < new_fills.len() ==> (#[trigger] new_fills[j]).price == p);
            proof {
                assert forall|j: int| 0 <= j < old_trades.len() implies #[trigger] self.fills_resting(
                    pre,
                    Side::Sell,
                    trader,
                    old_trades[j],
                    old_pos[j],
                ) by {
                    assert(mid.fills_resting(pre, Side::Sell, trader, old_trades[j], old_pos[j]));
                    lemma_fill_kept_home(pre, mid, *self, Side::Sell, trader, old_trades[j], old_pos[j], p as int);
                }
                assert forall|j: int| 0 <= j < new_fills.len() implies #[trigger] self.fills_resting(
                    pre,
                    Side::Sell,
                    trader,
                    new_fills[j],
                    fpos[j],
                ) by {
                    assert(self.fills_resting(mid, Side::Sell, trader, new_fills[j], fpos[j]));
                    assert(mid.queue(Side::Buy, p as int) == pre.queue(Side::Buy, p as int));
                    let q = pre.queue(Side::Buy, p as int);
                    assert forall|i: int| 0 <= i <= fpos[j] implies mid.arena@[#[trigger] q[i] as int].quantity
                        == pre.arena@[q[i] as int].quantity && mid.arena@[q[i] as int].trader
                        == pre.arena@[q[i] as int].trader by {
                        assert(pre.side_ok(Side::Buy));
                        assert(pre.queues(Side::Buy)[p as int] == q);
                        assert(level_ok(pre.levels(Side::Buy)[p as int], q, pre.arena@));
                        assert(pre.homes@[pre.queues(Side::Buy)[p as int][i] as int] == (Side::Buy, p as int));
                    }
                    lemma_fill_rebase(pre, mid, *self, Side::Sell, trader, new_fills[j], fpos[j]);
                }
                lemma_total_quantity_append(old_trades, new_fills);
                assert(mid.queue(Side::Buy, p as int) == pre.queue(Side::Buy, p as int));
                assert forall|x: int| limit as int <= x < pre.max_price() as int && x != p implies live_sum(self.arena@, #[trigger] pre.queue(Side::Buy, x))
                    == live_sum(mid.arena@, pre.queue(Side::Buy, x)) by {
                    let q = pre.queue(Side::Buy, x);
                    assert(pre.side_ok(Side::Buy));
                    assert(q == pre.queues(Side::Buy)[x]);
                    assert(level_ok(pre.levels(Side::Buy)[x], q, pre.arena@));
                    assert forall|i: int| 0 <= i < q.len() implies self.arena@[#[trigger] q[i] as int].quantity == mid.arena@[q[i] as int].quantity by {
                        assert(pre.homes@[pre.queues(Side::Buy)[x][i] as int] == (Side::Buy, x));
                    }
                    lemma_live_sum_agree(self.arena@, mid.arena@, q);
                }
                lemma_level_sums_change(pre, mid.arena@, self.arena@, Side::Buy, limit as int, pre.max_price() as int, p as int);
                lemma_levels_shrunk(pre, mid, *self, Side::Buy, p as int);
                if *remaining == 0 {
                    lemma_total_quantity_positive(new_fills);
                }
            }
            trades.append(&mut fills);
            proof {
                pos = old_pos + fpos;
                assert(trades@ =~= old_trades + new_fills);
                assert forall|j: int| 0 <= j < trades@.len() implies (#[trigger] trades@[j]).price >= limit by {
                    if j >= old_trades.len() {
                        assert(trades@[j] == new_fills[j - old_trades.len()]);
                    }
                }
                lemma_priority_append(old_trades, old_pos, new_fills, fpos, Side::Sell, p);
                assert(mid.full_fills_dropped(pre, Side::Sell, old_trades, old_pos));
                assert forall|j: int|
                    0 <= j < trades@.len() && (#[trigger] trades@[j]).quantity == pre.entries()[pre.queue(
                        Side::Buy,
                        trades@[j].price as int,
                    )[pos[j]] as int].quantity implies pos[j] < pre.queue(Side::Buy, trades@[j].price as int).len()
                    - self.queue(Side::Buy, trades@[j].price as int).len() by {
                    if j < old_trades.len() {
                        assert(trades@[j] == old_trades[j]);
                        assert(pos[j] == old_pos[j]);
                        assert(old_trades[j].price != p);
                        assert(mid.fills_resting(pre, Side::Sell, trader, old_trades[j], old_pos[j]));
                        assert(self.queue(Side::Buy, old_trades[j].price as int) == mid.queue(Side::Buy, old_trades[j].price as int));
                    } else {
                        let jj = j - old_trades.len();
                        assert(trades@[j] == new_fills[jj]);
                        assert(pos[j] == fpos[jj]);
                        assert(new_fills[jj].price == p);
                        let q = pre.queue(Side::Buy, p as int);
                        assert(self.fills_resting(mid, Side::Sell, trader, new_fills[jj], fpos[jj]));
                        assert(pre.side_ok(Side::Buy));
                        assert(q == pre.queues(Side::Buy)[p as int]);
                        assert(level_ok(pre.levels(Side::Buy)[p as int], q, pre.arena@));
                        assert(pre.homes@[pre.queues(Side::Buy)[p as int][fpos[jj]] as int] == (Side::Buy, p as int));
                        assert(mid.arena@[q[fpos[jj]] as int].quantity == pre.arena@[q[fpos[jj]] as int].quantity);
                    }
                }
                assert(mid.only_fills_changed(pre, Side::Sell, old_trades, old_pos));
                assert(self.only_fills_changed(mid, Side::Sell, new_fills, fpos));
                assert(mid.queue(Side::Buy, p as int) == pre.queue(Side::Buy, p as int));
                assert forall|s: int|
                    0 <= s < pre.arena@.len() && #[trigger] self.arena@[s].quantity != pre.arena@[s].quantity implies exists|j: int|
                    0 <= j < trades@.len() && pre.queue(Side::Buy, (#[trigger] trades@[j]).price as int)[pos[j]] == s by {
                    if mid.arena@[s].quantity != pre.arena@[s].quantity {
                        let j = choose|j: int|
                            0 <= j < old_trades.len() && pre.queue(Side::Buy, (#[trigger] old_trades[j]).price as int)[old_pos[j]] == s;
                        assert(trades@[j] == old_trades[j]);
                        assert(pos[j] == old_pos[j]);
                    } else {
                        assert(self.arena@[s].quantity != mid.arena@[s].quantity);
                        let j = choose|j: int|
                            0 <= j < new_fills.len() && mid.queue(Side::Buy, (#[trigger] new_fills[j]).price as int)[fpos[j]] == s;
                        assert(new_fills[j].price == p);
                        assert(trades@[old_trades.len() + j] == new_fills[j]);
                        assert(pos[old_trades.len() + j] == fpos[j]);
                    }
                }
                assert forall|j: int| 0 <= j < trades@.len() implies #[trigger] self.fills_resting(
                    pre,
                    Side::Sell,
                    trader,
                    trades@[j],
                    pos[j],
                ) by {
                    if j >= old_trades.len() {
                        assert(trades@[j] == new_fills[j - old_trades.len()]);
                        assert(pos[j] == fpos[j - old_trades.len()]);
                    } else {
                        assert(trades@[j] == old_trades[j]);
                        assert(pos[j] == old_pos[j]);
                    }
                }
                assert forall|s: int|
                    0 <= s < pre.arena@.len() && pre.homes@[s].0 == Side::Sell implies (
                    #[trigger] self.arena@[s]).quantity == pre.arena@[s].quantity by {
                    assert(mid.arena@[s].quantity == pre.arena@[s].quantity);
                }
            }
            if *remaining > 0 {
                hi = p;
                next = if p == 0 {
                    None
                } else {
                    self.find_prev_bid(p - 1)
                };
                proof {
                    assert forall|q: int| hi <= q < pre.max_price() implies (#[trigger] self.queue(Side::Buy, q)).len() == 0 by {
                        if q > p {
                            assert(mid.queue(Side::Buy, q).len() == 0);
                        }
                    }
                    assert forall|s: int|
                        0 <= s < pre.arena@.len() && pre.homes@[s].1 < hi implies (
                        #[trigger] self.arena@[s]).quantity == pre.arena@[s].quantity by {
                        assert(mid.arena@[s].quantity == pre.arena@[s].quantity);
                    }
                    assert forall|j: int| 0 <= j < trades@.len() implies (#[trigger] trades@[j]).price >= hi by {
                        if j >= old_trades.len() {
                            assert(trades@[j] == new_fills[j - old_trades.len()]);
                        } else {
                            assert(trades@[j] == old_trades[j]);
                        }
                    }
                }
            }
            proof {
                assert forall|q: int|
                    0 <= q < pre.max_price() && pre.queue(Side::Buy, q).len() == 0 implies (
                    #[trigger] self.queue(Side::Buy, q)).len() == 0 by {
                    assert(mid.queue(Side::Buy, q).len() == 0);
                }
            }
        }
        let ghost after_loop = *self;
        if self.bid_max.is_some() {
            self.bid_max = self.find_prev_bid(start);
        }
        proof {
            assert(after_loop.full_fills_dropped(pre, Side::Sell, trades@, pos));
            assert forall|x: int| #[trigger] self.queue(Side::Buy, x) == after_loop.queue(Side::Buy, x) by {}
            if *remaining > 0 {
                assert forall|x: int| limit as int <= x < pre.max_price() as int implies #[trigger] after_loop.level_shrunk(pre, Side::Buy, x)
                    && after_loop.queue(Side::Buy, x).len() == 0 by {}
                lemma_emptied_levels(pre, after_loop, Side::Buy, limit as int, pre.max_price() as int);
            }
            assert forall|p: int| 0 <= p < pre.max_price() implies #[trigger] self.level_shrunk(pre, Side::Buy, p) by {
                assert(after_loop.level_shrunk(pre, Side::Buy, p));
            }
            assert forall|p: int|
                0 <= p < pre.max_price() && #[trigger] self.queue(Side::Buy, p) != pre.queue(Side::Buy, p)
                implies after_loop.queue(Side::Buy, p) != pre.queue(Side::Buy, p) by {}
            assert forall|j: int| 0 <= j < trades@.len() implies #[trigger] self.fills_resting(
                pre,
                Side::Sell,
                trader,
                trades@[j],
                pos[j],
            ) by {
                assert(after_loop.fills_resting(pre, Side::Sell, trader, trades@[j], pos[j]));
            }
            if *remaining > 0 {
                assert forall|q: int| limit <= q < pre.max_price() implies (#[trigger] self.queue(Side::Buy, q)).len() == 0 by {
                    assert(after_loop.queue(Side::Buy, q).len() == 0);
                }
            }
            assert(self.ask_queues@ == pre.ask_queues@);
            assert(self.max_price() == pre.max_price());
            match self.bid_max {
                Some(b) => {
                    assert forall|q: int| b < q < self.max_price() implies (#[trigger] self.bid_queues@[q]).len() == 0 by {
                        if q <= start {
                            assert(after_loop.queue(Side::Buy, q).len() == 0);
                        } else {
                            assert(pre.queue(Side::Buy, q).len() == 0);
                            assert(after_loop.queue(Side::Buy, q).len() == 0);
                        }
                    }
                    assert(after_loop.queue(Side::Buy, b as int).len() > 0);
                },
                None => {
                    assert forall|q: int| 0 <= q < self.max_price() implies (#[trigger] self.bid_queues@[q]).len() == 0 by {
                        if q <= start && pre.bid_max.is_some() {
                            assert(after_loop.queue(Side::Buy, q).len() == 0);
                        } else {
                            assert(pre.queue(Side::Buy, q).len() == 0);
                            assert(after_loop.queue(Side::Buy, q).len() == 0);
                        }
                    }
                },
            }
        }
        (trades, Ghost(pos))
    }

    /// Lowest price at or above `start` with a non-empty ask queue.
    fn find_next_ask(&self, start: Price) -> (r: Option<Price>)
        requires
            self.structure_ok(),
        ensures
            match r {
                Some(p) => {
                    &&& start <= p < self.max_price()
                    &&& self.queue(Side::Sell, p as int).len() > 0
                    &&& forall|q: int|
                        start <= q < p ==> (#[trigger] self.queue(Side::Sell, q)).len() == 0
                },
                None => forall|q: int|
                    start <= q < self.max_price() ==> (#[trigger] self.queue(Side::Sell, q)).len()
                        == 0,
            },
    {
        let mut p: usize = start as usize;
        while p < self.asks.len()
            invariant
                self.structure_ok(),
                start <= p,
                forall|q: int| start <= q < p ==> (#[trigger] self.queue(Side::Sell, q)).len() == 0,
            decreases self.asks.len() - p,
        {
            assert(level_ok(self.levels(Side::Sell)[p as int], self.queues(Side::Sell)[p as int], self.arena@));
            if !self.asks[p].is_empty() {
                return Some(p as Price);
            }
            p = p + 1;
        }
        None
    }

    /// Highest price at or below `start` with a non-empty bid queue.
    fn find_prev_bid(&self, start: Price) -> (r: Option<Price>)
        requires
            self.structure_ok(),
        ensures
            match r {
                Some(p) => {
                    &&& p <= start
                    &&& p < self.max_price()
                    &&& self.queue(Side::Buy, p as int).len() > 0
                    &&& forall|q: int|
                        p < q <= start && q < self.max_price() ==> (#[trigger] self.queue(
                            Side::Buy,
                            q,
                        )).len() == 0
                },
                None => forall|q: int|
                    0 <= q <= start && q < self.max_price() ==> (#[trigger] self.queue(
                        Side::Buy,
                        q,
                    )).len() == 0,
            },
    {
        let n = self.bids.len();
        let mut p: usize = if (start as usize) < n {
            start as usize + 1
        } else {
            n
        };
        while p > 0
            invariant
                self.structure_ok(),
                n == self.max_price(),
                p <= n,
                p <= start + 1,
                forall|q: int|
                    p <= q <= start && q < n ==> (#[trigger] self.queue(Side::Buy, q)).len() == 0,
            decreases p,
        {
            assert(level_ok(self.levels(Side::Buy)[p - 1], self.queues(Side::Buy)[p - 1], self.arena@));
            if !self.bids[p - 1].is_empty() {
                return Some((p - 1) as Price);
            }
            p = p - 1;
        }
        None
    }

    /// Takes up to `*remaining` from the live order in slot `idx`; an
    /// order left with nothing leaves the id index. Returns the amount taken.
    fn take_from_slot(&mut self, idx: usize, remaining: &mut Quantity) -> (fill: Quantity)
        requires
            old(self).structure_ok(),
            idx < old(self).arena@.len(),
            old(self).arena@[idx as int].quantity > 0,
        ensures
            final(self).structure_ok(),
            fill == vstd::math::min(*old(remaining) as int, old(self).arena@[idx as int].quantity as int),
            *final(remaining) == *old(remaining) - fill,
            final(self).arena@ == old(self).arena@.update(
                idx as int,
                OrderEntry {
                    quantity: (old(self).arena@[idx as int].quantity - fill) as Quantity,
                    ..old(self).arena@[idx as int]
                },
            ),
            final(self).homes == old(self).homes,
            final(self).bids == old(self).bids,
            final(self).asks == old(self).asks,
            final(self).bid_queues == old(self).bid_queues,
            final(self).ask_queues == old(self).ask_queues,
            final(self).bid_max == old(self).bid_max,
            final(self).ask_min == old(self).ask_min,
            final(self).next_order_id == old(self).next_order_id,
            final(self).trades == old(self).trades,
            forall|k: OrderId| #[trigger] final(self).order_index@.contains_key(k) ==> old(self).order_index@.contains_key(k) && final(self).order_index@[k] == old(self).order_index@[k],
            final(self).arena.spec_capacity() == old(self).arena.spec_capacity(),
    {
        let e = *self.arena.get(idx).unwrap();
        let fill = if *remaining < e.quantity {
            *remaining
        } else {
            e.quantity
        };
        *remaining = *remaining - fill;
        let left = e.quantity - fill;
        self.arena.set_quantity(idx, left);
        if left == 0 {
            assert(old(self).order_index@.contains_key(e.order_id));
            self.order_index.remove(&e.order_id);
        }
        assert(same_layout(old(self).arena@, self.arena@));
        proof {
            self.lemma_layout_keeps_sides(*old(self));
        }
        assert(self.index_ok());
        fill
    }

    /// Replacing one level of `side` by a well-linked queue whose slots were
    /// placed there keeps the structure.
    proof fn lemma_replace_level(&self, pre: OrderBook, side: Side, price: int)
        requires
            pre.structure_ok(),
            0 <= price < pre.max_price(),
            self.levels(side) == pre.levels(side).update(price, self.levels(side)[price]),
            self.queues(side) == pre.queues(side).update(price, self.queues(side)[price]),
            level_ok(self.levels(side)[price], self.queues(side)[price], self.arena@),
            forall|i: int|
                0 <= i < self.queues(side)[price].len() ==> self.homes@[#[trigger] self.queues(
                    side,
                )[price][i] as int] == (side, price),
            self.levels(side.spec_opposite()) == pre.levels(side.spec_opposite()),
            self.queues(side.spec_opposite()) == pre.queues(side.spec_opposite()),
            self.arena == pre.arena,
            self.homes == pre.homes,
            self.order_index == pre.order_index,
            self.next_order_id == pre.next_order_id,
        ensures
            self.structure_ok(),
    {
        assert(self.max_price() == pre.max_price()) by {
            if side == Side::Buy {
                assert(self.bids@.len() == pre.bids@.len());
            } else {
                assert(self.bids@ == pre.bids@);
            }
        }
        assert forall|p: int| 0 <= p < self.max_price() implies level_ok(
            #[trigger] self.levels(side)[p],
            self.queues(side)[p],
            self.arena@,
        ) by {
            if p != price {
                assert(self.levels(side)[p] == pre.levels(side)[p]);
                assert(self.queues(side)[p] == pre.queues(side)[p]);
            }
        }
        assert forall|p: int, i: int|
            0 <= p < self.max_price() && 0 <= i < self.queues(side)[p].len() implies self.homes@[#[trigger] self.queues(
            side,
        )[p][i] as int] == (side, p) by {
            if p != price {
                assert(self.queues(side)[p] == pre.queues(side)[p]);
            }
        }
        assert(self.side_ok(side));
        assert(self.side_ok(side.spec_opposite()));
        if side == Side::Buy {
            assert(self.side_ok(Side::Sell));
        } else {
            assert(self.side_ok(Side::Buy));
        }
    }

    /// Read-only summary of the book.
    pub fn snapshot(&self) -> (r: OrderBookSnapshot)
        ensures
            r.next_order_id == self.spec_next_order_id(),
            r.bid_max == self.spec_best_bid(),
            r.ask_min == self.spec_best_ask(),
            r.active_orders == self.resting_count(),
            r.total_trades == self.trade_log().len(),
    {
        OrderBookSnapshot {
            next_order_id: self.next_order_id,
            bid_max: self.bid_max,
            ask_min: self.ask_min,
            active_orders: self.order_index.len(),
            total_trades: self.trades.len(),
        }
    }

    /// Changing quantities only keeps both sides linked as before.
    proof fn lemma_layout_keeps_sides(&self, pre: OrderBook)
        requires
            pre.side_ok(Side::Buy),
            pre.side_ok(Side::Sell),
            same_layout(pre.arena@, self.arena@),
            self.bids@ == pre.bids@,
            self.asks@ == pre.asks@,
            self.bid_queues@ == pre.bid_queues@,
            self.ask_queues@ == pre.ask_queues@,
            self.homes@ == pre.homes@,
        ensures
            self.side_ok(Side::Buy),
            self.side_ok(Side::Sell),
    {
        assert forall|side: Side, p: int| 0 <= p < self.max_price() implies level_ok(
            #[trigger] self.levels(side)[p],
            self.queues(side)[p],
            self.arena@,
        ) by {
            assert(level_ok(pre.levels(side)[p], pre.queues(side)[p], pre.arena@));
            let q = self.queues(side)[p];
            assert forall|i: int| 0 <= i < q.len() - 1 implies self.arena@[#[trigger] q[i] as int].next_idx
                == Some(q[i + 1]) by {
                assert(self.arena@[q[i] as int] == self.arena@[q[i] as int]);
            }
            if q.len() > 0 {
                assert(self.arena@[q.last() as int] == self.arena@[q.last() as int]);
            }
        }
    }
}

impl Default for OrderBook {
    fn default() -> (r: Self)
        ensures
            r.wf(),
            r.max_price() == MAX_PRICE,
            r.slot_capacity() == DEFAULT_MAX_ORDERS,
            r.slots_used() == 0,
            r.spec_best_bid().is_none(),
            r.spec_best_ask().is_none(),
            r.spec_next_order_id() == 1,
            r.trade_log() == Seq::<Trade>::empty(),
            r.resting_count() == 0,
            forall|id: OrderId| !r.is_resting(id),
    {
        OrderBook::new()
    }
}

} // verus!
