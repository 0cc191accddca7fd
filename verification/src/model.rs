//! The mathematical model of the engine: a ghost view of the book and spec
//! functions that define, step by step, what submitting an order does —
//! stable insertion sort by price priority, then the cross-matching walk.

use vstd::prelude::*;

use crate::order::{Order, OrderType, Trade};

verus! {

/// Ghost view of an order book: the two resting sides and the trade history.
pub ghost struct BookView {
    pub buys: Seq<Order>,
    pub sells: Seq<Order>,
    pub trades: Seq<Trade>,
}

/// The smaller of two quantities: the amount a crossing pair can fill.
pub open spec fn min_qty(a: u64, b: u64) -> u64 {
    if a <= b {
        a
    } else {
        b
    }
}

/// Buy side sorted by descending price (best bid first).
pub open spec fn sorted_desc(s: Seq<Order>) -> bool {
    forall|i: int, j: int| 0 <= i < j < s.len() ==> s[i].price >= s[j].price
}

/// Sell side sorted by ascending price (best ask first).
pub open spec fn sorted_asc(s: Seq<Order>) -> bool {
    forall|i: int, j: int| 0 <= i < j < s.len() ==> s[i].price <= s[j].price
}

/// No exhausted order rests in the sequence.
pub open spec fn all_positive(s: Seq<Order>) -> bool {
    forall|i: int| 0 <= i < s.len() ==> s[i].quantity > 0
}

/// No (buy, sell) pair that could still trade remains.
pub open spec fn no_cross(buys: Seq<Order>, sells: Seq<Order>) -> bool {
    forall|i: int, j: int|
        0 <= i < buys.len() && 0 <= j < sells.len() ==> buys[i].price < sells[j].price
}

/// The invariant the book restores before every return to the caller.
pub open spec fn book_wf(b: BookView) -> bool {
    &&& sorted_desc(b.buys)
    &&& sorted_asc(b.sells)
    &&& all_positive(b.buys)
    &&& all_positive(b.sells)
    &&& no_cross(b.buys, b.sells)
}

/// Stable insertion into a descending-price sequence: the new order goes
/// after every resting order whose price is at least as good.
pub open spec fn insert_buy(s: Seq<Order>, x: Order) -> Seq<Order>
    decreases s.len(),
{
    if s.len() == 0 {
        seq![x]
    } else if x.price > s[0].price {
        seq![x] + s
    } else {
        seq![s[0]] + insert_buy(s.drop_first(), x)
    }
}

/// Stable insertion into an ascending-price sequence.
pub open spec fn insert_sell(s: Seq<Order>, x: Order) -> Seq<Order>
    decreases s.len(),
{
    if s.len() == 0 {
        seq![x]
    } else if x.price < s[0].price {
        seq![x] + s
    } else {
        seq![s[0]] + insert_sell(s.drop_first(), x)
    }
}

/// Stable sort of the buy side by descending price: orders are inserted in
/// arrival order, so equal-price orders keep their relative order.
pub open spec fn sort_buys(s: Seq<Order>) -> Seq<Order>
    decreases s.len(),
{
    if s.len() == 0 {
        Seq::empty()
    } else {
        insert_buy(sort_buys(s.drop_last()), s.last())
    }
}

/// Stable sort of the sell side by ascending price.
pub open spec fn sort_sells(s: Seq<Order>) -> Seq<Order>
    decreases s.len(),
{
    if s.len() == 0 {
        Seq::empty()
    } else {
        insert_sell(sort_sells(s.drop_last()), s.last())
    }
}

/// One buy order scanned against the sell sequence in book order. Returns
/// the buy as it stands afterwards, the sells that remain, and the trades
/// emitted, oldest first. A crossing pair fills `min` of the two remaining
/// quantities at the sell's price; an exhausted sell is removed; the scan
/// stops as soon as the buy itself is exhausted.
pub open spec fn fill(buy: Order, sells: Seq<Order>) -> (Order, Seq<Order>, Seq<Trade>)
    decreases sells.len(),
{
    if sells.len() == 0 || buy.quantity == 0 {
        (buy, sells, Seq::empty())
    } else if buy.price >= sells[0].price {
        let q = min_qty(buy.quantity, sells[0].quantity);
        let t = Trade {
            buy_id: buy.id,
            sell_id: sells[0].id,
            price: sells[0].price,
            quantity: q,
        };
        let b2 = Order {
            id: buy.id,
            order_type: buy.order_type,
            price: buy.price,
            quantity: (buy.quantity - q) as u64,
        };
        let s2 = Order {
            id: sells[0].id,
            order_type: sells[0].order_type,
            price: sells[0].price,
            quantity: (sells[0].quantity - q) as u64,
        };
        if s2.quantity == 0 {
            let r = fill(b2, sells.drop_first());
            (r.0, r.1, seq![t] + r.2)
        } else {
            (b2, seq![s2] + sells.drop_first(), seq![t])
        }
    } else {
        let r = fill(buy, sells.drop_first());
        (r.0, seq![sells[0]] + r.1, r.2)
    }
}

/// Every buy, best price first, scanned against the sells. Returns the buys
/// that remain, the sells that remain, and all trades in execution order.
/// An exhausted buy is removed from the book.
pub open spec fn run_match(buys: Seq<Order>, sells: Seq<Order>) -> (
    Seq<Order>,
    Seq<Order>,
    Seq<Trade>,
)
    decreases buys.len(),
{
    if buys.len() == 0 {
        (Seq::empty(), sells, Seq::empty())
    } else {
        let f = fill(buys[0], sells);
        let r = run_match(buys.drop_first(), f.1);
        if f.0.quantity == 0 {
            (r.0, r.1, f.2 + r.2)
        } else {
            (seq![f.0] + r.0, r.1, f.2 + r.2)
        }
    }
}

/// The resting side with the submitted order appended, when the order
/// belongs to that side.
pub open spec fn side_with(orders: Seq<Order>, o: Order, side: OrderType) -> Seq<Order> {
    if o.order_type == side {
        orders.push(o)
    } else {
        orders
    }
}

/// What submitting one order does to the book: insert on its side, re-sort
/// both sides by price priority, then match until no cross survives,
/// appending the emitted trades to the history.
pub open spec fn spec_add_order(b: BookView, o: Order) -> BookView {
    let m = run_match(
        sort_buys(side_with(b.buys, o, OrderType::Buy)),
        sort_sells(side_with(b.sells, o, OrderType::Sell)),
    );
    BookView { buys: m.0, sells: m.1, trades: b.trades + m.2 }
}

/// A whole session: the orders submitted to the book one after the other.
pub open spec fn submit_all(b: BookView, os: Seq<Order>) -> BookView
    decreases os.len(),
{
    if os.len() == 0 {
        b
    } else {
        submit_all(spec_add_order(b, os[0]), os.drop_first())
    }
}

/// Total quantity resting in `s` under the given order id.
pub open spec fn resting_qty(s: Seq<Order>, id: u64) -> int
    decreases s.len(),
{
    if s.len() == 0 {
        0
    } else {
        (if s[0].id == id {
            s[0].quantity as int
        } else {
            0
        }) + resting_qty(s.drop_first(), id)
    }
}

/// Total quantity filled against the given id on the buy side of trades.
pub open spec fn bought_qty(ts: Seq<Trade>, id: u64) -> int
    decreases ts.len(),
{
    if ts.len() == 0 {
        0
    } else {
        (if ts[0].buy_id == id {
            ts[0].quantity as int
        } else {
            0
        }) + bought_qty(ts.drop_first(), id)
    }
}

/// Total quantity filled against the given id on the sell side of trades.
pub open spec fn sold_qty(ts: Seq<Trade>, id: u64) -> int
    decreases ts.len(),
{
    if ts.len() == 0 {
        0
    } else {
        (if ts[0].sell_id == id {
            ts[0].quantity as int
        } else {
            0
        }) + sold_qty(ts.drop_first(), id)
    }
}

/// Total quantity submitted under the given id across a session.
pub open spec fn submitted_qty(os: Seq<Order>, id: u64) -> int
    decreases os.len(),
{
    if os.len() == 0 {
        0
    } else {
        (if os[0].id == id {
            os[0].quantity as int
        } else {
            0
        }) + submitted_qty(os.drop_first(), id)
    }
}

/// `later` is `earlier` with some of its quantity filled away: same id,
/// side and price, no more quantity.
pub open spec fn reduced_order(later: Order, earlier: Order) -> bool {
    &&& later.id == earlier.id
    &&& later.order_type == earlier.order_type
    &&& later.price == earlier.price
    &&& later.quantity <= earlier.quantity
}

/// The order at position `k` of `result` descends from some order in
/// `source`.
pub open spec fn descends_in(result: Seq<Order>, source: Seq<Order>, k: int) -> bool {
    exists|j: int| 0 <= j < source.len() && #[trigger] reduced_order(result[k], source[j])
}

/// Every order in `result` descends from one in `source`: same id, side and
/// price, with at most the source's quantity left.
pub open spec fn drawn_from(result: Seq<Order>, source: Seq<Order>) -> bool {
    forall|k: int| 0 <= k < result.len() ==> #[trigger] descends_in(result, source, k)
}

/// The trade filled this buy order: it names its id, executes no higher
/// than its limit, and moves no more than its quantity.
pub open spec fn trade_takes_buy(t: Trade, b: Order) -> bool {
    &&& b.id == t.buy_id
    &&& b.price >= t.price
    &&& t.quantity <= b.quantity
}

/// The trade filled this sell order: it names its id, executes exactly at
/// its price, and moves no more than its quantity.
pub open spec fn trade_takes_sell(t: Trade, s: Order) -> bool {
    &&& s.id == t.sell_id
    &&& s.price == t.price
    &&& t.quantity <= s.quantity
}

/// Some order on the buy side accounts for this trade.
pub open spec fn buy_sourced_in(t: Trade, buys: Seq<Order>) -> bool {
    exists|i: int| 0 <= i < buys.len() && #[trigger] trade_takes_buy(t, buys[i])
}

/// Some order on the sell side accounts for this trade.
pub open spec fn sell_sourced_in(t: Trade, sells: Seq<Order>) -> bool {
    exists|j: int| 0 <= j < sells.len() && #[trigger] trade_takes_sell(t, sells[j])
}

/// The trade names a buy and a sell that were present when matching began:
/// its price is the sell's price, the buy's price reached it, and its
/// quantity exceeds neither order's quantity at that point.
pub open spec fn trade_sourced(t: Trade, buys: Seq<Order>, sells: Seq<Order>) -> bool {
    buy_sourced_in(t, buys) && sell_sourced_in(t, sells)
}

} // verus!
