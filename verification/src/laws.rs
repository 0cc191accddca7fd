//! The laws of the engine, stated over the model and proved once and for
//! all: price priority, the non-crossed book, zero-quantity exclusion,
//! exact quantity conservation, the passive-price convention, and the bound
//! on total fills across a whole session.

use vstd::prelude::*;

use crate::lemmas::{
    lemma_all_positive_push, lemma_bought_qty_concat, lemma_resting_qty_nonneg,
    lemma_resting_qty_push, lemma_run_match_qty, lemma_run_match_trades, lemma_sold_qty_concat,
    lemma_sort_buys, lemma_sort_sells, lemma_spec_add_order_wf, lemma_traded_qty_nonneg,
};
use crate::model::{
    all_positive, book_wf, bought_qty, buy_sourced_in, resting_qty, run_match, sell_sourced_in,
    side_with, sold_qty, sort_buys, sort_sells, spec_add_order, submit_all, submitted_qty,
    trade_sourced, BookView,
};
use crate::order::{Order, OrderType, Trade};

verus! {

/// A trade filled by a buy of one side is filled by a buy of any side that
/// holds every order of the first.
proof fn lemma_buy_sourced_contains(t: Trade, a: Seq<Order>, b: Seq<Order>)
    requires
        buy_sourced_in(t, a),
        forall|k: int| 0 <= k < a.len() ==> b.contains(#[trigger] a[k]),
    ensures
        buy_sourced_in(t, b),
{
    let w = choose|w: int| 0 <= w < a.len() && #[trigger] crate::model::trade_takes_buy(
        t,
        a[w],
    );
    let v = choose|v: int| 0 <= v < b.len() && b[v] == a[w];
    assert(crate::model::trade_takes_buy(t, b[v]));
}

/// A trade filled by a sell of one side is filled by a sell of any side
/// that holds every order of the first.
proof fn lemma_sell_sourced_contains(t: Trade, a: Seq<Order>, b: Seq<Order>)
    requires
        sell_sourced_in(t, a),
        forall|k: int| 0 <= k < a.len() ==> b.contains(#[trigger] a[k]),
    ensures
        sell_sourced_in(t, b),
{
    let w = choose|w: int| 0 <= w < a.len() && #[trigger] crate::model::trade_takes_sell(
        t,
        a[w],
    );
    let v = choose|v: int| 0 <= v < b.len() && b[v] == a[w];
    assert(crate::model::trade_takes_sell(t, b[v]));
}

/// Price priority, zero-quantity exclusion and the non-crossed book, after
/// one submission: a well-formed book stays well formed — buys sorted by
/// descending price, sells by ascending price, no exhausted order resting,
/// and no pair left with a buy price at or above a sell price.
pub proof fn lemma_submit_preserves_wf(b: BookView, o: Order)
    requires
        book_wf(b),
        o.quantity > 0,
    ensures
        book_wf(spec_add_order(b, o)),
{
    lemma_spec_add_order_wf(b, o);
}

/// Price priority, zero-quantity exclusion and the non-crossed book, after
/// any sequence of submissions of positive-quantity orders.
pub proof fn lemma_submit_all_preserves_wf(b: BookView, os: Seq<Order>)
    requires
        book_wf(b),
        forall|k: int| 0 <= k < os.len() ==> (#[trigger] os[k]).quantity > 0,
    ensures
        book_wf(submit_all(b, os)),
    decreases os.len(),
{
    if os.len() > 0 {
        lemma_spec_add_order_wf(b, os[0]);
        let rest = os.drop_first();
        assert forall|k: int| 0 <= k < rest.len() implies (#[trigger] rest[k]).quantity > 0 by {
            assert(rest[k] == os[k + 1]);
        }
        lemma_submit_all_preserves_wf(spec_add_order(b, os[0]), rest);
    }
}

/// Exact quantity conservation, id by id, for one submission: what rests on
/// a side plus what the trade history has filled against it changes only by
/// the submitted order's own quantity, on its own side.
pub proof fn lemma_submit_conserves_quantity(b: BookView, o: Order, id: u64)
    ensures
        resting_qty(spec_add_order(b, o).buys, id) + bought_qty(spec_add_order(b, o).trades, id)
            == resting_qty(b.buys, id) + bought_qty(b.trades, id) + (if o.order_type
            == OrderType::Buy && o.id == id {
            o.quantity as int
        } else {
            0
        }),
        resting_qty(spec_add_order(b, o).sells, id) + sold_qty(spec_add_order(b, o).trades, id)
            == resting_qty(b.sells, id) + sold_qty(b.trades, id) + (if o.order_type
            == OrderType::Sell && o.id == id {
            o.quantity as int
        } else {
            0
        }),
{
    let buys0 = side_with(b.buys, o, OrderType::Buy);
    let sells0 = side_with(b.sells, o, OrderType::Sell);
    lemma_resting_qty_push(b.buys, o, id);
    lemma_resting_qty_push(b.sells, o, id);
    lemma_sort_buys(buys0);
    lemma_sort_sells(sells0);
    let m = run_match(sort_buys(buys0), sort_sells(sells0));
    lemma_run_match_qty(sort_buys(buys0), sort_sells(sells0));
    lemma_bought_qty_concat(b.trades, m.2, id);
    lemma_sold_qty_concat(b.trades, m.2, id);
}

/// What one submission does to the trade history: the old trades stay, in
/// place, and every new trade moves a strictly positive quantity, at the
/// price of a resting sell order that carried its sell id and at least its
/// quantity, against a resting buy order that carried its buy id, a price
/// at or above the execution price, and at least its quantity — the resting
/// orders being those of the book with the submitted order inserted. In
/// particular every trade executes at the passive sell side's price.
pub proof fn lemma_submit_trades_sourced(b: BookView, o: Order)
    requires
        all_positive(b.sells),
        o.quantity > 0,
    ensures
        spec_add_order(b, o).trades.len() >= b.trades.len(),
        spec_add_order(b, o).trades.subrange(0, b.trades.len() as int) == b.trades,
        forall|k: int|
            b.trades.len() <= k < spec_add_order(b, o).trades.len() ==> (#[trigger] spec_add_order(
                b,
                o,
            ).trades[k]).quantity > 0,
        forall|k: int|
            b.trades.len() <= k < spec_add_order(b, o).trades.len() ==> trade_sourced(
                #[trigger] spec_add_order(b, o).trades[k],
                side_with(b.buys, o, OrderType::Buy),
                side_with(b.sells, o, OrderType::Sell),
            ),
{
    let buys0 = side_with(b.buys, o, OrderType::Buy);
    let sells0 = side_with(b.sells, o, OrderType::Sell);
    if o.order_type == OrderType::Sell {
        lemma_all_positive_push(b.sells, o);
    }
    lemma_sort_buys(buys0);
    lemma_sort_sells(sells0);
    let buys1 = sort_buys(buys0);
    let sells1 = sort_sells(sells0);
    lemma_run_match_trades(buys1, sells1);
    let m = run_match(buys1, sells1);
    let b2 = spec_add_order(b, o);
    assert(b2.trades.subrange(0, b.trades.len() as int) =~= b.trades);
    assert forall|k: int| b.trades.len() <= k < b2.trades.len() implies (#[trigger] b2.trades[k])
        .quantity > 0 by {
        assert(b2.trades[k] == m.2[k - b.trades.len()]);
    }
    assert forall|k: int| b.trades.len() <= k < b2.trades.len() implies trade_sourced(
        #[trigger] b2.trades[k],
        buys0,
        sells0,
    ) by {
        let t = m.2[k - b.trades.len()];
        assert(b2.trades[k] == t);
        assert(trade_sourced(t, buys1, sells1));
        lemma_buy_sourced_contains(t, buys1, buys0);
        lemma_sell_sourced_contains(t, sells1, sells0);
    }
}

/// Exact quantity conservation across a whole session: for every id, what
/// rests on either side plus what the trade history has filled against it
/// grows by exactly the total quantity submitted under that id.
pub proof fn lemma_submit_all_conserves_quantity(b: BookView, os: Seq<Order>, id: u64)
    ensures
        resting_qty(submit_all(b, os).buys, id) + resting_qty(submit_all(b, os).sells, id)
            + bought_qty(submit_all(b, os).trades, id) + sold_qty(submit_all(b, os).trades, id)
            == resting_qty(b.buys, id) + resting_qty(b.sells, id) + bought_qty(b.trades, id)
            + sold_qty(b.trades, id) + submitted_qty(os, id),
    decreases os.len(),
{
    if os.len() > 0 {
        lemma_submit_conserves_quantity(b, os[0], id);
        lemma_submit_all_conserves_quantity(spec_add_order(b, os[0]), os.drop_first(), id);
    }
}

/// No order is ever overfilled: for an id the book has never seen, the
/// total quantity the trade history fills against it over a whole session
/// never exceeds the total quantity submitted under it — with unique ids,
/// never exceeds that order's initial quantity.
pub proof fn lemma_no_overfill(b: BookView, os: Seq<Order>, id: u64)
    requires
        resting_qty(b.buys, id) == 0,
        resting_qty(b.sells, id) == 0,
        bought_qty(b.trades, id) == 0,
        sold_qty(b.trades, id) == 0,
    ensures
        bought_qty(submit_all(b, os).trades, id) + sold_qty(submit_all(b, os).trades, id)
            <= submitted_qty(os, id),
{
    lemma_submit_all_conserves_quantity(b, os, id);
    lemma_resting_qty_nonneg(submit_all(b, os).buys, id);
    lemma_resting_qty_nonneg(submit_all(b, os).sells, id);
    lemma_traded_qty_nonneg(submit_all(b, os).trades, id);
}

} // verus!
