//! The executable order book: resting buys, resting sells and the trade
//! history, with submission verified against the model in `model`.

use vstd::pervasive::VecAdditionalExecFns;
use vstd::prelude::*;

use crate::lemmas::{
    lemma_insert_buy_at, lemma_insert_sell_at, lemma_sort_buys, lemma_sort_sells,
    lemma_spec_add_order_wf,
};
use crate::model::{
    book_wf, fill, run_match, sort_buys, sort_sells, spec_add_order, BookView,
};
use crate::order::{Order, OrderType, Trade};

verus! {

/// A single-asset limit-order book. Between calls, `buy_orders` is sorted
/// by descending price, `sell_orders` by ascending price, no resting order
/// is exhausted, and no crossing pair remains.
pub struct OrderBook {
    buy_orders: Vec<Order>,
    sell_orders: Vec<Order>,
    trades: Vec<Trade>,
}

impl View for OrderBook {
    type V = BookView;

    closed spec fn view(&self) -> BookView {
        BookView { buys: self.buy_orders@, sells: self.sell_orders@, trades: self.trades@ }
    }
}

/// Stable insertion sort of a buy side into descending price order.
#[verifier::loop_isolation(false)]
fn sort_buy_side(src: &Vec<Order>) -> (r: Vec<Order>)
    ensures
        r@ == sort_buys(src@),
{
    let mut r: Vec<Order> = Vec::new();
    let mut k: usize = 0;
    while k < src.len()
        invariant
            k <= src@.len(),
            r@ == sort_buys(src@.subrange(0, k as int)),
        decreases src@.len() - k,
    {
        let x = src[k];
        let ghost sorted_prefix = r@;
        let mut j: usize = r.len();
        while j > 0 && r[j - 1].price < x.price
            invariant
                j <= r@.len(),
                forall|i: int| j <= i < r@.len() ==> (#[trigger] r@[i]).price < x.price,
            decreases j,
        {
            j -= 1;
        }
        r.insert(j, x);
        proof {
            lemma_sort_buys(src@.subrange(0, k as int));
            lemma_insert_buy_at(sorted_prefix, x, j as int);
            assert(src@.subrange(0, k + 1 as int).drop_last() =~= src@.subrange(0, k as int));
            assert(src@.subrange(0, k + 1 as int).last() == src@[k as int]);
        }
        k += 1;
    }
    proof {
        assert(src@.subrange(0, src@.len() as int) =~= src@);
    }
    r
}

/// Stable insertion sort of a sell side into ascending price order.
#[verifier::loop_isolation(false)]
fn sort_sell_side(src: &Vec<Order>) -> (r: Vec<Order>)
    ensures
        r@ == sort_sells(src@),
{
    let mut r: Vec<Order> = Vec::new();
    let mut k: usize = 0;
    while k < src.len()
        invariant
            k <= src@.len(),
            r@ == sort_sells(src@.subrange(0, k as int)),
        decreases src@.len() - k,
    {
        let x = src[k];
        let ghost sorted_prefix = r@;
        let mut j: usize = r.len();
        while j > 0 && r[j - 1].price > x.price
            invariant
                j <= r@.len(),
                forall|i: int| j <= i < r@.len() ==> (#[trigger] r@[i]).price > x.price,
            decreases j,
        {
            j -= 1;
        }
        r.insert(j, x);
        proof {
            lemma_sort_sells(src@.subrange(0, k as int));
            lemma_insert_sell_at(sorted_prefix, x, j as int);
            assert(src@.subrange(0, k + 1 as int).drop_last() =~= src@.subrange(0, k as int));
            assert(src@.subrange(0, k + 1 as int).last() == src@[k as int]);
        }
        k += 1;
    }
    proof {
        assert(src@.subrange(0, src@.len() as int) =~= src@);
    }
    r
}

impl OrderBook {
    /// An empty book: no resting orders, no trades.
    pub fn new() -> (r: OrderBook)
        ensures
            r@.buys == Seq::<Order>::empty(),
            r@.sells == Seq::<Order>::empty(),
            r@.trades == Seq::<Trade>::empty(),
            book_wf(r@),
    {
        let r = OrderBook { buy_orders: Vec::new(), sell_orders: Vec::new(), trades: Vec::new() };
        proof {
            assert(r@.buys =~= Seq::<Order>::empty());
            assert(r@.sells =~= Seq::<Order>::empty());
            assert(r@.trades =~= Seq::<Trade>::empty());
        }
        r
    }

    /// Re-sort both resting sides by price priority: buys descending,
    /// sells ascending, each sort stable.
    fn sort_books(&mut self)
        ensures
            final(self).buy_orders@ == sort_buys(old(self).buy_orders@),
            final(self).sell_orders@ == sort_sells(old(self).sell_orders@),
            final(self).trades@ == old(self).trades@,
    {
        self.buy_orders = sort_buy_side(&self.buy_orders);
        self.sell_orders = sort_sell_side(&self.sell_orders);
    }

    /// Walk every buy, best bid first, against the sells in book order,
    /// filling each crossing pair at the sell's price, removing exhausted
    /// orders, and appending each trade to the history in execution order.
    #[verifier::loop_isolation(false)]
    fn match_orders(&mut self)
        requires
            crate::model::all_positive(old(self).buy_orders@),
        ensures
            final(self).buy_orders@ == run_match(
                old(self).buy_orders@,
                old(self).sell_orders@,
            ).0,
            final(self).sell_orders@ == run_match(
                old(self).buy_orders@,
                old(self).sell_orders@,
            ).1,
            final(self).trades@ == old(self).trades@ + run_match(
                old(self).buy_orders@,
                old(self).sell_orders@,
            ).2,
    {
        let ghost g_buys = self.buy_orders@;
        let ghost g_sells = self.sell_orders@;
        let ghost g_trades = self.trades@;
        let ghost m = run_match(g_buys, g_sells);
        proof {
            assert(g_buys.subrange(0, g_buys.len() as int) =~= g_buys);
            assert(g_buys.subrange(0, 0) =~= Seq::<Order>::empty());
            assert(g_trades.subrange(g_trades.len() as int, g_trades.len() as int) =~= Seq::<
                Trade,
            >::empty());
            assert(g_trades.subrange(0, g_trades.len() as int) =~= g_trades);
            assert(Seq::<Order>::empty() + m.0 =~= m.0);
            assert(Seq::<Trade>::empty() + m.2 =~= m.2);
        }
        let mut i: usize = 0;
        while i < self.buy_orders.len()
            invariant
                i <= self.buy_orders@.len(),
                forall|k: int|
                    i <= k < self.buy_orders@.len() ==> (#[trigger] self.buy_orders@[k]).quantity
                        > 0,
                self.trades@.len() >= g_trades.len(),
                self.trades@.subrange(0, g_trades.len() as int) == g_trades,
                m.0 == self.buy_orders@.subrange(0, i as int) + run_match(
                    self.buy_orders@.subrange(i as int, self.buy_orders@.len() as int),
                    self.sell_orders@,
                ).0,
                m.1 == run_match(
                    self.buy_orders@.subrange(i as int, self.buy_orders@.len() as int),
                    self.sell_orders@,
                ).1,
                m.2 == self.trades@.subrange(g_trades.len() as int, self.trades@.len() as int)
                    + run_match(
                    self.buy_orders@.subrange(i as int, self.buy_orders@.len() as int),
                    self.sell_orders@,
                ).2,
            decreases self.buy_orders@.len() - i,
        {
            let ghost buys_in = self.buy_orders@;
            let ghost sells_in = self.sell_orders@;
            let ghost trades_in = self.trades@;
            let ghost cur0 = buys_in[i as int];
            let ghost fres = fill(cur0, sells_in);
            proof {
                assert(buys_in.update(i as int, cur0) =~= buys_in);
                assert(sells_in.subrange(0, 0) =~= Seq::<Order>::empty());
                assert(sells_in.subrange(0, sells_in.len() as int) =~= sells_in);
                assert(trades_in.subrange(trades_in.len() as int, trades_in.len() as int) =~= Seq::<
                    Trade,
                >::empty());
                assert(Seq::<Order>::empty() + fres.1 =~= fres.1);
                assert(Seq::<Trade>::empty() + fres.2 =~= fres.2);
            }
            let mut j: usize = 0;
            #[verifier::loop_isolation(true)]
            while j < self.sell_orders.len()
                invariant_except_break
                    0 <= i < buys_in.len(),
                    self.buy_orders@[i as int].quantity > 0,
                    j <= self.sell_orders@.len(),
                    self.buy_orders@ == buys_in.update(i as int, self.buy_orders@[i as int]),
                    self.trades@.len() >= trades_in.len(),
                    self.trades@.subrange(0, trades_in.len() as int) == trades_in,
                    fres.0 == fill(
                        self.buy_orders@[i as int],
                        self.sell_orders@.subrange(j as int, self.sell_orders@.len() as int),
                    ).0,
                    fres.1 == self.sell_orders@.subrange(0, j as int) + fill(
                        self.buy_orders@[i as int],
                        self.sell_orders@.subrange(j as int, self.sell_orders@.len() as int),
                    ).1,
                    fres.2 == self.trades@.subrange(
                        trades_in.len() as int,
                        self.trades@.len() as int,
                    ) + fill(
                        self.buy_orders@[i as int],
                        self.sell_orders@.subrange(j as int, self.sell_orders@.len() as int),
                    ).2,
                ensures
                    self.buy_orders@ == buys_in.update(i as int, fres.0),
                    self.sell_orders@ == fres.1,
                    self.trades@ == trades_in + fres.2,
                decreases self.sell_orders@.len() - j,
            {
                let b = self.buy_orders[i];
                let s = self.sell_orders[j];
                let ghost sells_pre = self.sell_orders@;
                let ghost rest_pre = sells_pre.subrange(j as int, sells_pre.len() as int);
                let ghost emitted_pre = self.trades@.subrange(
                    trades_in.len() as int,
                    self.trades@.len() as int,
                );
                proof {
                    assert(rest_pre[0] == sells_pre[j as int]);
                    assert(rest_pre.drop_first() =~= sells_pre.subrange(
                        j + 1 as int,
                        sells_pre.len() as int,
                    ));
                }
                if b.price >= s.price {
                    let q = if b.quantity <= s.quantity {
                        b.quantity
                    } else {
                        s.quantity
                    };
                    let t = Trade { buy_id: b.id, sell_id: s.id, price: s.price, quantity: q };
                    self.trades.push(t);
                    let nb = Order {
                        id: b.id,
                        order_type: b.order_type,
                        price: b.price,
                        quantity: b.quantity - q,
                    };
                    let ns = Order {
                        id: s.id,
                        order_type: s.order_type,
                        price: s.price,
                        quantity: s.quantity - q,
                    };
                    self.buy_orders.set(i, nb);
                    proof {
                        assert(self.trades@.subrange(0, trades_in.len() as int) =~= trades_in);
                        assert(self.trades@.subrange(
                            trades_in.len() as int,
                            self.trades@.len() as int,
                        ) =~= emitted_pre + seq![t]);
                        assert(self.buy_orders@ == buys_in.update(i as int, nb));
                    }
                    if ns.quantity == 0 {
                        self.sell_orders.remove(j);
                        proof {
                            assert(self.sell_orders@.subrange(0, j as int) =~= sells_pre.subrange(
                                0,
                                j as int,
                            ));
                            assert(self.sell_orders@.subrange(
                                j as int,
                                self.sell_orders@.len() as int,
                            ) =~= rest_pre.drop_first());
                            assert(emitted_pre + seq![t] + fill(
                                nb,
                                rest_pre.drop_first(),
                            ).2 =~= emitted_pre + (seq![t] + fill(nb, rest_pre.drop_first()).2));
                        }
                    } else {
                        self.sell_orders.set(j, ns);
                        j += 1;
                        proof {
                            assert(q == b.quantity);
                            assert(nb.quantity == 0);
                            assert(fill(nb, self.sell_orders@.subrange(
                                j as int,
                                self.sell_orders@.len() as int,
                            )).0 == nb);
                            assert(self.sell_orders@.subrange(0, j as int) =~= sells_pre.subrange(
                                0,
                                j - 1 as int,
                            ) + seq![ns]);
                            assert(self.sell_orders@.subrange(
                                j as int,
                                self.sell_orders@.len() as int,
                            ) =~= rest_pre.drop_first());
                            assert(fres.1 == sells_pre.subrange(0, j - 1 as int) + (seq![ns]
                                + rest_pre.drop_first()));
                            assert(sells_pre.subrange(0, j - 1 as int) + (seq![ns]
                                + rest_pre.drop_first()) =~= self.sell_orders@.subrange(
                                0,
                                j as int,
                            ) + rest_pre.drop_first());
                            assert(emitted_pre + seq![t] + Seq::<Trade>::empty() =~= emitted_pre
                                + seq![t]);
                        }
                    }
                    if nb.quantity == 0 {
                        proof {
                            let rest_now = self.sell_orders@.subrange(
                                j as int,
                                self.sell_orders@.len() as int,
                            );
                            assert(fill(nb, rest_now).0 == nb);
                            assert(fill(nb, rest_now).1 == rest_now);
                            assert(fill(nb, rest_now).2 == Seq::<Trade>::empty());
                            assert(self.sell_orders@ =~= self.sell_orders@.subrange(0, j as int)
                                + rest_now);
                            assert(self.trades@ =~= trades_in + self.trades@.subrange(
                                trades_in.len() as int,
                                self.trades@.len() as int,
                            ));
                            assert(emitted_pre + seq![t] + Seq::<Trade>::empty() =~= emitted_pre
                                + seq![t]);
                        }
                        break;
                    }
                } else {
                    j += 1;
                    proof {
                        assert(self.sell_orders@.subrange(0, j as int) =~= sells_pre.subrange(
                            0,
                            j - 1 as int,
                        ) + seq![s]);
                        assert(fres.1 == sells_pre.subrange(0, j - 1 as int) + (seq![s] + fill(
                            b,
                            rest_pre.drop_first(),
                        ).1));
                        assert(sells_pre.subrange(0, j - 1 as int) + (seq![s] + fill(
                            b,
                            rest_pre.drop_first(),
                        ).1) =~= self.sell_orders@.subrange(0, j as int) + fill(
                            b,
                            rest_pre.drop_first(),
                        ).1);
                    }
                }
            }
            proof {
                let rem_pre = buys_in.subrange(i as int, buys_in.len() as int);
                assert(rem_pre[0] == cur0);
                assert(rem_pre.drop_first() =~= buys_in.subrange(i + 1 as int, buys_in.len() as int));
                assert(self.trades@ =~= trades_in + self.trades@.subrange(
                    trades_in.len() as int,
                    self.trades@.len() as int,
                ));
                assert(self.trades@.subrange(g_trades.len() as int, self.trades@.len() as int)
                    =~= trades_in.subrange(g_trades.len() as int, trades_in.len() as int)
                    + fres.2);
            }
            if self.buy_orders[i].quantity == 0 {
                self.buy_orders.remove(i);
                proof {
                    assert(self.buy_orders@ =~= buys_in.update(i as int, fres.0).remove(i as int));
                    assert(self.buy_orders@.subrange(0, i as int) =~= buys_in.subrange(
                        0,
                        i as int,
                    ));
                    assert(self.buy_orders@.subrange(i as int, self.buy_orders@.len() as int)
                        =~= buys_in.subrange(i + 1 as int, buys_in.len() as int));
                    assert(m.2 == self.trades@.subrange(
                        g_trades.len() as int,
                        self.trades@.len() as int,
                    ) + run_match(
                        self.buy_orders@.subrange(i as int, self.buy_orders@.len() as int),
                        self.sell_orders@,
                    ).2) by {
                        assert(trades_in.subrange(g_trades.len() as int, trades_in.len() as int)
                            + (fres.2 + run_match(
                            buys_in.subrange(i + 1 as int, buys_in.len() as int),
                            fres.1,
                        ).2) =~= (trades_in.subrange(
                            g_trades.len() as int,
                            trades_in.len() as int,
                        ) + fres.2) + run_match(
                            buys_in.subrange(i + 1 as int, buys_in.len() as int),
                            fres.1,
                        ).2);
                    }
                }
            } else {
                proof {
                    assert(self.buy_orders@[i as int] == fres.0);
                    assert(self.buy_orders@.subrange(0, i + 1 as int) =~= buys_in.subrange(
                        0,
                        i as int,
                    ) + seq![fres.0]);
                    assert(self.buy_orders@.subrange(i + 1 as int, self.buy_orders@.len() as int)
                        =~= buys_in.subrange(i + 1 as int, buys_in.len() as int));
                    assert(buys_in.subrange(0, i as int) + (seq![fres.0] + run_match(
                        buys_in.subrange(i + 1 as int, buys_in.len() as int),
                        fres.1,
                    ).0) =~= self.buy_orders@.subrange(0, i + 1 as int) + run_match(
                        buys_in.subrange(i + 1 as int, buys_in.len() as int),
                        fres.1,
                    ).0);
                    assert(trades_in.subrange(g_trades.len() as int, trades_in.len() as int)
                        + (fres.2 + run_match(
                        buys_in.subrange(i + 1 as int, buys_in.len() as int),
                        fres.1,
                    ).2) =~= (trades_in.subrange(g_trades.len() as int, trades_in.len() as int)
                        + fres.2) + run_match(
                        buys_in.subrange(i + 1 as int, buys_in.len() as int),
                        fres.1,
                    ).2);
                }
                i += 1;
            }
        }
        proof {
            assert(self.buy_orders@.subrange(i as int, self.buy_orders@.len() as int) =~= Seq::<
                Order,
            >::empty());
            assert(run_match(Seq::<Order>::empty(), self.sell_orders@).0 == Seq::<Order>::empty());
            assert(self.buy_orders@.subrange(0, i as int) =~= self.buy_orders@);
            assert(m.0 == self.buy_orders@ + Seq::<Order>::empty());
            assert(self.buy_orders@ + Seq::<Order>::empty() =~= self.buy_orders@);
            assert(m.2 == self.trades@.subrange(g_trades.len() as int, self.trades@.len() as int)
                + Seq::<Trade>::empty());
            assert(self.trades@.subrange(g_trades.len() as int, self.trades@.len() as int) + Seq::<
                Trade,
            >::empty() =~= self.trades@.subrange(g_trades.len() as int, self.trades@.len() as int));
            assert(self.trades@ =~= g_trades + self.trades@.subrange(
                g_trades.len() as int,
                self.trades@.len() as int,
            ));
        }
    }

    /// Submit one order: insert it on its side, re-sort both sides by
    /// price priority, then match crossing pairs until none remain. The
    /// book afterwards is exactly what the model says, and well formed.
    pub fn add_order(&mut self, order: Order)
        requires
            book_wf(old(self)@),
            order.quantity > 0,
            order.price > 0,
        ensures
            final(self)@ == spec_add_order(old(self)@, order),
            book_wf(final(self)@),
    {
        let ghost pushed = crate::model::side_with(
            old(self)@.buys,
            order,
            OrderType::Buy,
        );
        match order.order_type {
            OrderType::Buy => self.buy_orders.push(order),
            OrderType::Sell => self.sell_orders.push(order),
        }
        self.sort_books();
        proof {
            if order.order_type == OrderType::Buy {
                crate::lemmas::lemma_all_positive_push(old(self)@.buys, order);
            }
            lemma_sort_buys(pushed);
        }
        self.match_orders();
        proof {
            lemma_spec_add_order_wf(old(self)@, order);
        }
    }

    /// A snapshot of the resting buy orders, best price first.
    pub fn buy_orders(&self) -> (r: Vec<Order>)
        ensures
            r@ == self@.buys,
    {
        let mut r: Vec<Order> = Vec::new();
        let mut k: usize = 0;
        while k < self.buy_orders.len()
            invariant
                k <= self.buy_orders@.len(),
                r@ == self.buy_orders@.subrange(0, k as int),
            decreases self.buy_orders@.len() - k,
        {
            r.push(self.buy_orders[k]);
            proof {
                assert(r@ =~= self.buy_orders@.subrange(0, k + 1 as int));
            }
            k += 1;
        }
        proof {
            assert(r@ =~= self.buy_orders@);
        }
        r
    }

    /// A snapshot of the resting sell orders, best price first.
    pub fn sell_orders(&self) -> (r: Vec<Order>)
        ensures
            r@ == self@.sells,
    {
        let mut r: Vec<Order> = Vec::new();
        let mut k: usize = 0;
        while k < self.sell_orders.len()
            invariant
                k <= self.sell_orders@.len(),
                r@ == self.sell_orders@.subrange(0, k as int),
            decreases self.sell_orders@.len() - k,
        {
            r.push(self.sell_orders[k]);
            proof {
                assert(r@ =~= self.sell_orders@.subrange(0, k + 1 as int));
            }
            k += 1;
        }
        proof {
            assert(r@ =~= self.sell_orders@);
        }
        r
    }

    /// A snapshot of every trade executed so far, oldest first.
    pub fn trades(&self) -> (r: Vec<Trade>)
        ensures
            r@ == self@.trades,
    {
        let mut r: Vec<Trade> = Vec::new();
        let mut k: usize = 0;
        while k < self.trades.len()
            invariant
                k <= self.trades@.len(),
                r@ == self.trades@.subrange(0, k as int),
            decreases self.trades@.len() - k,
        {
            r.push(self.trades[k]);
            proof {
                assert(r@ =~= self.trades@.subrange(0, k + 1 as int));
            }
            k += 1;
        }
        proof {
            assert(r@ =~= self.trades@);
        }
        r
    }
}

} // verus!
