//! Inductive proofs about the model: what stable insertion and sorting keep,
//! and what one matching pass does to quantities, prices and ordering.

use vstd::prelude::*;

use crate::model::{
    all_positive, bought_qty, fill, insert_buy, insert_sell, min_qty, resting_qty, run_match,
    sold_qty, sort_buys, sort_sells, sorted_asc, sorted_desc,
};
use crate::order::Order;
use crate::order::Trade;

verus! {

/// Appending one order adds exactly its contribution to the resting total.
pub proof fn lemma_resting_qty_push(s: Seq<Order>, x: Order, id: u64)
    ensures
        resting_qty(s.push(x), id) == resting_qty(s, id) + (if x.id == id {
            x.quantity as int
        } else {
            0
        }),
    decreases s.len(),
{
    if s.len() == 0 {
        assert(s.push(x)[0] == x);
        assert(s.push(x).drop_first() =~= Seq::<Order>::empty());
        assert(resting_qty(Seq::<Order>::empty(), id) == 0);
        assert(resting_qty(s, id) == 0);
    } else {
        assert(s.push(x)[0] == s[0]);
        assert(s.push(x).drop_first() =~= s.drop_first().push(x));
        lemma_resting_qty_push(s.drop_first(), x, id);
    }
}

/// A one-order sequence rests exactly that order's contribution.
pub proof fn lemma_resting_qty_singleton(x: Order, id: u64)
    ensures
        resting_qty(seq![x], id) == (if x.id == id {
            x.quantity as int
        } else {
            0
        }),
{
    assert(seq![x].drop_first() =~= Seq::<Order>::empty());
    assert(resting_qty(Seq::<Order>::empty(), id) == 0);
}

/// The resting total of a concatenation is the sum of the two totals.
pub proof fn lemma_resting_qty_concat(a: Seq<Order>, b: Seq<Order>, id: u64)
    ensures
        resting_qty(a + b, id) == resting_qty(a, id) + resting_qty(b, id),
    decreases a.len(),
{
    if a.len() == 0 {
        assert(a + b =~= b);
    } else {
        assert((a + b).drop_first() =~= a.drop_first() + b);
        assert((a + b)[0] == a[0]);
        lemma_resting_qty_concat(a.drop_first(), b, id);
    }
}

/// A resting total is never negative.
pub proof fn lemma_resting_qty_nonneg(s: Seq<Order>, id: u64)
    ensures
        resting_qty(s, id) >= 0,
    decreases s.len(),
{
    if s.len() > 0 {
        lemma_resting_qty_nonneg(s.drop_first(), id);
    }
}

/// The bought total of a concatenation is the sum of the two totals.
pub proof fn lemma_bought_qty_concat(a: Seq<Trade>, b: Seq<Trade>, id: u64)
    ensures
        bought_qty(a + b, id) == bought_qty(a, id) + bought_qty(b, id),
    decreases a.len(),
{
    if a.len() == 0 {
        assert(a + b =~= b);
    } else {
        assert((a + b).drop_first() =~= a.drop_first() + b);
        assert((a + b)[0] == a[0]);
        lemma_bought_qty_concat(a.drop_first(), b, id);
    }
}

/// The sold total of a concatenation is the sum of the two totals.
pub proof fn lemma_sold_qty_concat(a: Seq<Trade>, b: Seq<Trade>, id: u64)
    ensures
        sold_qty(a + b, id) == sold_qty(a, id) + sold_qty(b, id),
    decreases a.len(),
{
    if a.len() == 0 {
        assert(a + b =~= b);
    } else {
        assert((a + b).drop_first() =~= a.drop_first() + b);
        assert((a + b)[0] == a[0]);
        lemma_sold_qty_concat(a.drop_first(), b, id);
    }
}

/// Bought and sold totals are never negative.
pub proof fn lemma_traded_qty_nonneg(ts: Seq<Trade>, id: u64)
    ensures
        bought_qty(ts, id) >= 0,
        sold_qty(ts, id) >= 0,
    decreases ts.len(),
{
    if ts.len() > 0 {
        lemma_traded_qty_nonneg(ts.drop_first(), id);
    }
}

/// A one-trade sequence contributes exactly that trade's quantity.
pub proof fn lemma_traded_qty_singleton(t: Trade, id: u64)
    ensures
        bought_qty(seq![t], id) == (if t.buy_id == id {
            t.quantity as int
        } else {
            0
        }),
        sold_qty(seq![t], id) == (if t.sell_id == id {
            t.quantity as int
        } else {
            0
        }),
{
    assert(seq![t].drop_first() =~= Seq::<Trade>::empty());
    assert(bought_qty(Seq::<Trade>::empty(), id) == 0);
    assert(sold_qty(Seq::<Trade>::empty(), id) == 0);
}

/// Stable descending insertion keeps sortedness and positivity, adds exactly
/// the new order's quantity to its id's resting total, and introduces no
/// order beyond the new one and those already present.
pub proof fn lemma_insert_buy(s: Seq<Order>, x: Order)
    ensures
        insert_buy(s, x).len() == s.len() + 1,
        sorted_desc(s) ==> sorted_desc(insert_buy(s, x)),
        all_positive(s) && x.quantity > 0 ==> all_positive(insert_buy(s, x)),
        forall|id: u64|
            resting_qty(insert_buy(s, x), id) == resting_qty(s, id) + (if x.id == id {
                x.quantity as int
            } else {
                0
            }),
        forall|k: int|
            0 <= k < insert_buy(s, x).len() ==> insert_buy(s, x)[k] == x || s.contains(
                insert_buy(s, x)[k],
            ),
    decreases s.len(),
{
    let r = insert_buy(s, x);
    if s.len() == 0 {
        assert(r =~= seq![x]);
        assert forall|id: u64|
            resting_qty(r, id) == resting_qty(s, id) + (if x.id == id {
                x.quantity as int
            } else {
                0
            }) by {
            lemma_resting_qty_singleton(x, id);
            assert(resting_qty(s, id) == 0);
        }
    } else if x.price > s[0].price {
        assert(r =~= seq![x] + s);
        assert forall|id: u64|
            resting_qty(r, id) == resting_qty(s, id) + (if x.id == id {
                x.quantity as int
            } else {
                0
            }) by {
            lemma_resting_qty_concat(seq![x], s, id);
            lemma_resting_qty_singleton(x, id);
        }
        assert forall|k: int| 0 <= k < r.len() implies r[k] == x || s.contains(r[k]) by {
            if k > 0 {
                assert(r[k] == s[k - 1]);
            }
        }
    } else {
        lemma_insert_buy(s.drop_first(), x);
        let rr = insert_buy(s.drop_first(), x);
        assert(r =~= seq![s[0]] + rr);
        assert forall|id: u64|
            resting_qty(r, id) == resting_qty(s, id) + (if x.id == id {
                x.quantity as int
            } else {
                0
            }) by {
            lemma_resting_qty_concat(seq![s[0]], rr, id);
            lemma_resting_qty_singleton(s[0], id);
            assert(resting_qty(s, id) == (if s[0].id == id {
                s[0].quantity as int
            } else {
                0
            }) + resting_qty(s.drop_first(), id));
        }
        assert forall|k: int| 0 <= k < r.len() implies r[k] == x || s.contains(r[k]) by {
            if k == 0 {
                assert(s.contains(s[0])) by {
                    assert(s[0] == s[0]);
                }
            } else {
                assert(r[k] == rr[k - 1]);
                if rr[k - 1] == x {
                } else {
                    let w = choose|w: int| 0 <= w < s.drop_first().len() && s.drop_first()[w]
                        == rr[k - 1];
                    assert(s[w + 1] == rr[k - 1]);
                }
            }
        }
        if sorted_desc(s) {
            assert(sorted_desc(s.drop_first())) by {
                assert forall|i: int, j: int|
                    0 <= i < j < s.drop_first().len() implies s.drop_first()[i].price
                    >= s.drop_first()[j].price by {
                    assert(s.drop_first()[i] == s[i + 1]);
                    assert(s.drop_first()[j] == s[j + 1]);
                }
            }
            assert forall|k: int| 0 <= k < rr.len() implies rr[k].price <= s[0].price by {
                if rr[k] == x {
                } else {
                    let w = choose|w: int| 0 <= w < s.drop_first().len() && s.drop_first()[w]
                        == rr[k];
                    assert(s[w + 1] == rr[k]);
                }
            }
            assert forall|i: int, j: int| 0 <= i < j < r.len() implies r[i].price
                >= r[j].price by {
                if i > 0 {
                    assert(r[i] == rr[i - 1]);
                    assert(r[j] == rr[j - 1]);
                } else {
                    assert(r[j] == rr[j - 1]);
                }
            }
        }
        if all_positive(s) && x.quantity > 0 {
            assert(all_positive(s.drop_first())) by {
                assert forall|i: int| 0 <= i < s.drop_first().len() implies s.drop_first()[i]
                    .quantity > 0 by {
                    assert(s.drop_first()[i] == s[i + 1]);
                }
            }
            assert forall|i: int| 0 <= i < r.len() implies r[i].quantity > 0 by {
                if i > 0 {
                    assert(r[i] == rr[i - 1]);
                }
            }
        }
    }
}

/// Stable ascending insertion: the mirror of `lemma_insert_buy`.
pub proof fn lemma_insert_sell(s: Seq<Order>, x: Order)
    ensures
        insert_sell(s, x).len() == s.len() + 1,
        sorted_asc(s) ==> sorted_asc(insert_sell(s, x)),
        all_positive(s) && x.quantity > 0 ==> all_positive(insert_sell(s, x)),
        forall|id: u64|
            resting_qty(insert_sell(s, x), id) == resting_qty(s, id) + (if x.id == id {
                x.quantity as int
            } else {
                0
            }),
        forall|k: int|
            0 <= k < insert_sell(s, x).len() ==> insert_sell(s, x)[k] == x || s.contains(
                insert_sell(s, x)[k],
            ),
    decreases s.len(),
{
    let r = insert_sell(s, x);
    if s.len() == 0 {
        assert(r =~= seq![x]);
        assert forall|id: u64|
            resting_qty(r, id) == resting_qty(s, id) + (if x.id == id {
                x.quantity as int
            } else {
                0
            }) by {
            lemma_resting_qty_singleton(x, id);
            assert(resting_qty(s, id) == 0);
        }
    } else if x.price < s[0].price {
        assert(r =~= seq![x] + s);
        assert forall|id: u64|
            resting_qty(r, id) == resting_qty(s, id) + (if x.id == id {
                x.quantity as int
            } else {
                0
            }) by {
            lemma_resting_qty_concat(seq![x], s, id);
            lemma_resting_qty_singleton(x, id);
        }
        assert forall|k: int| 0 <= k < r.len() implies r[k] == x || s.contains(r[k]) by {
            if k > 0 {
                assert(r[k] == s[k - 1]);
            }
        }
    } else {
        lemma_insert_sell(s.drop_first(), x);
        let rr = insert_sell(s.drop_first(), x);
        assert(r =~= seq![s[0]] + rr);
        assert forall|id: u64|
            resting_qty(r, id) == resting_qty(s, id) + (if x.id == id {
                x.quantity as int
            } else {
                0
            }) by {
            lemma_resting_qty_concat(seq![s[0]], rr, id);
            lemma_resting_qty_singleton(s[0], id);
            assert(resting_qty(s, id) == (if s[0].id == id {
                s[0].quantity as int
            } else {
                0
            }) + resting_qty(s.drop_first(), id));
        }
        assert forall|k: int| 0 <= k < r.len() implies r[k] == x || s.contains(r[k]) by {
            if k == 0 {
                assert(s.contains(s[0])) by {
                    assert(s[0] == s[0]);
                }
            } else {
                assert(r[k] == rr[k - 1]);
                if rr[k - 1] == x {
                } else {
                    let w = choose|w: int| 0 <= w < s.drop_first().len() && s.drop_first()[w]
                        == rr[k - 1];
                    assert(s[w + 1] == rr[k - 1]);
                }
            }
        }
        if sorted_asc(s) {
            assert(sorted_asc(s.drop_first())) by {
                assert forall|i: int, j: int|
                    0 <= i < j < s.drop_first().len() implies s.drop_first()[i].price
                    <= s.drop_first()[j].price by {
                    assert(s.drop_first()[i] == s[i + 1]);
                    assert(s.drop_first()[j] == s[j + 1]);
                }
            }
            assert forall|k: int| 0 <= k < rr.len() implies rr[k].price >= s[0].price by {
                if rr[k] == x {
                } else {
                    let w = choose|w: int| 0 <= w < s.drop_first().len() && s.drop_first()[w]
                        == rr[k];
                    assert(s[w + 1] == rr[k]);
                }
            }
            assert forall|i: int, j: int| 0 <= i < j < r.len() implies r[i].price
                <= r[j].price by {
                if i > 0 {
                    assert(r[i] == rr[i - 1]);
                    assert(r[j] == rr[j - 1]);
                } else {
                    assert(r[j] == rr[j - 1]);
                }
            }
        }
        if all_positive(s) && x.quantity > 0 {
            assert(all_positive(s.drop_first())) by {
                assert forall|i: int| 0 <= i < s.drop_first().len() implies s.drop_first()[i]
                    .quantity > 0 by {
                    assert(s.drop_first()[i] == s[i + 1]);
                }
            }
            assert forall|i: int| 0 <= i < r.len() implies r[i].quantity > 0 by {
                if i > 0 {
                    assert(r[i] == rr[i - 1]);
                }
            }
        }
    }
}

/// Sorting the buy side yields a descending sequence with the same length,
/// the same resting totals, and only orders that were already present.
pub proof fn lemma_sort_buys(s: Seq<Order>)
    ensures
        sort_buys(s).len() == s.len(),
        sorted_desc(sort_buys(s)),
        all_positive(s) ==> all_positive(sort_buys(s)),
        forall|id: u64| resting_qty(sort_buys(s), id) == resting_qty(s, id),
        forall|k: int| 0 <= k < sort_buys(s).len() ==> s.contains(sort_buys(s)[k]),
    decreases s.len(),
{
    let r = sort_buys(s);
    if s.len() == 0 {
    } else {
        let butlast = s.drop_last();
        lemma_sort_buys(butlast);
        lemma_insert_buy(sort_buys(butlast), s.last());
        assert(butlast.push(s.last()) =~= s);
        if all_positive(s) {
            assert(all_positive(butlast)) by {
                assert forall|i: int| 0 <= i < butlast.len() implies butlast[i].quantity > 0 by {
                    assert(butlast[i] == s[i]);
                }
            }
            assert(s.last().quantity > 0);
        }
        assert forall|id: u64| resting_qty(r, id) == resting_qty(s, id) by {
            lemma_resting_qty_push(butlast, s.last(), id);
        }
        assert forall|k: int| 0 <= k < r.len() implies s.contains(r[k]) by {
            if r[k] == s.last() {
                assert(s[s.len() - 1] == s.last());
            } else {
                let w = choose|w: int| 0 <= w < sort_buys(butlast).len() && sort_buys(butlast)[w]
                    == r[k];
                let v = choose|v: int| 0 <= v < butlast.len() && butlast[v] == sort_buys(butlast)[w];
                assert(s[v] == r[k]);
            }
        }
    }
}

/// Sorting the sell side: the mirror of `lemma_sort_buys`.
pub proof fn lemma_sort_sells(s: Seq<Order>)
    ensures
        sort_sells(s).len() == s.len(),
        sorted_asc(sort_sells(s)),
        all_positive(s) ==> all_positive(sort_sells(s)),
        forall|id: u64| resting_qty(sort_sells(s), id) == resting_qty(s, id),
        forall|k: int| 0 <= k < sort_sells(s).len() ==> s.contains(sort_sells(s)[k]),
    decreases s.len(),
{
    let r = sort_sells(s);
    if s.len() == 0 {
    } else {
        let butlast = s.drop_last();
        lemma_sort_sells(butlast);
        lemma_insert_sell(sort_sells(butlast), s.last());
        assert(butlast.push(s.last()) =~= s);
        if all_positive(s) {
            assert(all_positive(butlast)) by {
                assert forall|i: int| 0 <= i < butlast.len() implies butlast[i].quantity > 0 by {
                    assert(butlast[i] == s[i]);
                }
            }
            assert(s.last().quantity > 0);
        }
        assert forall|id: u64| resting_qty(r, id) == resting_qty(s, id) by {
            lemma_resting_qty_push(butlast, s.last(), id);
        }
        assert forall|k: int| 0 <= k < r.len() implies s.contains(r[k]) by {
            if r[k] == s.last() {
                assert(s[s.len() - 1] == s.last());
            } else {
                let w = choose|w: int| 0 <= w < sort_sells(butlast).len() && sort_sells(butlast)[w]
                    == r[k];
                let v = choose|v: int| 0 <= v < butlast.len() && butlast[v] == sort_sells(
                    butlast,
                )[w];
                assert(s[v] == r[k]);
            }
        }
    }
}

/// The sells remaining after dropping the best ask stay positive, and stay
/// sorted if the whole side was.
proof fn lemma_rest_wf(sells: Seq<Order>)
    requires
        sells.len() > 0,
        all_positive(sells),
    ensures
        all_positive(sells.drop_first()),
        sorted_asc(sells) ==> sorted_asc(sells.drop_first()),
{
    let rest = sells.drop_first();
    assert forall|i: int| 0 <= i < rest.len() implies (#[trigger] rest[i]).quantity > 0 by {
        assert(rest[i] == sells[i + 1]);
    }
    if sorted_asc(sells) {
        assert forall|i: int, j: int| 0 <= i < j < rest.len() implies rest[i].price
            <= rest[j].price by {
            assert(rest[i] == sells[i + 1]);
            assert(rest[j] == sells[j + 1]);
        }
    }
}

/// The scan never changes the buy's id, side or price, and never raises its
/// quantity.
pub proof fn lemma_fill_buy(buy: Order, sells: Seq<Order>)
    ensures
        fill(buy, sells).0.id == buy.id,
        fill(buy, sells).0.order_type == buy.order_type,
        fill(buy, sells).0.price == buy.price,
        fill(buy, sells).0.quantity <= buy.quantity,
    decreases sells.len(),
{
    if sells.len() == 0 || buy.quantity == 0 {
    } else if buy.price >= sells[0].price {
        let q = min_qty(buy.quantity, sells[0].quantity);
        let b2 = Order {
            id: buy.id,
            order_type: buy.order_type,
            price: buy.price,
            quantity: (buy.quantity - q) as u64,
        };
        if sells[0].quantity - q == 0 {
            lemma_fill_buy(b2, sells.drop_first());
        }
    } else {
        lemma_fill_buy(buy, sells.drop_first());
    }
}

/// Descent is reflexive: a side descends from itself.
proof fn lemma_drawn_from_refl(s: Seq<Order>)
    ensures
        crate::model::drawn_from(s, s),
{
    assert forall|k: int| 0 <= k < s.len() implies #[trigger] crate::model::descends_in(
        s,
        s,
        k,
    ) by {
        assert(crate::model::reduced_order(s[k], s[k]));
    }
}

/// Descent from the tail of a side is descent from the whole side.
proof fn lemma_drawn_from_tail(a: Seq<Order>, sells: Seq<Order>)
    requires
        sells.len() > 0,
        crate::model::drawn_from(a, sells.drop_first()),
    ensures
        crate::model::drawn_from(a, sells),
{
    let rest = sells.drop_first();
    assert forall|k: int| 0 <= k < a.len() implies #[trigger] crate::model::descends_in(
        a,
        sells,
        k,
    ) by {
        assert(crate::model::descends_in(a, rest, k));
        let w = choose|w: int| 0 <= w < rest.len() && #[trigger] crate::model::reduced_order(
            a[k],
            rest[w],
        );
        assert(sells[w + 1] == rest[w]);
        assert(crate::model::reduced_order(a[k], sells[w + 1]));
    }
}

/// An order that descends from the head, in front of a sequence that
/// descends from the tail, descends from the whole side.
proof fn lemma_drawn_from_cons(h: Order, a: Seq<Order>, sells: Seq<Order>)
    requires
        sells.len() > 0,
        crate::model::reduced_order(h, sells[0]),
        crate::model::drawn_from(a, sells.drop_first()),
    ensures
        crate::model::drawn_from(seq![h] + a, sells),
{
    let rest = sells.drop_first();
    let c = seq![h] + a;
    assert forall|k: int| 0 <= k < c.len() implies #[trigger] crate::model::descends_in(
        c,
        sells,
        k,
    ) by {
        if k == 0 {
            assert(c[0] == h);
            assert(crate::model::reduced_order(c[k], sells[0]));
        } else {
            assert(c[k] == a[k - 1]);
            assert(crate::model::descends_in(a, rest, k - 1));
            let w = choose|w: int| 0 <= w < rest.len() && #[trigger] crate::model::reduced_order(
                a[k - 1],
                rest[w],
            );
            assert(sells[w + 1] == rest[w]);
            assert(crate::model::reduced_order(c[k], sells[w + 1]));
        }
    }
}

/// The sells that remain after the scan descend one for one from the given
/// ones: same id, side and price, with no more quantity.
pub proof fn lemma_fill_drawn(buy: Order, sells: Seq<Order>)
    ensures
        crate::model::drawn_from(fill(buy, sells).1, sells),
    decreases sells.len(),
{
    let f = fill(buy, sells);
    if sells.len() == 0 || buy.quantity == 0 {
        lemma_drawn_from_refl(sells);
    } else {
        let s0 = sells[0];
        let rest = sells.drop_first();
        if buy.price >= s0.price {
            let q = min_qty(buy.quantity, s0.quantity);
            let b2 = Order {
                id: buy.id,
                order_type: buy.order_type,
                price: buy.price,
                quantity: (buy.quantity - q) as u64,
            };
            let s2 = Order {
                id: s0.id,
                order_type: s0.order_type,
                price: s0.price,
                quantity: (s0.quantity - q) as u64,
            };
            if s2.quantity == 0 {
                lemma_fill_drawn(b2, rest);
                lemma_drawn_from_tail(fill(b2, rest).1, sells);
            } else {
                lemma_drawn_from_refl(rest);
                assert(crate::model::reduced_order(s2, sells[0]));
                lemma_drawn_from_cons(s2, rest, sells);
            }
        } else {
            lemma_fill_drawn(buy, rest);
            assert(crate::model::reduced_order(s0, sells[0]));
            lemma_drawn_from_cons(s0, fill(buy, rest).1, sells);
        }
    }
}
/// A head priced no higher than anything in the source side, in front of a
/// sorted sequence descending from that side, makes a sorted sequence.
proof fn lemma_sorted_cons(h: Order, a: Seq<Order>, src: Seq<Order>)
    requires
        sorted_asc(a),
        crate::model::drawn_from(a, src),
        forall|j: int| 0 <= j < src.len() ==> h.price <= (#[trigger] src[j]).price,
    ensures
        sorted_asc(seq![h] + a),
{
    let c = seq![h] + a;
    assert forall|i: int, j: int| 0 <= i < j < c.len() implies c[i].price <= c[j].price by {
        assert(c[j] == a[j - 1]);
        if i > 0 {
            assert(c[i] == a[i - 1]);
        } else {
            assert(crate::model::descends_in(a, src, j - 1));
            let w = choose|w: int| 0 <= w < src.len() && #[trigger] crate::model::reduced_order(
                a[j - 1],
                src[w],
            );
            assert(h.price <= src[w].price);
        }
    }
}

/// The sells that remain after the scan are still all positive, and still
/// sorted ascending if the side came in sorted.
pub proof fn lemma_fill_sells_wf(buy: Order, sells: Seq<Order>)
    requires
        all_positive(sells),
    ensures
        all_positive(fill(buy, sells).1),
        sorted_asc(sells) ==> sorted_asc(fill(buy, sells).1),
    decreases sells.len(),
{
    let f = fill(buy, sells);
    if sells.len() == 0 || buy.quantity == 0 {
    } else {
        let s0 = sells[0];
        let rest = sells.drop_first();
        lemma_rest_wf(sells);
        if buy.price >= s0.price {
            let q = min_qty(buy.quantity, s0.quantity);
            let b2 = Order {
                id: buy.id,
                order_type: buy.order_type,
                price: buy.price,
                quantity: (buy.quantity - q) as u64,
            };
            let s2 = Order {
                id: s0.id,
                order_type: s0.order_type,
                price: s0.price,
                quantity: (s0.quantity - q) as u64,
            };
            if s2.quantity == 0 {
                lemma_fill_sells_wf(b2, rest);
            } else {
                assert(f.1 == seq![s2] + rest);
                assert forall|i: int| 0 <= i < f.1.len() implies (#[trigger] f.1[i]).quantity
                    > 0 by {
                    if i > 0 {
                        assert(f.1[i] == rest[i - 1]);
                    }
                }
                if sorted_asc(sells) {
                    lemma_drawn_from_refl(rest);
                    assert forall|j: int| 0 <= j < rest.len() implies s2.price <= (
                    #[trigger] rest[j]).price by {
                        assert(rest[j] == sells[j + 1]);
                    }
                    lemma_sorted_cons(s2, rest, rest);
                }
            }
        } else {
            lemma_fill_sells_wf(buy, rest);
            let r = fill(buy, rest);
            assert(f.1 == seq![s0] + r.1);
            assert forall|i: int| 0 <= i < f.1.len() implies (#[trigger] f.1[i]).quantity > 0 by {
                if i > 0 {
                    assert(f.1[i] == r.1[i - 1]);
                }
            }
            if sorted_asc(sells) {
                lemma_fill_drawn(buy, rest);
                assert forall|j: int| 0 <= j < rest.len() implies s0.price <= (
                #[trigger] rest[j]).price by {
                    assert(rest[j] == sells[j + 1]);
                }
                lemma_sorted_cons(s0, r.1, rest);
            }
        }
    }
}

/// If the buy comes out of the scan with quantity left, every sell that
/// remains is priced strictly above it.
pub proof fn lemma_fill_above(buy: Order, sells: Seq<Order>)
    ensures
        fill(buy, sells).0.quantity > 0 ==> forall|j: int|
            0 <= j < fill(buy, sells).1.len() ==> (#[trigger] fill(buy, sells).1[j]).price
                > buy.price,
    decreases sells.len(),
{
    let f = fill(buy, sells);
    if sells.len() == 0 || buy.quantity == 0 {
    } else {
        let s0 = sells[0];
        let rest = sells.drop_first();
        if buy.price >= s0.price {
            let q = min_qty(buy.quantity, s0.quantity);
            let b2 = Order {
                id: buy.id,
                order_type: buy.order_type,
                price: buy.price,
                quantity: (buy.quantity - q) as u64,
            };
            if s0.quantity - q == 0 {
                lemma_fill_above(b2, rest);
            } else {
                assert(f.0.quantity == 0);
            }
        } else {
            lemma_fill_above(buy, rest);
            let r = fill(buy, rest);
            if f.0.quantity > 0 {
                assert forall|j: int| 0 <= j < f.1.len() implies (#[trigger] f.1[j]).price
                    > buy.price by {
                    if j > 0 {
                        assert(f.1[j] == r.1[j - 1]);
                    } else {
                        assert(f.1[0] == s0);
                    }
                }
            }
        }
    }
}
/// Every trade the scan emits names this buy, executes at the price of one
/// of the given sells under that sell's id, within both quantities, and
/// moves a strictly positive amount.
pub proof fn lemma_fill_trades(buy: Order, sells: Seq<Order>)
    requires
        all_positive(sells),
    ensures
        forall|k: int|
            0 <= k < fill(buy, sells).2.len() ==> (#[trigger] fill(buy, sells).2[k]).buy_id
                == buy.id && fill(buy, sells).2[k].price <= buy.price && fill(
                buy,
                sells,
            ).2[k].quantity > 0 && fill(buy, sells).2[k].quantity <= buy.quantity,
        forall|k: int|
            0 <= k < fill(buy, sells).2.len() ==> #[trigger] crate::model::sell_sourced_in(
                fill(buy, sells).2[k],
                sells,
            ),
    decreases sells.len(),
{
    let f = fill(buy, sells);
    if sells.len() == 0 || buy.quantity == 0 {
    } else {
        let s0 = sells[0];
        let rest = sells.drop_first();
        lemma_rest_wf(sells);
        if buy.price >= s0.price {
            let q = min_qty(buy.quantity, s0.quantity);
            let t = Trade { buy_id: buy.id, sell_id: s0.id, price: s0.price, quantity: q };
            let b2 = Order {
                id: buy.id,
                order_type: buy.order_type,
                price: buy.price,
                quantity: (buy.quantity - q) as u64,
            };
            if s0.quantity - q == 0 {
                lemma_fill_trades(b2, rest);
                let r = fill(b2, rest);
                assert(f.2 == seq![t] + r.2);
                assert forall|k: int| 0 <= k < f.2.len() implies (#[trigger] f.2[k]).buy_id
                    == buy.id && f.2[k].price <= buy.price && f.2[k].quantity > 0
                    && f.2[k].quantity <= buy.quantity by {
                    if k == 0 {
                        assert(f.2[0] == t);
                    } else {
                        assert(f.2[k] == r.2[k - 1]);
                    }
                }
                assert forall|k: int| 0 <= k < f.2.len() implies
                    #[trigger] crate::model::sell_sourced_in(f.2[k], sells) by {
                    if k == 0 {
                        assert(f.2[0] == t);
                        assert(crate::model::trade_takes_sell(f.2[k], sells[0]));
                    } else {
                        assert(f.2[k] == r.2[k - 1]);
                        assert(crate::model::sell_sourced_in(r.2[k - 1], rest));
                        let w = choose|w: int|
                            0 <= w < rest.len() && #[trigger] crate::model::trade_takes_sell(
                                r.2[k - 1],
                                rest[w],
                            );
                        assert(sells[w + 1] == rest[w]);
                        assert(crate::model::trade_takes_sell(f.2[k], sells[w + 1]));
                    }
                }
            } else {
                assert(q == buy.quantity);
                assert(f.2 == seq![t]);
                assert forall|k: int| 0 <= k < f.2.len() implies
                    #[trigger] crate::model::sell_sourced_in(f.2[k], sells) by {
                    assert(f.2[0] == t);
                    assert(crate::model::trade_takes_sell(f.2[k], sells[0]));
                }
            }
        } else {
            lemma_fill_trades(buy, rest);
            let r = fill(buy, rest);
            assert(f.2 == r.2);
            assert forall|k: int| 0 <= k < f.2.len() implies
                #[trigger] crate::model::sell_sourced_in(f.2[k], sells) by {
                assert(crate::model::sell_sourced_in(r.2[k], rest));
                let w = choose|w: int|
                    0 <= w < rest.len() && #[trigger] crate::model::trade_takes_sell(
                        r.2[k],
                        rest[w],
                    );
                assert(sells[w + 1] == rest[w]);
                assert(crate::model::trade_takes_sell(f.2[k], sells[w + 1]));
            }
        }
    }
}

/// Quantity is conserved by the scan, exactly: what the buy lost is the
/// bought total of the emitted trades, and per id, what the sells lost is
/// the sold total.
pub proof fn lemma_fill_qty(buy: Order, sells: Seq<Order>)
    ensures
        forall|id: u64|
            bought_qty(fill(buy, sells).2, id) == (if id == buy.id {
                buy.quantity - fill(buy, sells).0.quantity
            } else {
                0
            }),
        forall|id: u64|
            resting_qty(fill(buy, sells).1, id) + sold_qty(fill(buy, sells).2, id) == resting_qty(
                sells,
                id,
            ),
    decreases sells.len(),
{
    let f = fill(buy, sells);
    if sells.len() == 0 || buy.quantity == 0 {
        assert forall|id: u64|
            bought_qty(f.2, id) == (if id == buy.id {
                buy.quantity - f.0.quantity
            } else {
                0
            }) by {
            assert(bought_qty(Seq::<Trade>::empty(), id) == 0);
        }
        assert forall|id: u64|
            resting_qty(f.1, id) + sold_qty(f.2, id) == resting_qty(sells, id) by {
            assert(sold_qty(Seq::<Trade>::empty(), id) == 0);
        }
    } else {
        let s0 = sells[0];
        let rest = sells.drop_first();
        if buy.price >= s0.price {
            let q = min_qty(buy.quantity, s0.quantity);
            let t = Trade { buy_id: buy.id, sell_id: s0.id, price: s0.price, quantity: q };
            let b2 = Order {
                id: buy.id,
                order_type: buy.order_type,
                price: buy.price,
                quantity: (buy.quantity - q) as u64,
            };
            let s2 = Order {
                id: s0.id,
                order_type: s0.order_type,
                price: s0.price,
                quantity: (s0.quantity - q) as u64,
            };
            if s2.quantity == 0 {
                lemma_fill_qty(b2, rest);
                let r = fill(b2, rest);
                assert(f == (r.0, r.1, seq![t] + r.2));
                lemma_fill_buy(b2, rest);
                assert forall|id: u64|
                    bought_qty(f.2, id) == (if id == buy.id {
                        buy.quantity - f.0.quantity
                    } else {
                        0
                    }) by {
                    lemma_bought_qty_concat(seq![t], r.2, id);
                    lemma_traded_qty_singleton(t, id);
                }
                assert forall|id: u64|
                    resting_qty(f.1, id) + sold_qty(f.2, id) == resting_qty(sells, id) by {
                    lemma_sold_qty_concat(seq![t], r.2, id);
                    lemma_traded_qty_singleton(t, id);
                    assert(resting_qty(sells, id) == (if s0.id == id {
                        s0.quantity as int
                    } else {
                        0
                    }) + resting_qty(rest, id));
                }
            } else {
                assert(q == buy.quantity);
                assert(f == (b2, seq![s2] + rest, seq![t]));
                assert forall|id: u64|
                    bought_qty(f.2, id) == (if id == buy.id {
                        buy.quantity - f.0.quantity
                    } else {
                        0
                    }) by {
                    lemma_traded_qty_singleton(t, id);
                }
                assert forall|id: u64|
                    resting_qty(f.1, id) + sold_qty(f.2, id) == resting_qty(sells, id) by {
                    lemma_traded_qty_singleton(t, id);
                    lemma_resting_qty_concat(seq![s2], rest, id);
                    lemma_resting_qty_singleton(s2, id);
                    assert(resting_qty(sells, id) == (if s0.id == id {
                        s0.quantity as int
                    } else {
                        0
                    }) + resting_qty(rest, id));
                }
            }
        } else {
            lemma_fill_qty(buy, rest);
            let r = fill(buy, rest);
            assert(f == (r.0, seq![s0] + r.1, r.2));
            assert forall|id: u64|
                resting_qty(f.1, id) + sold_qty(f.2, id) == resting_qty(sells, id) by {
                lemma_resting_qty_concat(seq![s0], r.1, id);
                lemma_resting_qty_singleton(s0, id);
                assert(resting_qty(sells, id) == (if s0.id == id {
                    s0.quantity as int
                } else {
                    0
                }) + resting_qty(rest, id));
            }
        }
    }
}

/// Descent is transitive.
proof fn lemma_drawn_from_trans(a: Seq<Order>, b: Seq<Order>, c: Seq<Order>)
    requires
        crate::model::drawn_from(a, b),
        crate::model::drawn_from(b, c),
    ensures
        crate::model::drawn_from(a, c),
{
    assert forall|k: int| 0 <= k < a.len() implies #[trigger] crate::model::descends_in(
        a,
        c,
        k,
    ) by {
        assert(crate::model::descends_in(a, b, k));
        let w = choose|w: int| 0 <= w < b.len() && #[trigger] crate::model::reduced_order(
            a[k],
            b[w],
        );
        assert(crate::model::descends_in(b, c, w));
        let v = choose|v: int| 0 <= v < c.len() && #[trigger] crate::model::reduced_order(
            b[w],
            c[v],
        );
        assert(crate::model::reduced_order(a[k], c[v]));
    }
}

/// A head priced no lower than anything in the source side, in front of a
/// descending sequence descending from that side, stays descending.
proof fn lemma_sorted_cons_desc(h: Order, a: Seq<Order>, src: Seq<Order>)
    requires
        sorted_desc(a),
        crate::model::drawn_from(a, src),
        forall|j: int| 0 <= j < src.len() ==> h.price >= (#[trigger] src[j]).price,
    ensures
        sorted_desc(seq![h] + a),
{
    let c = seq![h] + a;
    assert forall|i: int, j: int| 0 <= i < j < c.len() implies c[i].price >= c[j].price by {
        assert(c[j] == a[j - 1]);
        if i > 0 {
            assert(c[i] == a[i - 1]);
        } else {
            assert(crate::model::descends_in(a, src, j - 1));
            let w = choose|w: int| 0 <= w < src.len() && #[trigger] crate::model::reduced_order(
                a[j - 1],
                src[w],
            );
            assert(h.price >= src[w].price);
        }
    }
}

/// The buys remaining after dropping the best bid stay positive and, if the
/// side was sorted, sorted.
proof fn lemma_rest_wf_buys(buys: Seq<Order>)
    requires
        buys.len() > 0,
    ensures
        all_positive(buys) ==> all_positive(buys.drop_first()),
        sorted_desc(buys) ==> sorted_desc(buys.drop_first()),
{
    let rest = buys.drop_first();
    if all_positive(buys) {
        assert forall|i: int| 0 <= i < rest.len() implies (#[trigger] rest[i]).quantity > 0 by {
            assert(rest[i] == buys[i + 1]);
        }
    }
    if sorted_desc(buys) {
        assert forall|i: int, j: int| 0 <= i < j < rest.len() implies rest[i].price
            >= rest[j].price by {
            assert(rest[i] == buys[i + 1]);
            assert(rest[j] == buys[j + 1]);
        }
    }
}

/// After the whole matching walk the sells that remain descend from the
/// given ones, stay positive, and stay sorted if they came in sorted.
pub proof fn lemma_run_match_sells(buys: Seq<Order>, sells: Seq<Order>)
    requires
        all_positive(sells),
    ensures
        crate::model::drawn_from(run_match(buys, sells).1, sells),
        all_positive(run_match(buys, sells).1),
        sorted_asc(sells) ==> sorted_asc(run_match(buys, sells).1),
    decreases buys.len(),
{
    let m = run_match(buys, sells);
    if buys.len() == 0 {
        lemma_drawn_from_refl(sells);
    } else {
        let f = fill(buys[0], sells);
        lemma_fill_drawn(buys[0], sells);
        lemma_fill_sells_wf(buys[0], sells);
        lemma_run_match_sells(buys.drop_first(), f.1);
        lemma_drawn_from_trans(run_match(buys.drop_first(), f.1).1, f.1, sells);
    }
}

/// After the whole matching walk the buys that remain descend from the
/// given ones, are all positive, and stay sorted if they came in sorted.
pub proof fn lemma_run_match_buys(buys: Seq<Order>, sells: Seq<Order>)
    ensures
        crate::model::drawn_from(run_match(buys, sells).0, buys),
        all_positive(run_match(buys, sells).0),
        sorted_desc(buys) ==> sorted_desc(run_match(buys, sells).0),
    decreases buys.len(),
{
    let m = run_match(buys, sells);
    if buys.len() == 0 {
        lemma_drawn_from_refl(m.0);
    } else {
        let f = fill(buys[0], sells);
        let rest = buys.drop_first();
        let r = run_match(rest, f.1);
        lemma_fill_buy(buys[0], sells);
        lemma_run_match_buys(rest, f.1);
        if f.0.quantity == 0 {
            lemma_drawn_from_tail(r.0, buys);
        } else {
            assert(crate::model::reduced_order(f.0, buys[0]));
            lemma_drawn_from_cons(f.0, r.0, buys);
            assert(m.0 == seq![f.0] + r.0);
            assert forall|i: int| 0 <= i < m.0.len() implies (#[trigger] m.0[i]).quantity > 0 by {
                if i > 0 {
                    assert(m.0[i] == r.0[i - 1]);
                }
            }
            if sorted_desc(buys) {
                lemma_rest_wf_buys(buys);
                assert forall|j: int| 0 <= j < rest.len() implies f.0.price >= (
                #[trigger] rest[j]).price by {
                    assert(rest[j] == buys[j + 1]);
                }
                lemma_sorted_cons_desc(f.0, r.0, rest);
            }
        }
    }
}

/// After the whole matching walk no crossing pair survives: every remaining
/// buy is priced strictly below every remaining sell.
pub proof fn lemma_run_match_cross(buys: Seq<Order>, sells: Seq<Order>)
    requires
        all_positive(sells),
    ensures
        crate::model::no_cross(run_match(buys, sells).0, run_match(buys, sells).1),
    decreases buys.len(),
{
    let m = run_match(buys, sells);
    if buys.len() == 0 {
    } else {
        let f = fill(buys[0], sells);
        let rest = buys.drop_first();
        let r = run_match(rest, f.1);
        lemma_fill_buy(buys[0], sells);
        lemma_fill_above(buys[0], sells);
        lemma_fill_sells_wf(buys[0], sells);
        lemma_run_match_cross(rest, f.1);
        lemma_run_match_sells(rest, f.1);
        if f.0.quantity == 0 {
        } else {
            assert(m.0 == seq![f.0] + r.0);
            assert forall|i: int, j: int|
                0 <= i < m.0.len() && 0 <= j < m.1.len() implies m.0[i].price < m.1[j].price by {
                if i > 0 {
                    assert(m.0[i] == r.0[i - 1]);
                } else {
                    assert(m.0[0] == f.0);
                    assert(crate::model::descends_in(r.1, f.1, j));
                    let w = choose|w: int|
                        0 <= w < f.1.len() && #[trigger] crate::model::reduced_order(
                            r.1[j],
                            f.1[w],
                        );
                    assert(f.1[w].price > buys[0].price);
                }
            }
        }
    }
}

/// A trade filled by some buy in the tail of the side is filled by some buy
/// in the whole side.
proof fn lemma_buy_sourced_tail(t: Trade, buys: Seq<Order>)
    requires
        buys.len() > 0,
        crate::model::buy_sourced_in(t, buys.drop_first()),
    ensures
        crate::model::buy_sourced_in(t, buys),
{
    let rest = buys.drop_first();
    let w = choose|w: int| 0 <= w < rest.len() && #[trigger] crate::model::trade_takes_buy(
        t,
        rest[w],
    );
    assert(buys[w + 1] == rest[w]);
    assert(crate::model::trade_takes_buy(t, buys[w + 1]));
}

/// A trade filled by a sell of a side that descends from another side is
/// filled by a sell of that other side too.
proof fn lemma_sell_sourced_lift(t: Trade, a: Seq<Order>, b: Seq<Order>)
    requires
        crate::model::sell_sourced_in(t, a),
        crate::model::drawn_from(a, b),
    ensures
        crate::model::sell_sourced_in(t, b),
{
    let w = choose|w: int| 0 <= w < a.len() && #[trigger] crate::model::trade_takes_sell(
        t,
        a[w],
    );
    assert(crate::model::descends_in(a, b, w));
    let v = choose|v: int| 0 <= v < b.len() && #[trigger] crate::model::reduced_order(a[w], b[v]);
    assert(crate::model::trade_takes_sell(t, b[v]));
}

/// Every trade of the whole matching walk moves a strictly positive amount
/// and names a buy and a sell that were present when the walk began, at the
/// sell's price, within both orders' quantities.
pub proof fn lemma_run_match_trades(buys: Seq<Order>, sells: Seq<Order>)
    requires
        all_positive(sells),
    ensures
        forall|k: int|
            0 <= k < run_match(buys, sells).2.len() ==> (#[trigger] run_match(
                buys,
                sells,
            ).2[k]).quantity > 0,
        forall|k: int|
            0 <= k < run_match(buys, sells).2.len() ==> crate::model::trade_sourced(
                #[trigger] run_match(buys, sells).2[k],
                buys,
                sells,
            ),
    decreases buys.len(),
{
    let m = run_match(buys, sells);
    if buys.len() == 0 {
    } else {
        let f = fill(buys[0], sells);
        let rest = buys.drop_first();
        let r = run_match(rest, f.1);
        lemma_fill_trades(buys[0], sells);
        lemma_fill_drawn(buys[0], sells);
        lemma_fill_sells_wf(buys[0], sells);
        lemma_run_match_trades(rest, f.1);
        assert(m.2 == f.2 + r.2);
        assert forall|k: int| 0 <= k < m.2.len() implies (#[trigger] m.2[k]).quantity > 0 by {
            if k < f.2.len() {
                assert(m.2[k] == f.2[k]);
            } else {
                assert(m.2[k] == r.2[k - f.2.len()]);
            }
        }
        assert forall|k: int| 0 <= k < m.2.len() implies crate::model::trade_sourced(
            #[trigger] m.2[k],
            buys,
            sells,
        ) by {
            if k < f.2.len() {
                assert(m.2[k] == f.2[k]);
                assert(crate::model::trade_takes_buy(f.2[k], buys[0]));
            } else {
                let t = r.2[k - f.2.len()];
                assert(m.2[k] == t);
                assert(crate::model::trade_sourced(t, rest, f.1));
                lemma_buy_sourced_tail(t, buys);
                lemma_sell_sourced_lift(t, f.1, sells);
            }
        }
    }
}

/// Quantity is conserved by the whole matching walk, id by id and exactly:
/// on each side, what rests afterwards plus what the trades moved equals
/// what rested before.
pub proof fn lemma_run_match_qty(buys: Seq<Order>, sells: Seq<Order>)
    ensures
        forall|id: u64|
            resting_qty(run_match(buys, sells).0, id) + bought_qty(run_match(buys, sells).2, id)
                == resting_qty(buys, id),
        forall|id: u64|
            resting_qty(run_match(buys, sells).1, id) + sold_qty(run_match(buys, sells).2, id)
                == resting_qty(sells, id),
    decreases buys.len(),
{
    let m = run_match(buys, sells);
    if buys.len() == 0 {
        assert forall|id: u64|
            resting_qty(m.0, id) + bought_qty(m.2, id) == resting_qty(buys, id) by {
            assert(bought_qty(Seq::<Trade>::empty(), id) == 0);
            assert(resting_qty(Seq::<Order>::empty(), id) == 0);
        }
        assert forall|id: u64|
            resting_qty(m.1, id) + sold_qty(m.2, id) == resting_qty(sells, id) by {
            assert(sold_qty(Seq::<Trade>::empty(), id) == 0);
        }
    } else {
        let f = fill(buys[0], sells);
        let rest = buys.drop_first();
        let r = run_match(rest, f.1);
        lemma_fill_buy(buys[0], sells);
        lemma_fill_qty(buys[0], sells);
        lemma_run_match_qty(rest, f.1);
        assert forall|id: u64|
            resting_qty(m.0, id) + bought_qty(m.2, id) == resting_qty(buys, id) by {
            lemma_bought_qty_concat(f.2, r.2, id);
            assert(resting_qty(buys, id) == (if buys[0].id == id {
                buys[0].quantity as int
            } else {
                0
            }) + resting_qty(rest, id));
            if f.0.quantity == 0 {
            } else {
                lemma_resting_qty_concat(seq![f.0], r.0, id);
                lemma_resting_qty_singleton(f.0, id);
            }
        }
        assert forall|id: u64|
            resting_qty(m.1, id) + sold_qty(m.2, id) == resting_qty(sells, id) by {
            lemma_sold_qty_concat(f.2, r.2, id);
        }
    }
}

/// Appending a positive order keeps a side all positive.
pub proof fn lemma_all_positive_push(s: Seq<Order>, x: Order)
    requires
        all_positive(s),
        x.quantity > 0,
    ensures
        all_positive(s.push(x)),
{
    assert forall|i: int| 0 <= i < s.push(x).len() implies (#[trigger] s.push(x)[i]).quantity
        > 0 by {
        if i < s.len() {
            assert(s.push(x)[i] == s[i]);
        } else {
            assert(s.push(x)[i] == x);
        }
    }
}

/// Submitting a positive order to a book whose sides are all positive
/// leaves a well-formed book: both sides sorted by price priority, no
/// exhausted order resting, and no crossing pair surviving.
pub proof fn lemma_spec_add_order_wf(b: crate::model::BookView, o: Order)
    requires
        all_positive(b.buys),
        all_positive(b.sells),
        o.quantity > 0,
    ensures
        crate::model::book_wf(crate::model::spec_add_order(b, o)),
{
    let buys0 = crate::model::side_with(b.buys, o, crate::order::OrderType::Buy);
    let sells0 = crate::model::side_with(b.sells, o, crate::order::OrderType::Sell);
    if o.order_type == crate::order::OrderType::Buy {
        lemma_all_positive_push(b.buys, o);
    } else {
        lemma_all_positive_push(b.sells, o);
    }
    lemma_sort_buys(buys0);
    lemma_sort_sells(sells0);
    let buys1 = sort_buys(buys0);
    let sells1 = sort_sells(sells0);
    lemma_run_match_buys(buys1, sells1);
    lemma_run_match_sells(buys1, sells1);
    lemma_run_match_cross(buys1, sells1);
}

/// Where stable descending insertion puts the new order: right after every
/// order whose price is at least as good, right before the rest.
pub proof fn lemma_insert_buy_at(s: Seq<Order>, x: Order, p: int)
    requires
        sorted_desc(s),
        0 <= p <= s.len(),
        forall|i: int| 0 <= i < p ==> (#[trigger] s[i]).price >= x.price,
        forall|i: int| p <= i < s.len() ==> (#[trigger] s[i]).price < x.price,
    ensures
        insert_buy(s, x) == s.insert(p, x),
    decreases s.len(),
{
    if s.len() == 0 {
        assert(insert_buy(s, x) =~= s.insert(0, x));
    } else if p == 0 {
        assert(s[0].price < x.price);
        assert(insert_buy(s, x) =~= s.insert(0, x));
    } else {
        assert(s[0].price >= x.price);
        let rest = s.drop_first();
        assert(sorted_desc(rest)) by {
            assert forall|i: int, j: int| 0 <= i < j < rest.len() implies rest[i].price
                >= rest[j].price by {
                assert(rest[i] == s[i + 1]);
                assert(rest[j] == s[j + 1]);
            }
        }
        assert forall|i: int| 0 <= i < p - 1 implies (#[trigger] rest[i]).price >= x.price by {
            assert(rest[i] == s[i + 1]);
        }
        assert forall|i: int| p - 1 <= i < rest.len() implies (#[trigger] rest[i]).price
            < x.price by {
            assert(rest[i] == s[i + 1]);
        }
        lemma_insert_buy_at(rest, x, p - 1);
        assert(insert_buy(s, x) == seq![s[0]] + insert_buy(rest, x));
        assert(seq![s[0]] + rest.insert(p - 1, x) =~= s.insert(p, x));
    }
}

/// Where stable ascending insertion puts the new order: right after every
/// order whose price is at least as good for the sell side.
pub proof fn lemma_insert_sell_at(s: Seq<Order>, x: Order, p: int)
    requires
        sorted_asc(s),
        0 <= p <= s.len(),
        forall|i: int| 0 <= i < p ==> (#[trigger] s[i]).price <= x.price,
        forall|i: int| p <= i < s.len() ==> (#[trigger] s[i]).price > x.price,
    ensures
        insert_sell(s, x) == s.insert(p, x),
    decreases s.len(),
{
    if s.len() == 0 {
        assert(insert_sell(s, x) =~= s.insert(0, x));
    } else if p == 0 {
        assert(s[0].price > x.price);
        assert(insert_sell(s, x) =~= s.insert(0, x));
    } else {
        assert(s[0].price <= x.price);
        let rest = s.drop_first();
        assert(sorted_asc(rest)) by {
            assert forall|i: int, j: int| 0 <= i < j < rest.len() implies rest[i].price
                <= rest[j].price by {
                assert(rest[i] == s[i + 1]);
                assert(rest[j] == s[j + 1]);
            }
        }
        assert forall|i: int| 0 <= i < p - 1 implies (#[trigger] rest[i]).price <= x.price by {
            assert(rest[i] == s[i + 1]);
        }
        assert forall|i: int| p - 1 <= i < rest.len() implies (#[trigger] rest[i]).price
            > x.price by {
            assert(rest[i] == s[i + 1]);
        }
        lemma_insert_sell_at(rest, x, p - 1);
        assert(insert_sell(s, x) == seq![s[0]] + insert_sell(rest, x));
        assert(seq![s[0]] + rest.insert(p - 1, x) =~= s.insert(p, x));
    }
}

} // verus!
