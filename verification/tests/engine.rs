use order_book::book::OrderBook;
use order_book::order::{Order, OrderType, Trade};

fn buy(id: u64, price: u64, quantity: u64) -> Order {
    Order { id, order_type: OrderType::Buy, price, quantity }
}

fn sell(id: u64, price: u64, quantity: u64) -> Order {
    Order { id, order_type: OrderType::Sell, price, quantity }
}

#[test]
fn crossing_buy_rests_partially() {
    let mut book = OrderBook::new();
    book.add_order(buy(1, 100, 3));
    book.add_order(sell(2, 99, 2));
    assert_eq!(
        book.trades(),
        vec![Trade { buy_id: 1, sell_id: 2, price: 99, quantity: 2 }]
    );
    assert_eq!(book.buy_orders(), vec![buy(1, 100, 1)]);
    assert_eq!(book.sell_orders(), vec![]);
}

#[test]
fn second_sell_exhausts_buy_and_rests() {
    let mut book = OrderBook::new();
    book.add_order(buy(1, 100, 3));
    book.add_order(sell(2, 99, 2));
    book.add_order(sell(3, 95, 5));
    assert_eq!(
        book.trades(),
        vec![
            Trade { buy_id: 1, sell_id: 2, price: 99, quantity: 2 },
            Trade { buy_id: 1, sell_id: 3, price: 95, quantity: 1 },
        ]
    );
    assert_eq!(book.buy_orders(), vec![]);
    assert_eq!(book.sell_orders(), vec![sell(3, 95, 4)]);
}

#[test]
fn non_crossing_orders_rest() {
    let mut book = OrderBook::new();
    book.add_order(buy(1, 100, 5));
    book.add_order(sell(2, 101, 5));
    assert_eq!(book.trades(), vec![]);
    assert_eq!(book.buy_orders(), vec![buy(1, 100, 5)]);
    assert_eq!(book.sell_orders(), vec![sell(2, 101, 5)]);
}

#[test]
fn buy_lifts_resting_sell_at_sell_price() {
    let mut book = OrderBook::new();
    book.add_order(sell(1, 50, 1));
    book.add_order(buy(2, 60, 1));
    assert_eq!(
        book.trades(),
        vec![Trade { buy_id: 2, sell_id: 1, price: 50, quantity: 1 }]
    );
    assert_eq!(book.buy_orders(), vec![]);
    assert_eq!(book.sell_orders(), vec![]);
}

#[test]
fn equal_price_buys_both_fill_once() {
    let mut book = OrderBook::new();
    book.add_order(buy(1, 10, 1));
    book.add_order(buy(2, 10, 1));
    book.add_order(sell(3, 10, 2));
    let trades = book.trades();
    assert_eq!(trades.len(), 2);
    let total: u64 = trades.iter().map(|t| t.quantity).sum();
    assert_eq!(total, 2);
    let mut buy_ids: Vec<u64> = trades.iter().map(|t| t.buy_id).collect();
    buy_ids.sort();
    assert_eq!(buy_ids, vec![1, 2]);
    assert!(trades.iter().all(|t| t.sell_id == 3 && t.price == 10));
    assert_eq!(book.buy_orders(), vec![]);
    assert_eq!(book.sell_orders(), vec![]);
}

#[test]
fn buy_sweeps_several_price_levels() {
    let mut book = OrderBook::new();
    book.add_order(sell(1, 102, 2));
    book.add_order(sell(2, 100, 1));
    book.add_order(sell(3, 101, 3));
    book.add_order(buy(4, 101, 5));
    assert_eq!(
        book.trades(),
        vec![
            Trade { buy_id: 4, sell_id: 2, price: 100, quantity: 1 },
            Trade { buy_id: 4, sell_id: 3, price: 101, quantity: 3 },
        ]
    );
    assert_eq!(book.buy_orders(), vec![buy(4, 101, 1)]);
    assert_eq!(book.sell_orders(), vec![sell(1, 102, 2)]);
}

#[test]
fn buy_side_sorted_descending_sell_side_ascending() {
    let mut book = OrderBook::new();
    book.add_order(buy(1, 90, 1));
    book.add_order(buy(2, 95, 1));
    book.add_order(buy(3, 92, 1));
    book.add_order(sell(4, 100, 1));
    book.add_order(sell(5, 98, 1));
    book.add_order(sell(6, 99, 1));
    let buys = book.buy_orders();
    for pair in buys.windows(2) {
        assert!(pair[0].price >= pair[1].price);
    }
    let sells = book.sell_orders();
    for pair in sells.windows(2) {
        assert!(pair[0].price <= pair[1].price);
    }
    assert_eq!(buys.len(), 3);
    assert_eq!(sells.len(), 3);
}

#[test]
fn no_crossing_pair_survives_submission() {
    let mut book = OrderBook::new();
    book.add_order(buy(1, 100, 4));
    book.add_order(buy(2, 97, 2));
    book.add_order(sell(3, 99, 3));
    book.add_order(sell(4, 98, 3));
    for b in book.buy_orders() {
        for s in book.sell_orders() {
            assert!(b.price < s.price);
        }
    }
}

#[test]
fn fills_never_exceed_submitted_quantity() {
    let mut book = OrderBook::new();
    book.add_order(buy(1, 100, 7));
    book.add_order(sell(2, 99, 3));
    book.add_order(sell(3, 98, 3));
    book.add_order(sell(4, 97, 3));
    let trades = book.trades();
    let filled_against_1: u64 =
        trades.iter().filter(|t| t.buy_id == 1).map(|t| t.quantity).sum();
    assert!(filled_against_1 <= 7);
    assert_eq!(filled_against_1, 7);
    for t in &trades {
        assert!(t.quantity <= 3);
    }
}

#[test]
fn no_zero_quantity_order_rests() {
    let mut book = OrderBook::new();
    book.add_order(buy(1, 100, 2));
    book.add_order(sell(2, 100, 2));
    book.add_order(buy(3, 101, 1));
    book.add_order(sell(4, 90, 4));
    for o in book.buy_orders() {
        assert!(o.quantity > 0);
    }
    for o in book.sell_orders() {
        assert!(o.quantity > 0);
    }
}

#[test]
fn every_trade_executes_at_the_sell_price() {
    let mut book = OrderBook::new();
    book.add_order(sell(1, 95, 2));
    book.add_order(sell(2, 96, 2));
    book.add_order(buy(3, 100, 3));
    for t in book.trades() {
        let sell_price = match t.sell_id {
            1 => 95,
            2 => 96,
            _ => unreachable!(),
        };
        assert_eq!(t.price, sell_price);
    }
    assert_eq!(book.trades().len(), 2);
}

#[test]
fn snapshots_are_idempotent() {
    let mut book = OrderBook::new();
    book.add_order(buy(1, 100, 3));
    book.add_order(sell(2, 99, 1));
    book.add_order(sell(3, 105, 2));
    assert_eq!(book.buy_orders(), book.buy_orders());
    assert_eq!(book.sell_orders(), book.sell_orders());
    assert_eq!(book.trades(), book.trades());
}

#[test]
fn new_book_is_empty() {
    let book = OrderBook::new();
    assert_eq!(book.buy_orders(), vec![]);
    assert_eq!(book.sell_orders(), vec![]);
    assert_eq!(book.trades(), vec![]);
}

#[test]
fn trade_history_is_append_only() {
    let mut book = OrderBook::new();
    book.add_order(buy(1, 100, 1));
    book.add_order(sell(2, 99, 1));
    let before = book.trades();
    book.add_order(buy(3, 50, 1));
    book.add_order(sell(4, 200, 1));
    let after = book.trades();
    assert_eq!(&after[..before.len()], &before[..]);
}

#[test]
fn equal_price_sells_fill_in_arrival_order() {
    let mut book = OrderBook::new();
    book.add_order(sell(1, 100, 1));
    book.add_order(sell(2, 100, 1));
    book.add_order(buy(3, 100, 1));
    assert_eq!(
        book.trades(),
        vec![Trade { buy_id: 3, sell_id: 1, price: 100, quantity: 1 }]
    );
    assert_eq!(book.sell_orders(), vec![sell(2, 100, 1)]);
}
