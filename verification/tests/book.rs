use arbiter::{Order, OrderBook, Side};

fn order(id: u64, side: Side, price: u32, size: u32) -> Order {
    Order { id, side, price, size, timestamp: 1000 + id }
}

#[test]
fn new_book_is_empty() {
    let book = OrderBook::new();
    assert_eq!(book.best_bid(), None);
    assert_eq!(book.best_ask(), None);
    assert_eq!(book.level_count(Side::Buy), 0);
    assert_eq!(book.level_count(Side::Sell), 0);
    assert_eq!(book.locate(1), None);
    assert_eq!(book.orders_at(Side::Buy, 100), vec![]);
}

#[test]
fn order_rests_when_nothing_crosses() {
    let mut book = OrderBook::new();
    book.match_limit(order(1, Side::Buy, 100, 10));
    assert_eq!(book.best_bid(), Some(100));
    assert_eq!(book.best_ask(), None);
    assert_eq!(book.orders_at(Side::Buy, 100), vec![order(1, Side::Buy, 100, 10)]);
    assert_eq!(book.locate(1), Some((Side::Buy, 100)));
    // a sell above the bid does not trade
    book.match_limit(order(2, Side::Sell, 101, 7));
    assert_eq!(book.best_ask(), Some(101));
    assert_eq!(book.orders_at(Side::Buy, 100), vec![order(1, Side::Buy, 100, 10)]);
    assert_eq!(book.orders_at(Side::Sell, 101), vec![order(2, Side::Sell, 101, 7)]);
}

#[test]
fn crossing_sell_trades_at_resting_price_and_leaves_no_ask() {
    let mut book = OrderBook::new();
    book.match_limit(order(1, Side::Buy, 100, 10));
    book.match_limit(order(2, Side::Sell, 99, 4));
    assert_eq!(book.orders_at(Side::Buy, 100), vec![order(1, Side::Buy, 100, 6)]);
    assert_eq!(book.level_count(Side::Sell), 0);
    assert_eq!(book.locate(2), None);
    assert_eq!(book.locate(1), Some((Side::Buy, 100)));
}

#[test]
fn equal_prices_cross() {
    let mut book = OrderBook::new();
    book.match_limit(order(1, Side::Sell, 100, 5));
    book.match_limit(order(2, Side::Buy, 100, 5));
    assert_eq!(book.level_count(Side::Sell), 0);
    assert_eq!(book.level_count(Side::Buy), 0);
    assert_eq!(book.locate(1), None);
    assert_eq!(book.locate(2), None);
}

#[test]
fn time_priority_within_a_level() {
    let mut book = OrderBook::new();
    book.match_limit(order(1, Side::Sell, 100, 5));
    book.match_limit(order(2, Side::Sell, 100, 5));
    book.match_limit(order(3, Side::Sell, 100, 5));
    assert_eq!(
        book.orders_at(Side::Sell, 100),
        vec![
            order(1, Side::Sell, 100, 5),
            order(2, Side::Sell, 100, 5),
            order(3, Side::Sell, 100, 5)
        ]
    );
    // 7 units: order 1 is used up, order 2 gives 2, order 3 is untouched
    book.match_limit(order(9, Side::Buy, 100, 7));
    assert_eq!(
        book.orders_at(Side::Sell, 100),
        vec![order(2, Side::Sell, 100, 3), order(3, Side::Sell, 100, 5)]
    );
    assert_eq!(book.locate(1), None);
    assert_eq!(book.locate(9), None);
    assert_eq!(book.level_count(Side::Buy), 0);
}

#[test]
fn buy_takes_lowest_ask_first() {
    let mut book = OrderBook::new();
    book.match_limit(order(1, Side::Sell, 102, 5));
    book.match_limit(order(2, Side::Sell, 100, 5));
    book.match_limit(order(3, Side::Sell, 101, 5));
    assert_eq!(book.best_ask(), Some(100));
    assert_eq!(book.level_count(Side::Sell), 3);
    book.match_limit(order(9, Side::Buy, 102, 8));
    // level 100 is gone, level 101 gave 3, level 102 is untouched
    assert_eq!(book.best_ask(), Some(101));
    assert_eq!(book.orders_at(Side::Sell, 100), vec![]);
    assert_eq!(book.orders_at(Side::Sell, 101), vec![order(3, Side::Sell, 101, 2)]);
    assert_eq!(book.orders_at(Side::Sell, 102), vec![order(1, Side::Sell, 102, 5)]);
    assert_eq!(book.level_count(Side::Sell), 2);
}

#[test]
fn sell_takes_highest_bid_first() {
    let mut book = OrderBook::new();
    book.match_limit(order(1, Side::Buy, 98, 5));
    book.match_limit(order(2, Side::Buy, 100, 5));
    book.match_limit(order(3, Side::Buy, 99, 5));
    assert_eq!(book.best_bid(), Some(100));
    book.match_limit(order(9, Side::Sell, 98, 8));
    assert_eq!(book.best_bid(), Some(99));
    assert_eq!(book.orders_at(Side::Buy, 100), vec![]);
    assert_eq!(book.orders_at(Side::Buy, 99), vec![order(3, Side::Buy, 99, 2)]);
    assert_eq!(book.orders_at(Side::Buy, 98), vec![order(1, Side::Buy, 98, 5)]);
}

#[test]
fn limit_stops_the_sweep_and_the_rest_comes_to_rest() {
    let mut book = OrderBook::new();
    book.match_limit(order(1, Side::Sell, 100, 5));
    book.match_limit(order(2, Side::Sell, 105, 5));
    book.match_limit(order(9, Side::Buy, 101, 12));
    // only the level at 100 crosses; 7 units rest as a bid at 101
    assert_eq!(book.orders_at(Side::Sell, 100), vec![]);
    assert_eq!(book.orders_at(Side::Sell, 105), vec![order(2, Side::Sell, 105, 5)]);
    assert_eq!(book.orders_at(Side::Buy, 101), vec![order(9, Side::Buy, 101, 7)]);
    assert_eq!(book.locate(9), Some((Side::Buy, 101)));
    assert_eq!(book.best_bid(), Some(101));
    assert_eq!(book.best_ask(), Some(105));
}

#[test]
fn matching_conserves_quantity() {
    let mut book = OrderBook::new();
    book.match_limit(order(1, Side::Sell, 100, 5));
    book.match_limit(order(2, Side::Sell, 100, 6));
    book.match_limit(order(3, Side::Sell, 101, 7));
    let before: u32 = 5 + 6 + 7;
    book.match_limit(order(9, Side::Buy, 100, 30));
    // 11 traded at 100; 19 rest; the asks lost exactly 11
    let rested: u32 = book.orders_at(Side::Buy, 100).iter().map(|o| o.size).sum();
    let asks_left: u32 = book.orders_at(Side::Sell, 101).iter().map(|o| o.size).sum();
    assert_eq!(rested, 19);
    assert_eq!(asks_left, 7);
    assert_eq!((30 - rested) + rested, 30);
    assert_eq!(before - asks_left, 30 - rested);
}

#[test]
fn order_of_size_zero_changes_nothing() {
    let mut book = OrderBook::new();
    book.match_limit(order(1, Side::Sell, 100, 5));
    book.match_limit(order(2, Side::Buy, 100, 0));
    assert_eq!(book.orders_at(Side::Sell, 100), vec![order(1, Side::Sell, 100, 5)]);
    assert_eq!(book.level_count(Side::Buy), 0);
    assert_eq!(book.locate(2), None);
}

#[test]
fn full_cancel_removes_order_level_and_index() {
    let mut book = OrderBook::new();
    book.match_limit(order(1, Side::Buy, 100, 6));
    assert!(book.handle_cancel(1, 6));
    assert_eq!(book.level_count(Side::Buy), 0);
    assert_eq!(book.best_bid(), None);
    assert_eq!(book.locate(1), None);
}

#[test]
fn over_cancel_is_a_full_cancel() {
    let mut book = OrderBook::new();
    book.match_limit(order(1, Side::Sell, 100, 6));
    book.match_limit(order(2, Side::Sell, 100, 4));
    assert!(book.handle_cancel(1, 1000));
    assert_eq!(book.orders_at(Side::Sell, 100), vec![order(2, Side::Sell, 100, 4)]);
    assert_eq!(book.locate(1), None);
    assert_eq!(book.locate(2), Some((Side::Sell, 100)));
}

#[test]
fn partial_cancel_keeps_place_in_queue() {
    let mut book = OrderBook::new();
    book.match_limit(order(3, Side::Buy, 50, 5));
    book.match_limit(order(4, Side::Buy, 50, 5));
    assert!(!book.handle_cancel(3, 2));
    assert_eq!(
        book.orders_at(Side::Buy, 50),
        vec![order(3, Side::Buy, 50, 3), order(4, Side::Buy, 50, 5)]
    );
    // an order in the middle of the queue
    book.match_limit(order(5, Side::Buy, 50, 9));
    assert!(!book.handle_cancel(4, 1));
    assert_eq!(
        book.orders_at(Side::Buy, 50),
        vec![order(3, Side::Buy, 50, 3), order(4, Side::Buy, 50, 4), order(5, Side::Buy, 50, 9)]
    );
}

#[test]
fn cancel_of_size_zero_changes_nothing() {
    let mut book = OrderBook::new();
    book.match_limit(order(1, Side::Buy, 100, 6));
    assert!(!book.handle_cancel(1, 0));
    assert_eq!(book.orders_at(Side::Buy, 100), vec![order(1, Side::Buy, 100, 6)]);
}

#[test]
fn cancel_of_unknown_id_changes_nothing() {
    let mut book = OrderBook::new();
    book.match_limit(order(1, Side::Buy, 100, 6));
    assert!(!book.handle_cancel(7, 3));
    assert_eq!(book.orders_at(Side::Buy, 100), vec![order(1, Side::Buy, 100, 6)]);
    assert_eq!(book.locate(1), Some((Side::Buy, 100)));
    // cancelling twice: the second cancel misses
    assert!(book.handle_cancel(1, 6));
    assert!(!book.handle_cancel(1, 6));
    assert_eq!(book.level_count(Side::Buy), 0);
}

#[test]
fn cancel_in_the_middle_of_the_ladder_removes_only_that_level() {
    let mut book = OrderBook::new();
    book.match_limit(order(1, Side::Sell, 100, 5));
    book.match_limit(order(2, Side::Sell, 101, 5));
    book.match_limit(order(3, Side::Sell, 102, 5));
    assert!(book.handle_cancel(2, 5));
    assert_eq!(book.level_count(Side::Sell), 2);
    assert_eq!(book.orders_at(Side::Sell, 100), vec![order(1, Side::Sell, 100, 5)]);
    assert_eq!(book.orders_at(Side::Sell, 101), vec![]);
    assert_eq!(book.orders_at(Side::Sell, 102), vec![order(3, Side::Sell, 102, 5)]);
    assert_eq!(book.best_ask(), Some(100));
}

#[test]
fn many_levels_stay_sorted() {
    let mut book = OrderBook::new();
    let prices: [u32; 9] = [50, 10, 90, 30, 70, 20, 80, 40, 60];
    for (i, p) in prices.iter().enumerate() {
        book.match_limit(order(i as u64 + 1, Side::Buy, *p, 1));
        book.match_limit(order(i as u64 + 101, Side::Sell, *p + 100, 1));
    }
    assert_eq!(book.level_count(Side::Buy), 9);
    assert_eq!(book.level_count(Side::Sell), 9);
    assert_eq!(book.best_bid(), Some(90));
    assert_eq!(book.best_ask(), Some(110));
    // a sell of 3 at 75 takes the bids at 90 and 80 and rests 1 at 75
    book.match_limit(order(999, Side::Sell, 75, 3));
    assert_eq!(book.best_bid(), Some(70));
    assert_eq!(book.best_ask(), Some(75));
    assert_eq!(book.orders_at(Side::Sell, 75), vec![order(999, Side::Sell, 75, 1)]);
    assert_eq!(book.level_count(Side::Buy), 7);
    assert_eq!(book.level_count(Side::Sell), 10);
}

#[test]
fn side_has_an_opposite() {
    assert_eq!(Side::Buy.opposite(), Side::Sell);
    assert_eq!(Side::Sell.opposite(), Side::Buy);
}

#[test]
fn cancel_reaches_every_order_with_the_id_at_the_indexed_level() {
    // an id used twice while the first order still rests
    let mut book = OrderBook::new();
    book.match_limit(order(1, Side::Buy, 100, 3));
    book.match_limit(order(2, Side::Buy, 100, 4));
    book.match_limit(order(1, Side::Buy, 100, 9));
    assert!(!book.handle_cancel(1, 3));
    assert_eq!(
        book.orders_at(Side::Buy, 100),
        vec![order(2, Side::Buy, 100, 4), order(1, Side::Buy, 100, 6)]
    );
    assert_eq!(book.locate(1), Some((Side::Buy, 100)));
}
