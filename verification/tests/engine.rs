use arbiter::{EngineStats, MatchingEngine, Order, OrderEvent, Side};

fn new(id: u64, symbol: &str, side: Side, price: u32, size: u32) -> OrderEvent {
    OrderEvent::New { timestamp: 7, id, symbol: symbol.to_string(), side, price, size }
}

fn cancel(id: u64, size: u32) -> OrderEvent {
    OrderEvent::Cancel { timestamp: 8, id, size }
}

fn replace(old_id: u64, new_id: u64, new_size: u32, new_price: u32) -> OrderEvent {
    OrderEvent::Replace { timestamp: 9, old_id, new_id, new_size, new_price }
}

fn resting(id: u64, side: Side, price: u32, size: u32, timestamp: u64) -> Order {
    Order { id, side, price, size, timestamp }
}

fn orders(engine: &MatchingEngine, symbol: &str, side: Side, price: u32) -> Vec<Order> {
    engine.book(&symbol.to_string()).unwrap().orders_at(side, price)
}

#[test]
fn new_engine_has_seen_nothing() {
    let engine = MatchingEngine::new();
    assert_eq!(engine.stats(), EngineStats { total_new: 0, total_cancel: 0, total_replace: 0 });
    assert!(engine.book(&"X".to_string()).is_none());
    assert_eq!(engine.route(1), None);
}

#[test]
fn scenario_new_order_rests_in_empty_book() {
    let mut engine = MatchingEngine::new();
    engine.handle(new(1, "X", Side::Buy, 100, 10));
    let book = engine.book(&"X".to_string()).unwrap();
    assert_eq!(book.level_count(Side::Buy), 1);
    assert_eq!(book.level_count(Side::Sell), 0);
    assert_eq!(book.orders_at(Side::Buy, 100), vec![resting(1, Side::Buy, 100, 10, 7)]);
    assert_eq!(engine.route(1), Some(("X".to_string(), Side::Buy)));
}

#[test]
fn scenario_crossing_sell_fills_against_resting_buy() {
    let mut engine = MatchingEngine::new();
    engine.handle(new(1, "X", Side::Buy, 100, 10));
    engine.handle(new(2, "X", Side::Sell, 99, 4));
    assert_eq!(orders(&engine, "X", Side::Buy, 100), vec![resting(1, Side::Buy, 100, 6, 7)]);
    let book = engine.book(&"X".to_string()).unwrap();
    assert_eq!(book.level_count(Side::Sell), 0);
    assert_eq!(book.locate(2), None);
    // the id of the filled order stays routed, though it rests nowhere
    assert_eq!(engine.route(2), Some(("X".to_string(), Side::Sell)));
}

#[test]
fn scenario_cancel_of_the_rest_removes_order_and_level() {
    let mut engine = MatchingEngine::new();
    engine.handle(new(1, "X", Side::Buy, 100, 10));
    engine.handle(new(2, "X", Side::Sell, 99, 4));
    engine.handle(cancel(1, 6));
    let book = engine.book(&"X".to_string()).unwrap();
    assert_eq!(book.level_count(Side::Buy), 0);
    assert_eq!(book.locate(1), None);
    assert_eq!(engine.route(1), None);
}

#[test]
fn scenario_partial_cancel_keeps_priority() {
    let mut engine = MatchingEngine::new();
    engine.handle(new(3, "X", Side::Buy, 50, 5));
    engine.handle(new(4, "X", Side::Buy, 50, 5));
    engine.handle(cancel(3, 2));
    assert_eq!(
        orders(&engine, "X", Side::Buy, 50),
        vec![resting(3, Side::Buy, 50, 3, 7), resting(4, Side::Buy, 50, 5, 7)]
    );
    assert_eq!(engine.route(3), Some(("X".to_string(), Side::Buy)));
}

#[test]
fn scenario_sell_sweeps_level_and_rests_remainder() {
    let mut engine = MatchingEngine::new();
    engine.handle(new(3, "X", Side::Buy, 50, 5));
    engine.handle(new(4, "X", Side::Buy, 50, 5));
    engine.handle(cancel(3, 2));
    engine.handle(new(5, "X", Side::Sell, 50, 20));
    let book = engine.book(&"X".to_string()).unwrap();
    assert_eq!(book.level_count(Side::Buy), 0);
    assert_eq!(book.orders_at(Side::Sell, 50), vec![resting(5, Side::Sell, 50, 12, 7)]);
    assert_eq!(book.locate(3), None);
    assert_eq!(book.locate(4), None);
    assert_eq!(book.locate(5), Some((Side::Sell, 50)));
}

#[test]
fn scenario_replace_moves_order_to_new_id_and_price() {
    let mut engine = MatchingEngine::new();
    engine.handle(new(3, "X", Side::Buy, 50, 5));
    engine.handle(new(4, "X", Side::Buy, 50, 5));
    engine.handle(cancel(3, 2));
    engine.handle(new(5, "X", Side::Sell, 50, 20));
    engine.handle(replace(5, 6, 12, 48));
    let book = engine.book(&"X".to_string()).unwrap();
    assert_eq!(book.orders_at(Side::Sell, 50), vec![]);
    assert_eq!(book.level_count(Side::Sell), 1);
    assert_eq!(book.orders_at(Side::Sell, 48), vec![resting(6, Side::Sell, 48, 12, 9)]);
    assert_eq!(engine.route(5), None);
    assert_eq!(engine.route(6), Some(("X".to_string(), Side::Sell)));
}

#[test]
fn replace_loses_time_priority() {
    let mut engine = MatchingEngine::new();
    engine.handle(new(1, "X", Side::Sell, 48, 3));
    engine.handle(new(2, "X", Side::Sell, 48, 4));
    engine.handle(replace(1, 3, 3, 48));
    assert_eq!(
        orders(&engine, "X", Side::Sell, 48),
        vec![resting(2, Side::Sell, 48, 4, 7), resting(3, Side::Sell, 48, 3, 9)]
    );
}

#[test]
fn replace_can_cross() {
    let mut engine = MatchingEngine::new();
    engine.handle(new(1, "X", Side::Buy, 49, 5));
    engine.handle(new(5, "X", Side::Sell, 50, 12));
    engine.handle(replace(5, 6, 12, 48));
    // the new sell at 48 trades with the bid at 49 and rests 7
    let book = engine.book(&"X".to_string()).unwrap();
    assert_eq!(book.level_count(Side::Buy), 0);
    assert_eq!(book.orders_at(Side::Sell, 48), vec![resting(6, Side::Sell, 48, 7, 9)]);
}

#[test]
fn replace_withdraws_whatever_is_open() {
    let mut engine = MatchingEngine::new();
    engine.handle(new(1, "X", Side::Buy, 100, 10));
    engine.handle(new(2, "X", Side::Sell, 100, 4));
    // order 1 has 6 open; the replace sets 2 at a new price
    engine.handle(replace(1, 7, 2, 90));
    let book = engine.book(&"X".to_string()).unwrap();
    assert_eq!(book.orders_at(Side::Buy, 100), vec![]);
    assert_eq!(book.orders_at(Side::Buy, 90), vec![resting(7, Side::Buy, 90, 2, 9)]);
}

#[test]
fn replace_may_keep_the_id() {
    let mut engine = MatchingEngine::new();
    engine.handle(new(1, "X", Side::Buy, 100, 10));
    engine.handle(replace(1, 1, 4, 101));
    let book = engine.book(&"X".to_string()).unwrap();
    assert_eq!(book.orders_at(Side::Buy, 100), vec![]);
    assert_eq!(book.orders_at(Side::Buy, 101), vec![resting(1, Side::Buy, 101, 4, 9)]);
    assert_eq!(book.locate(1), Some((Side::Buy, 101)));
    assert_eq!(engine.route(1), Some(("X".to_string(), Side::Buy)));
}

#[test]
fn cancel_and_replace_of_unknown_id_change_nothing_but_the_count() {
    let mut engine = MatchingEngine::new();
    engine.handle(new(1, "X", Side::Buy, 100, 10));
    engine.handle(cancel(42, 3));
    engine.handle(replace(43, 44, 5, 100));
    let book = engine.book(&"X".to_string()).unwrap();
    assert_eq!(book.orders_at(Side::Buy, 100), vec![resting(1, Side::Buy, 100, 10, 7)]);
    assert_eq!(book.level_count(Side::Sell), 0);
    assert_eq!(book.locate(44), None);
    assert_eq!(engine.route(42), None);
    assert_eq!(engine.route(43), None);
    assert_eq!(engine.route(44), None);
    assert_eq!(engine.stats(), EngineStats { total_new: 1, total_cancel: 1, total_replace: 1 });
}

#[test]
fn cancel_of_filled_order_changes_no_book() {
    let mut engine = MatchingEngine::new();
    engine.handle(new(1, "X", Side::Buy, 100, 4));
    engine.handle(new(2, "X", Side::Sell, 100, 4));
    engine.handle(cancel(1, 4));
    engine.handle(cancel(2, 4));
    let book = engine.book(&"X".to_string()).unwrap();
    assert_eq!(book.level_count(Side::Buy), 0);
    assert_eq!(book.level_count(Side::Sell), 0);
    // the book reported no removal, so the routes stay
    assert_eq!(engine.route(1), Some(("X".to_string(), Side::Buy)));
    assert_eq!(engine.route(2), Some(("X".to_string(), Side::Sell)));
}

#[test]
fn replace_of_filled_order_enters_the_new_order() {
    let mut engine = MatchingEngine::new();
    engine.handle(new(1, "X", Side::Buy, 100, 4));
    engine.handle(new(2, "X", Side::Sell, 100, 4));
    engine.handle(replace(2, 3, 5, 105));
    assert_eq!(orders(&engine, "X", Side::Sell, 105), vec![resting(3, Side::Sell, 105, 5, 9)]);
    assert_eq!(engine.route(2), None);
    assert_eq!(engine.route(3), Some(("X".to_string(), Side::Sell)));
}

#[test]
fn symbols_do_not_trade_with_each_other() {
    let mut engine = MatchingEngine::new();
    engine.handle(new(1, "AAA", Side::Buy, 100, 10));
    engine.handle(new(2, "BBB", Side::Sell, 90, 10));
    assert_eq!(orders(&engine, "AAA", Side::Buy, 100), vec![resting(1, Side::Buy, 100, 10, 7)]);
    assert_eq!(orders(&engine, "BBB", Side::Sell, 90), vec![resting(2, Side::Sell, 90, 10, 7)]);
    assert_eq!(engine.book(&"AAA".to_string()).unwrap().level_count(Side::Sell), 0);
    assert_eq!(engine.book(&"BBB".to_string()).unwrap().level_count(Side::Buy), 0);
    // a cancel finds its book without naming the symbol
    engine.handle(cancel(2, 3));
    assert_eq!(orders(&engine, "BBB", Side::Sell, 90), vec![resting(2, Side::Sell, 90, 7, 7)]);
    assert_eq!(orders(&engine, "AAA", Side::Buy, 100), vec![resting(1, Side::Buy, 100, 10, 7)]);
    assert!(engine.book(&"CCC".to_string()).is_none());
}

#[test]
fn events_are_counted_by_kind() {
    let mut engine = MatchingEngine::new();
    engine.handle(new(1, "X", Side::Buy, 100, 10));
    engine.handle(new(2, "X", Side::Buy, 100, 10));
    engine.handle(new(3, "Y", Side::Buy, 100, 10));
    engine.handle(cancel(1, 1));
    engine.handle(cancel(99, 1));
    engine.handle(replace(2, 4, 10, 101));
    assert_eq!(engine.stats(), EngineStats { total_new: 3, total_cancel: 2, total_replace: 1 });
}

#[test]
fn every_resting_order_is_routed_and_indexed() {
    let mut engine = MatchingEngine::new();
    engine.handle(new(1, "X", Side::Buy, 100, 10));
    engine.handle(new(2, "X", Side::Sell, 105, 10));
    engine.handle(new(3, "Y", Side::Buy, 100, 10));
    engine.handle(new(4, "X", Side::Sell, 100, 3));
    engine.handle(replace(2, 5, 8, 104));
    engine.handle(cancel(3, 4));
    let cases: Vec<(&str, Side, u32)> = vec![
        ("X", Side::Buy, 100),
        ("X", Side::Sell, 104),
        ("X", Side::Sell, 105),
        ("Y", Side::Buy, 100),
    ];
    let mut seen: Vec<u64> = Vec::new();
    for (symbol, side, price) in cases {
        let book = engine.book(&symbol.to_string()).unwrap();
        for o in book.orders_at(side, price) {
            assert!(o.size > 0);
            assert_eq!(book.locate(o.id), Some((side, price)));
            assert_eq!(engine.route(o.id), Some((symbol.to_string(), side)));
            assert!(!seen.contains(&o.id));
            seen.push(o.id);
        }
    }
    seen.sort();
    assert_eq!(seen, vec![1, 3, 5]);
}
