use arbiter::ladder::Ladder;
use arbiter::Side;

#[test]
fn new_ladder_has_no_level() {
    let bids = Ladder::new(Side::Buy);
    assert_eq!(bids.best_price(), None);
    assert_eq!(bids.level_count(), 0);
    assert_eq!(bids.orders_at(100), vec![]);
    let asks = Ladder::new(Side::Sell);
    assert_eq!(asks.best_price(), None);
    assert_eq!(asks.level_count(), 0);
}
