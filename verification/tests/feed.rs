use arbiter::feed::{lifecycle_event, FeedBody};
use arbiter::{OrderEvent, Side};

#[test]
fn add_order_becomes_new() {
    let body = FeedBody::AddOrder {
        reference: 11,
        side: Side::Sell,
        shares: 300,
        stock: "ABCD    ".to_string(),
        price: 1_234_500,
    };
    match lifecycle_event(42, body) {
        Some(OrderEvent::New { timestamp, id, symbol, side, price, size }) => {
            assert_eq!(timestamp, 42);
            assert_eq!(id, 11);
            assert_eq!(symbol, "ABCD    ");
            assert_eq!(side, Side::Sell);
            assert_eq!(price, 1_234_500);
            assert_eq!(size, 300);
        }
        other => panic!("unexpected {:?}", other),
    }
}

#[test]
fn order_cancelled_becomes_cancel() {
    match lifecycle_event(43, FeedBody::OrderCancelled { reference: 11, cancelled: 100 }) {
        Some(OrderEvent::Cancel { timestamp, id, size }) => {
            assert_eq!(timestamp, 43);
            assert_eq!(id, 11);
            assert_eq!(size, 100);
        }
        other => panic!("unexpected {:?}", other),
    }
}

#[test]
fn replace_order_becomes_replace() {
    let body =
        FeedBody::ReplaceOrder { old_reference: 11, new_reference: 12, shares: 50, price: 99 };
    match lifecycle_event(44, body) {
        Some(OrderEvent::Replace { timestamp, old_id, new_id, new_size, new_price }) => {
            assert_eq!(timestamp, 44);
            assert_eq!(old_id, 11);
            assert_eq!(new_id, 12);
            assert_eq!(new_size, 50);
            assert_eq!(new_price, 99);
        }
        other => panic!("unexpected {:?}", other),
    }
}

#[test]
fn other_messages_are_dropped() {
    assert!(lifecycle_event(1, FeedBody::OrderExecuted { reference: 11, executed: 5 }).is_none());
    assert!(lifecycle_event(1, FeedBody::DeleteOrder { reference: 11 }).is_none());
    assert!(lifecycle_event(1, FeedBody::Other).is_none());
}
