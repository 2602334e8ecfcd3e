use benchmark_async_vs_sync::order::{Order, OrderKind, OrderSide, OrderStatus};

fn sample_order(order_id: u64, quantity: u64) -> Order {
    Order {
        order_id,
        symbol: String::from("STOCK_1"),
        side: OrderSide::Buy,
        kind: OrderKind::Limit,
        quantity,
        price_milli: 125_000,
        filled_quantity: 0,
        remaining_quantity: quantity,
        status: OrderStatus::New,
        timestamp: 1_650_000_000,
        client_id: String::from("CLIENT_1"),
    }
}

#[test]
fn fill_keeps_quantity_invariant() {
    let mut order = sample_order(1, 100);
    order.apply_fill(30);
    assert_eq!(order.filled_quantity + order.remaining_quantity, order.quantity);
    order.apply_fill(60);
    assert_eq!(order.filled_quantity + order.remaining_quantity, order.quantity);
    order.apply_fill(60);
    assert_eq!(order.filled_quantity + order.remaining_quantity, order.quantity);
    assert_eq!(order.status, OrderStatus::Filled);
}

#[test]
fn fill_clamps_to_remaining() {
    let mut over = sample_order(1, 5);
    over.apply_fill(10);
    let mut exact = sample_order(1, 5);
    exact.apply_fill(5);
    assert_eq!(over.filled_quantity, exact.filled_quantity);
    assert_eq!(over.remaining_quantity, exact.remaining_quantity);
    assert_eq!(over.status, exact.status);
    assert_eq!(over.filled_quantity, 5);
    assert_eq!(over.remaining_quantity, 0);
}

#[test]
fn zero_fill_is_a_legal_no_op() {
    let mut order = sample_order(2, 8);
    order.apply_fill(0);
    assert_eq!(order.filled_quantity, 0);
    assert_eq!(order.remaining_quantity, 8);
    assert_eq!(order.status, OrderStatus::New);
}

#[test]
fn status_follows_fill_state() {
    let mut order = sample_order(3, 10);
    assert_eq!(order.status, OrderStatus::New);
    order.apply_fill(4);
    assert_eq!(order.status, OrderStatus::PartiallyFilled);
    order.apply_fill(6);
    assert_eq!(order.status, OrderStatus::Filled);
    assert!(!order.is_open());
}

#[test]
fn end_to_end_three_orders_one_filled() {
    let mut orders = vec![sample_order(1, 5), sample_order(2, 5), sample_order(3, 5)];
    orders[0].apply_fill(3);
    assert_eq!(orders[0].status, OrderStatus::PartiallyFilled);
    assert_eq!(orders[0].filled_quantity, 3);
    assert_eq!(orders[0].remaining_quantity, 2);
    orders[0].apply_fill(10);
    assert_eq!(orders[0].status, OrderStatus::Filled);
    assert_eq!(orders[0].filled_quantity, 5);
    assert_eq!(orders[0].remaining_quantity, 0);
    assert_eq!(orders[1].status, OrderStatus::New);
    assert_eq!(orders[2].status, OrderStatus::New);
}
