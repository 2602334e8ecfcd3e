use benchmark_async_vs_sync::gen::{
    client_label, exchange_label, flatten, generate, generate_nested, order_key_label,
    symbol_label,
};
use benchmark_async_vs_sync::order::OrderStatus;
use benchmark_async_vs_sync::rng::rng_from_seed;

#[test]
fn labels_render_prefix_and_index() {
    assert_eq!(symbol_label(7).as_str(), "STOCK_7");
    assert_eq!(client_label(42).as_str(), "CLIENT_42");
    assert_eq!(order_key_label(0).as_str(), "ORD_0");
    assert_eq!(exchange_label(1234).as_str(), "EXCHANGE_1234");
}

#[test]
fn generate_produces_fresh_keyed_orders() {
    let mut rng = rng_from_seed(7);
    let items = generate(50, 1000, 100, &mut rng);
    assert_eq!(items.len(), 50);
    for (i, item) in items.iter().enumerate() {
        assert_eq!(item.key, i as u64);
        assert_eq!(item.order.order_id, i as u64);
        assert_eq!(item.order.filled_quantity, 0);
        assert_eq!(item.order.remaining_quantity, item.order.quantity);
        assert_eq!(item.order.status, OrderStatus::New);
        assert!(1 <= item.order.quantity && item.order.quantity < 10000);
        assert!(1 <= item.fill && item.fill <= item.order.quantity);
        assert_eq!(item.order.symbol, format!("STOCK_{}", i % 1000));
        assert_eq!(item.order.client_id, format!("CLIENT_{}", i % 100));
    }
}

#[test]
fn generate_cycles_symbols_through_bounded_set() {
    let mut rng = rng_from_seed(1);
    let items = generate(10, 3, 2, &mut rng);
    assert_eq!(items[5].order.symbol.as_str(), "STOCK_2");
    assert_eq!(items[6].order.symbol.as_str(), "STOCK_0");
    assert_eq!(items[5].order.client_id.as_str(), "CLIENT_1");
    assert_eq!(items[6].order.client_id.as_str(), "CLIENT_0");
}

#[test]
fn generate_is_reproducible_from_the_seed() {
    let mut rng_a = rng_from_seed(99);
    let mut rng_b = rng_from_seed(99);
    let a = generate(20, 1000, 100, &mut rng_a);
    let b = generate(20, 1000, 100, &mut rng_b);
    for (x, y) in a.iter().zip(b.iter()) {
        assert_eq!(x.key, y.key);
        assert_eq!(x.fill, y.fill);
        assert_eq!(x.order.quantity, y.order.quantity);
        assert_eq!(x.order.price_milli, y.order.price_milli);
        assert_eq!(x.order.timestamp, y.order.timestamp);
        assert_eq!(x.order.side, y.order.side);
        assert_eq!(x.order.kind, y.order.kind);
    }
}

#[test]
fn nested_generation_partitions_by_exchange() {
    let mut rng = rng_from_seed(5);
    let nested = generate_nested(3, 4, 100, 50, &mut rng);
    assert_eq!(nested.len(), 3);
    for (e, group) in nested.iter().enumerate() {
        assert_eq!(group.len(), 4);
        for (j, order) in group.iter().enumerate() {
            assert_eq!(order.order_id, (e * 4 + j) as u64);
            assert_eq!(order.status, OrderStatus::New);
        }
    }
}

#[test]
fn flatten_yields_one_entry_per_nested_order() {
    let mut rng = rng_from_seed(11);
    let exchanges = 5;
    let per_exchange = 100;
    let nested = generate_nested(exchanges, per_exchange, 100, 50, &mut rng);
    let flat = flatten(&nested, per_exchange);
    assert_eq!(flat.len(), exchanges * per_exchange);
    for e in 0..exchanges {
        for j in 0..per_exchange {
            let key = (e * per_exchange + j) as u64;
            let order = flat.get(key).expect("flattened key missing");
            assert_eq!(order.order_id, key);
        }
    }
    assert!(flat.get((exchanges * per_exchange) as u64).is_none());
}
