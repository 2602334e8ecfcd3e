use benchmark_async_vs_sync::gen::generate;
use benchmark_async_vs_sync::order::OrderStatus;
use benchmark_async_vs_sync::rng::rng_from_seed;
use benchmark_async_vs_sync::shared_registry::shared_get;
use benchmark_async_vs_sync::strategy::{
    check_schedule, exclusive_run, fanout_run, shared_run, sustained_run,
};

#[test]
fn schedule_checker_accepts_permutations_only() {
    assert!(check_schedule(&vec![0, 1, 2, 3], 4));
    assert!(check_schedule(&vec![3, 1, 0, 2], 4));
    assert!(!check_schedule(&vec![0, 1, 2], 4));
    assert!(!check_schedule(&vec![0, 1, 1, 3], 4));
    assert!(!check_schedule(&vec![0, 1, 2, 4], 4));
    assert!(check_schedule(&Vec::new(), 0));
}

#[test]
fn all_strategies_reach_the_same_outcome() {
    let mut rng = rng_from_seed(2024);
    let n = 200;
    let items = generate(n, 1000, 100, &mut rng);

    let exclusive = exclusive_run(&items);
    let shared = shared_run(&items);

    let forward: Vec<usize> = (0..n).collect();
    let backward: Vec<usize> = (0..n).rev().collect();
    let mut interleaved: Vec<usize> = Vec::new();
    for i in 0..n / 2 {
        interleaved.push(i);
        interleaved.push(n - 1 - i);
    }
    assert!(check_schedule(&forward, n));
    assert!(check_schedule(&backward, n));
    assert!(check_schedule(&interleaved, n));
    let fanned = fanout_run(&items, &backward, &forward, &interleaved);

    assert_eq!(exclusive.len(), n);
    for item in items.iter() {
        let a = exclusive.get(item.key).expect("exclusive lost an order");
        let b = shared_get(&shared, item.key).expect("shared lost an order");
        let c = shared_get(&fanned, item.key).expect("fan-out lost an order");
        let snapshot = (
            a.filled_quantity,
            a.remaining_quantity,
            a.status,
            a.quantity,
            a.symbol.clone(),
        );
        assert_eq!(
            snapshot,
            (b.filled_quantity, b.remaining_quantity, b.status, b.quantity, b.symbol.clone())
        );
        assert_eq!(
            snapshot,
            (c.filled_quantity, c.remaining_quantity, c.status, c.quantity, c.symbol.clone())
        );
        assert_eq!(a.filled_quantity, item.fill);
        assert_eq!(a.filled_quantity + a.remaining_quantity, a.quantity);
    }
}

#[test]
fn sustained_run_sweeps_filled_orders() {
    let mut rng = rng_from_seed(55);
    let batch_size = 20;
    let batches = 3;
    let registry = sustained_run(batch_size, batches, 1, 1000, 100, &mut rng);
    for key in 0..(batch_size * batches) as u64 {
        if let Some(order) = shared_get(&registry, key) {
            assert_ne!(order.status, OrderStatus::Filled);
            assert_eq!(order.filled_quantity + order.remaining_quantity, order.quantity);
        }
    }
}

#[test]
fn sustained_run_keeps_orders_well_formed_between_sweeps() {
    let mut rng = rng_from_seed(56);
    // Five batches of ten with a sweep interval of 1000: only batch
    // zero sweeps, so every order of batches one to four survives.
    let registry = sustained_run(10, 5, 1000, 1000, 100, &mut rng);
    for key in 10..50u64 {
        let order = shared_get(&registry, key).expect("order created after the last sweep");
        assert_eq!(order.order_id, key);
        assert_eq!(order.filled_quantity + order.remaining_quantity, order.quantity);
    }
    // Whatever survived the sweep of batch zero is not fully filled.
    for key in 0..10u64 {
        if let Some(order) = shared_get(&registry, key) {
            assert_ne!(order.status, OrderStatus::Filled);
        }
    }
    assert!(shared_get(&registry, 50).is_none());
}
