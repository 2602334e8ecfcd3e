use benchmark_async_vs_sync::csv::{csv_document_at, parse_csv};
use benchmark_async_vs_sync::gen::{flatten, generate};
use benchmark_async_vs_sync::order::Order;
use benchmark_async_vs_sync::rng::rng_from_seed;
use benchmark_async_vs_sync::simple_plotter::SimplePlotter;
use benchmark_async_vs_sync::stats::{
    BenchmarkResult, ScalabilityBands, aggregate, MAX_DATA_SIZE, MAX_TIME_NS,
};
use benchmark_async_vs_sync::strategy::exclusive_run;

#[test]
fn empty_result_set_aggregates_to_no_groups() {
    let results: Vec<BenchmarkResult> = Vec::new();
    let groups = aggregate(&results, &ScalabilityBands::standard());
    assert!(groups.is_empty());
}

#[test]
fn empty_result_set_exports_header_only() {
    let results: Vec<BenchmarkResult> = Vec::new();
    let doc = csv_document_at(&results, "2024-01-02 03:04:05");
    assert_eq!(
        doc.as_str(),
        "timestamp,name,operation_type,data_size,time_ns,time_us,time_ms,throughput_ops_per_sec,per_order_ns\n"
    );
    let records = parse_csv(doc.as_str()).expect("header-only documents parse");
    assert!(records.is_empty());
}

#[test]
fn empty_workload_runs_to_an_empty_registry() {
    let mut rng = rng_from_seed(0);
    let items = generate(0, 1000, 100, &mut rng);
    assert!(items.is_empty());
    let registry = exclusive_run(&items);
    assert_eq!(registry.len(), 0);
}

#[test]
fn flatten_of_nothing_is_empty() {
    let nested: Vec<Vec<Order>> = Vec::new();
    let flat = flatten(&nested, 10);
    assert_eq!(flat.len(), 0);
}

#[test]
fn result_bounds_are_accepted_at_the_edges() {
    let r = BenchmarkResult::new(
        "edge".to_string(),
        "Edge".to_string(),
        MAX_DATA_SIZE as usize,
        MAX_TIME_NS,
    );
    assert_eq!(r.data_size as u64, MAX_DATA_SIZE);
    assert_eq!(r.time_ns, MAX_TIME_NS);
    let tiny = BenchmarkResult::new("t".to_string(), "T".to_string(), 1, 1);
    assert_eq!(tiny.per_order_ns().num, 1);
    assert_eq!(tiny.per_order_ns().den, 1);
}

#[test]
fn equal_group_labels_collapse_to_one_group() {
    let mut plotter = SimplePlotter::new();
    plotter.add_result(BenchmarkResult::new("a".into(), "Same".into(), 10, 100));
    plotter.add_result(BenchmarkResult::new("b".into(), "Same".into(), 10, 200));
    plotter.add_result(BenchmarkResult::new("c".into(), "Same".into(), 10, 300));
    let groups = plotter.aggregate_stats(&ScalabilityBands::standard());
    assert_eq!(groups.len(), 1);
    assert_eq!(groups[0].results.len(), 3);
    // All one size: no scalability factor.
    assert!(groups[0].scalability.is_none());
}
