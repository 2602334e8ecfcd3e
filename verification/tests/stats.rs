use benchmark_async_vs_sync::simple_plotter::SimplePlotter;
use benchmark_async_vs_sync::stats::{
    BenchmarkResult, Ratio, ScalabilityBands, ScalabilityRating, aggregate, classify,
    sort_results_by_size,
};

fn result(name: &str, op: &str, size: usize, ns: u64) -> BenchmarkResult {
    BenchmarkResult::new(name.to_string(), op.to_string(), size, ns)
}

#[test]
fn derived_metrics_are_exact_ratios() {
    let r = result("sync_order_operations/single_threaded/100", "Sync Single", 100, 46500);
    assert_eq!(r.time_us(), Ratio { num: 46500, den: 1000 });
    assert_eq!(r.time_ms(), Ratio { num: 46500, den: 1000000 });
    assert_eq!(r.throughput_ops_per_sec(), Ratio { num: 100_000_000_000, den: 46500 });
    assert_eq!(r.per_order_ns(), Ratio { num: 46500, den: 100 });
    assert_eq!(r.efficiency_score(), Ratio { num: 100_000, den: 46500 });
}

#[test]
fn scalability_example_group() {
    let bands = ScalabilityBands::standard();
    let results = vec![
        result("ops/x/100", "Sync Single", 100, 46500),
        result("ops/x/10000", "Sync Single", 10000, 5_870_000),
    ];
    let groups = aggregate(&results, &bands);
    assert_eq!(groups.len(), 1);
    let report = groups[0].scalability.expect("two distinct sizes must rate");
    assert_eq!(report.size_ratio, Ratio { num: 10000, den: 100 });
    assert_eq!(report.time_ratio, Ratio { num: 5_870_000, den: 46500 });
    // factor = time_ratio / size_ratio = (5870000 * 100) / (46500 * 10000),
    // about 1.263.
    assert_eq!(report.factor, Ratio { num: 587_000_000, den: 465_000_000 });
    // 1.2 <= 1.263 < 1.5: near-linear under the standard bands.
    assert_eq!(report.rating, ScalabilityRating::Good);
}

#[test]
fn classification_band_edges_are_exact() {
    let bands = ScalabilityBands::standard();
    assert_eq!(classify(119, 100, &bands), ScalabilityRating::Excellent);
    assert_eq!(classify(12, 10, &bands), ScalabilityRating::Good);
    assert_eq!(classify(149, 100, &bands), ScalabilityRating::Good);
    assert_eq!(classify(15, 10, &bands), ScalabilityRating::Fair);
    assert_eq!(classify(199, 100, &bands), ScalabilityRating::Fair);
    assert_eq!(classify(2, 1, &bands), ScalabilityRating::Poor);
}

#[test]
fn aggregation_is_idempotent() {
    let bands = ScalabilityBands::standard();
    let mut plotter = SimplePlotter::new();
    plotter.add_sample_results();
    let first = aggregate(&plotter.results, &bands);
    let second = aggregate(&plotter.results, &bands);
    assert_eq!(first.len(), second.len());
    for (a, b) in first.iter().zip(second.iter()) {
        assert_eq!(a.operation_type, b.operation_type);
        assert_eq!(a.scalability, b.scalability);
        assert_eq!(a.results.len(), b.results.len());
        for (x, y) in a.results.iter().zip(b.results.iter()) {
            assert_eq!(x.name, y.name);
            assert_eq!(x.operation_type, y.operation_type);
            assert_eq!(x.data_size, y.data_size);
            assert_eq!(x.time_ns, y.time_ns);
        }
    }
}

#[test]
fn aggregation_groups_in_order_of_first_appearance() {
    let bands = ScalabilityBands::standard();
    let results = vec![
        result("a/1", "Beta", 10, 100),
        result("b/1", "Alpha", 10, 100),
        result("a/2", "Beta", 20, 100),
    ];
    let groups = aggregate(&results, &bands);
    assert_eq!(groups.len(), 2);
    assert_eq!(groups[0].operation_type.as_str(), "Beta");
    assert_eq!(groups[1].operation_type.as_str(), "Alpha");
    assert_eq!(groups[0].results.len(), 2);
    assert_eq!(groups[1].results.len(), 1);
}

#[test]
fn aggregation_sorts_groups_by_size_without_reordering_input() {
    let bands = ScalabilityBands::standard();
    let results = vec![
        result("x/1000", "Ops", 1000, 900),
        result("x/10", "Ops", 10, 300),
        result("x/100", "Ops", 100, 600),
    ];
    let groups = aggregate(&results, &bands);
    let sizes: Vec<usize> = groups[0].results.iter().map(|r| r.data_size).collect();
    assert_eq!(sizes, vec![10, 100, 1000]);
    // The input set is untouched: the sort happened on a copy.
    assert_eq!(results[0].data_size, 1000);
    assert_eq!(results[1].data_size, 10);
    assert_eq!(results[2].data_size, 100);
}

#[test]
fn sort_by_size_is_stable_for_equal_sizes() {
    let v = vec![
        result("first", "Ops", 100, 1),
        result("second", "Ops", 50, 2),
        result("third", "Ops", 100, 3),
    ];
    let sorted = sort_results_by_size(&v);
    assert_eq!(sorted[0].name.as_str(), "second");
    assert_eq!(sorted[1].name.as_str(), "first");
    assert_eq!(sorted[2].name.as_str(), "third");
}

#[test]
fn single_size_groups_have_no_scalability() {
    let bands = ScalabilityBands::standard();
    let results = vec![
        result("x/100", "Ops", 100, 500),
        result("y/100", "Ops", 100, 700),
    ];
    let groups = aggregate(&results, &bands);
    assert!(groups[0].scalability.is_none());
}

#[test]
fn sample_results_fill_the_plotter() {
    let mut plotter = SimplePlotter::new();
    plotter.add_sample_results();
    assert_eq!(plotter.results.len(), 9);
    assert_eq!(plotter.results[0].operation_type.as_str(), "Sync Single");
    assert_eq!(plotter.results[0].data_size, 100);
    assert_eq!(plotter.results[0].time_ns, 46500);
    assert_eq!(plotter.results[8].operation_type.as_str(), "Async");
    assert_eq!(plotter.results[8].data_size, 10000);
    assert_eq!(plotter.results[8].time_ns, 11_000_000);
    let bands = ScalabilityBands::default();
    let groups = plotter.aggregate_stats(&bands);
    assert_eq!(groups.len(), 3);
}
