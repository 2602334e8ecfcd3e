use benchmark_async_vs_sync::bench_name::parse_benchmark_name;
use benchmark_async_vs_sync::csv::{csv_document_at, parse_csv};
use benchmark_async_vs_sync::simple_plotter::SimplePlotter;
use benchmark_async_vs_sync::stats::BenchmarkResult;
use benchmark_async_vs_sync::text::{parse_u64, split_char, str_contains_char, u64_to_string};

#[test]
fn decimal_rendering_and_parsing_round_trip() {
    assert_eq!(u64_to_string(0).as_str(), "0");
    assert_eq!(u64_to_string(12345).as_str(), "12345");
    assert_eq!(u64_to_string(u64::MAX).as_str(), "18446744073709551615");
    assert_eq!(parse_u64("12345"), Some(12345));
    assert_eq!(parse_u64("0"), Some(0));
    assert_eq!(parse_u64(""), None);
    assert_eq!(parse_u64("12a"), None);
    assert_eq!(parse_u64("18446744073709551615"), Some(u64::MAX));
    assert_eq!(parse_u64("18446744073709551616"), None);
}

#[test]
fn split_char_splits_and_keeps_empty_segments() {
    let parts = split_char("a,b,,c", ',');
    let views: Vec<&str> = parts.iter().map(|s| s.as_str()).collect();
    assert_eq!(views, vec!["a", "b", "", "c"]);
    let whole = split_char("nothing", ',');
    assert_eq!(whole.len(), 1);
    assert_eq!(whole[0].as_str(), "nothing");
    assert!(str_contains_char("a,b", ','));
    assert!(!str_contains_char("ab", ','));
}

#[test]
fn known_benchmark_names_parse_to_labels_and_sizes() {
    let (op, size) = parse_benchmark_name("sync_order_operations/single_threaded/100");
    assert_eq!(op.as_str(), "Sync Single");
    assert_eq!(size, 100);
    let (op, size) = parse_benchmark_name("sync_order_operations/concurrent/1000");
    assert_eq!(op.as_str(), "Sync Concurrent");
    assert_eq!(size, 1000);
    let (op, size) = parse_benchmark_name("async_order_operations/async/10000");
    assert_eq!(op.as_str(), "Async");
    assert_eq!(size, 10000);
    let (op, _) = parse_benchmark_name("order_flattening/sync/5x100");
    assert_eq!(op.as_str(), "Flatten Sync");
    let (op, _) = parse_benchmark_name("order_flattening/async/5x100");
    assert_eq!(op.as_str(), "Flatten Async");
    let (op, _) = parse_benchmark_name("hft_order_simulation/sync_hft_orders");
    assert_eq!(op.as_str(), "HFT Simulation");
    let (op, _) = parse_benchmark_name("trillion_scale_orders/sync_trillion/100000x1000");
    assert_eq!(op.as_str(), "Trillion Scale");
}

#[test]
fn unknown_benchmark_names_fall_back() {
    let (op, size) = parse_benchmark_name("foo/bar/7");
    assert_eq!(op.as_str(), "foo bar");
    assert_eq!(size, 7);
    let (op, size) = parse_benchmark_name("justone");
    assert_eq!(op.as_str(), "justone");
    assert_eq!(size, 1);
    let (_, size) = parse_benchmark_name("a/b/not_a_number");
    assert_eq!(size, 1);
    let (_, size) = parse_benchmark_name("a/b/0");
    assert_eq!(size, 1);
    let (_, size) = parse_benchmark_name("a/b/99999999999999999999999");
    assert_eq!(size, 1);
    let (_, size) = parse_benchmark_name("a/b/2000000000000");
    assert_eq!(size, 2_000_000_000_000);
}

#[test]
fn csv_document_renders_exact_decimals() {
    let results = vec![BenchmarkResult::new(
        "ops/x/100".to_string(),
        "Sync Single".to_string(),
        100,
        46500,
    )];
    let doc = csv_document_at(&results, "2024-01-02 03:04:05");
    let expected = "timestamp,name,operation_type,data_size,time_ns,time_us,time_ms,throughput_ops_per_sec,per_order_ns\n\
        2024-01-02 03:04:05,ops/x/100,Sync Single,100,46500,46.5,0.0465,2150537,465\n";
    assert_eq!(doc.as_str(), expected);
}

#[test]
fn csv_round_trip_recovers_the_tuples_in_order() {
    let mut plotter = SimplePlotter::new();
    plotter.add_sample_results();
    let doc = plotter.export_csv_document();
    let records = parse_csv(doc.as_str()).expect("an exported document must re-parse");
    assert_eq!(records.len(), 9);
    for (rec, orig) in records.iter().zip(plotter.results.iter()) {
        assert_eq!(rec.operation_type, orig.operation_type);
        assert_eq!(rec.data_size, orig.data_size as u64);
        assert_eq!(rec.time_ns, orig.time_ns);
    }
}

#[test]
fn csv_parser_skips_blanks_and_rejects_malformed_rows() {
    let good = "header line is ignored\nts,name,Ops,100,500,x,y,z,w\n\nts,name,Ops,200,900,x,y,z,w\n";
    let records = parse_csv(good).expect("well-formed rows must parse");
    assert_eq!(records.len(), 2);
    assert_eq!(records[0].operation_type.as_str(), "Ops");
    assert_eq!(records[0].data_size, 100);
    assert_eq!(records[0].time_ns, 500);
    assert_eq!(records[1].data_size, 200);
    assert_eq!(records[1].time_ns, 900);

    let short_row = "header\nonly,three,fields\n";
    assert!(parse_csv(short_row).is_none());
    let bad_number = "header\nts,name,Ops,12x,500,a,b,c,d\n";
    assert!(parse_csv(bad_number).is_none());
}
