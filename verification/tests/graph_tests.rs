use ivyhost::analytics::AnalyticsRequest;
use ivyhost::store::Store;

fn visit(store: &mut Store, token: &str, path: &str, at: i64) {
    store.new_request(AnalyticsRequest {
        hashed_ip: token.to_string(),
        path: path.to_string(),
        created_at_milis: at,
    });
}

#[test]
fn graph_has_exactly_limit_buckets_oldest_first() {
    let mut store = Store::new();
    visit(&mut store, "A", "/g", 9_500);
    let pid = store.get_pid("/g").unwrap();

    let g = store.get_graph_total(pid, "t".to_string(), 1_000, 4, 10_000);
    assert_eq!(g.title, "t");
    assert_eq!(g.timeline.len(), 4);
    // Contiguous, oldest first, newest ending exactly at now.
    assert_eq!(g.timeline[0].timestamp_start, 6_000);
    for k in 0..3 {
        assert_eq!(g.timeline[k].timestamp_end, g.timeline[k + 1].timestamp_start);
    }
    assert_eq!(g.timeline[3].timestamp_end, 10_000);
}

#[test]
fn bucket_edges_are_open_below_closed_above() {
    let mut store = Store::new();
    // now = 10_000, width = 1_000, 4 buckets: windows
    // (6000,7000], (7000,8000], (8000,9000], (9000,10000].
    visit(&mut store, "A", "/e", 7_000); // closed upper edge: first bucket
    visit(&mut store, "B", "/e", 7_001); // just past it: second bucket
    visit(&mut store, "C", "/e", 6_000); // open lower edge: outside the graph
    visit(&mut store, "D", "/e", 10_000); // exactly now: newest bucket
    let pid = store.get_pid("/e").unwrap();

    let g = store.get_graph_total(pid, "edges".to_string(), 1_000, 4, 10_000);
    assert_eq!(g.timeline[0].amount, 1);
    assert_eq!(g.timeline[1].amount, 1);
    assert_eq!(g.timeline[2].amount, 0);
    assert_eq!(g.timeline[3].amount, 1);
}

#[test]
fn total_buckets_sum_to_rows_in_range() {
    let mut store = Store::new();
    let times = [100, 250, 250, 900, 3_999, 4_000, 4_001, 7_777];
    for (i, t) in times.iter().enumerate() {
        visit(&mut store, &format!("v{}", i), "/sum", *t);
    }
    let pid = store.get_pid("/sum").unwrap();

    // 8 buckets of 500 ending at 4_000 cover (0, 4_000]:
    // the rows at 100..=4_000 count, 4_001 and 7_777 do not.
    let g = store.get_graph_total(pid, "sum".to_string(), 500, 8, 4_000);
    let sum: u64 = g.timeline.iter().map(|n| n.amount).sum();
    assert_eq!(sum, 6);
}

#[test]
fn unique_graph_counts_distinct_visitors_per_bucket() {
    let mut store = Store::new();
    visit(&mut store, "A", "/u", 9_100);
    visit(&mut store, "A", "/u", 9_200);
    visit(&mut store, "B", "/u", 9_300);
    visit(&mut store, "A", "/u", 8_500);
    let pid = store.get_pid("/u").unwrap();

    let total = store.get_graph_total(pid, "t".to_string(), 1_000, 2, 10_000);
    let unique = store.get_graph_unique(pid, "u".to_string(), 1_000, 2, 10_000);
    // Window (9000,10000]: three rows, two distinct visitors.
    assert_eq!(total.timeline[1].amount, 3);
    assert_eq!(unique.timeline[1].amount, 2);
    // Window (8000,9000]: one row, one visitor.
    assert_eq!(total.timeline[0].amount, 1);
    assert_eq!(unique.timeline[0].amount, 1);
}

#[test]
fn path_with_no_requests_yields_all_zero_buckets() {
    let mut store = Store::new();
    visit(&mut store, "A", "/present", 500);
    // An identifier no row mentions aggregates to zero, not an error.
    let g = store.get_graph_total(7, "zero".to_string(), 1_000, 40, 10_000);
    assert_eq!(g.timeline.len(), 40);
    for node in &g.timeline {
        assert_eq!(node.amount, 0);
    }
    let gu = store.get_graph_unique(7, "zero".to_string(), 1_000, 40, 10_000);
    assert_eq!(gu.timeline.len(), 40);
    for node in &gu.timeline {
        assert_eq!(node.amount, 0);
    }
}
