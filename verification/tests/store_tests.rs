use ivyhost::analytics::AnalyticsRequest;
use ivyhost::store::Store;

fn visit(store: &mut Store, token: &str, path: &str, at: i64) {
    store.new_request(AnalyticsRequest {
        hashed_ip: token.to_string(),
        path: path.to_string(),
        created_at_milis: at,
    });
}

#[test]
fn three_visits_two_visitors() {
    // Visitor A at t=0 and t=10, visitor B at t=20, all to /foo.
    let mut store = Store::new();
    visit(&mut store, "A", "/foo", 0);
    visit(&mut store, "A", "/foo", 10);
    visit(&mut store, "B", "/foo", 20);

    let pid = store.get_pid("/foo").expect("/foo was recorded");
    let summary = store.get_path(pid);
    assert_eq!(summary.path, "/foo");
    assert_eq!(summary.total_requests, 3);
    assert_eq!(summary.total_unique, 2);
}

#[test]
fn repeated_pair_counts_one_unique() {
    let mut store = Store::new();
    for t in 0..5i64 {
        visit(&mut store, "same-client", "/page", t);
    }
    let pid = store.get_pid("/page").unwrap();
    let summary = store.get_path(pid);
    assert_eq!(summary.total_requests, 5);
    assert_eq!(summary.total_unique, 1);
}

#[test]
fn distinct_tokens_count_distinct_uniques() {
    let mut store = Store::new();
    visit(&mut store, "k1", "/p", 1);
    visit(&mut store, "k2", "/p", 2);
    visit(&mut store, "k3", "/p", 3);
    visit(&mut store, "k2", "/p", 4);
    let pid = store.get_pid("/p").unwrap();
    let summary = store.get_path(pid);
    assert_eq!(summary.total_requests, 4);
    assert_eq!(summary.total_unique, 3);
}

#[test]
fn unique_is_per_path_not_global() {
    let mut store = Store::new();
    visit(&mut store, "A", "/one", 1);
    visit(&mut store, "A", "/two", 2);
    visit(&mut store, "A", "/one", 3);

    let one = store.get_path(store.get_pid("/one").unwrap());
    let two = store.get_path(store.get_pid("/two").unwrap());
    assert_eq!(one.total_requests, 2);
    assert_eq!(one.total_unique, 1);
    assert_eq!(two.total_requests, 1);
    assert_eq!(two.total_unique, 1);
}

#[test]
fn unknown_path_resolves_to_none() {
    let mut store = Store::new();
    assert!(store.get_pid("/nowhere").is_none());
    visit(&mut store, "A", "/somewhere", 0);
    assert!(store.get_pid("/nowhere").is_none());
    assert!(store.get_pid("/somewhere").is_some());
}

#[test]
fn total_paths_counts_distinct_paths() {
    let mut store = Store::new();
    assert_eq!(store.get_total_paths(), 0);
    visit(&mut store, "A", "/a", 1);
    visit(&mut store, "B", "/a", 2);
    visit(&mut store, "A", "/b", 3);
    assert_eq!(store.get_total_paths(), 2);
}
