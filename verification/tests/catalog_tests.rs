use ivyhost::analytics::AnalyticsRequest;
use ivyhost::store::Store;

fn visit(store: &mut Store, token: &str, path: &str, at: i64) {
    store.new_request(AnalyticsRequest {
        hashed_ip: token.to_string(),
        path: path.to_string(),
        created_at_milis: at,
    });
}

fn sample_store() -> Store {
    let mut store = Store::new();
    // /c: 3 distinct visitors; /a: 1; /b: 2; /d: 1.
    visit(&mut store, "v1", "/c", 1);
    visit(&mut store, "v2", "/c", 2);
    visit(&mut store, "v3", "/c", 3);
    visit(&mut store, "v1", "/a", 4);
    visit(&mut store, "v1", "/b", 5);
    visit(&mut store, "v2", "/b", 6);
    visit(&mut store, "v9", "/d", 7);
    store
}

#[test]
fn alphabetic_listing_is_sorted_ascending() {
    let store = sample_store();
    let rows = store.get_paths_alphabetic(10, 0);
    let names: Vec<&str> = rows.iter().map(|p| p.path.as_str()).collect();
    assert_eq!(names, vec!["/a", "/b", "/c", "/d"]);
}

#[test]
fn unique_listing_is_sorted_descending() {
    let store = sample_store();
    let rows = store.get_paths_unique_visitors_dec(10, 0);
    let counts: Vec<u64> = rows.iter().map(|p| p.total_unique).collect();
    assert_eq!(counts, vec![3, 2, 1, 1]);
    assert_eq!(rows[0].path, "/c");
    assert_eq!(rows[1].path, "/b");
    // Equal counts keep creation order: /a before /d.
    assert_eq!(rows[2].path, "/a");
    assert_eq!(rows[3].path, "/d");
}

#[test]
fn adjacent_pages_never_repeat_or_skip() {
    let store = sample_store();
    let page0 = store.get_paths_alphabetic(2, 0);
    let page1 = store.get_paths_alphabetic(2, 1);
    let page2 = store.get_paths_alphabetic(2, 2);
    let mut joined: Vec<String> = Vec::new();
    for p in page0.iter().chain(page1.iter()).chain(page2.iter()) {
        joined.push(p.path.clone());
    }
    assert_eq!(joined, vec!["/a", "/b", "/c", "/d"]);
}

#[test]
fn page_past_the_end_is_empty() {
    let store = sample_store();
    assert!(store.get_paths_alphabetic(20, 1).is_empty());
    assert!(store.get_paths_alphabetic(2, 99).is_empty());
    assert!(store.get_paths_unique_visitors_dec(20, 7).is_empty());
}

#[test]
fn page_count_rounds_up() {
    let store = sample_store();
    // Four paths.
    assert_eq!(store.total_page_count(20), 1);
    assert_eq!(store.total_page_count(2), 2);
    assert_eq!(store.total_page_count(3), 2);
    assert_eq!(store.total_page_count(4), 1);
    assert_eq!(store.total_page_count(1), 4);
    let empty = Store::new();
    assert_eq!(empty.total_page_count(20), 0);
}

#[test]
fn listing_reports_the_running_counters() {
    let store = sample_store();
    let rows = store.get_paths_alphabetic(10, 0);
    let c = rows.iter().find(|p| p.path == "/c").unwrap();
    assert_eq!(c.total_requests, 3);
    assert_eq!(c.total_unique, 3);
    let b = rows.iter().find(|p| p.path == "/b").unwrap();
    assert_eq!(b.total_requests, 2);
    assert_eq!(b.total_unique, 2);
}
