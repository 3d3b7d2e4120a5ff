use alacritty::webview::WebviewStore;

#[test]
fn open_and_navigate_and_close() {
    let mut store = WebviewStore::default();
    let opened =
        store.open(String::from("workspace:1"), String::from("https://example.com")).id.clone();
    assert_eq!(store.list().len(), 1);

    let _ = store.navigate(&opened, String::from("https://alacritty.org"));
    assert_eq!(store.list()[0].url, "https://alacritty.org");

    assert!(store.close(&opened).is_some());
    assert!(store.list().is_empty());
}

#[test]
fn open_gives_fresh_handles_from_the_base() {
    let mut store = WebviewStore::default();
    let a = store.open(String::from("workspace:1"), String::from("https://a")).clone();
    let b = store.open(String::from("workspace:1"), String::from("https://b")).clone();
    assert_eq!(a.id, "surface:10000000");
    assert_eq!(b.id, "surface:10000001");
    assert_eq!(a.workspace_id, "workspace:1");
    assert_eq!(a.url, "https://a");
    assert_eq!(a.title, None);
    assert!(store.close(&a.id).is_some());
    let c = store.open(String::from("workspace:2"), String::from("https://c")).clone();
    assert_eq!(c.id, "surface:10000002");
}

#[test]
fn navigate_and_close_of_unknown_handles_change_nothing() {
    let mut store = WebviewStore::default();
    store.open(String::from("workspace:1"), String::from("https://a"));
    assert!(store.navigate("surface:1", String::from("https://b")).is_none());
    assert!(store.close("surface:1").is_none());
    assert_eq!(store.list().len(), 1);
    assert_eq!(store.list()[0].url, "https://a");
}

#[test]
fn navigate_returns_the_updated_surface() {
    let mut store = WebviewStore::default();
    let id = store.open(String::from("workspace:1"), String::from("https://a")).id.clone();
    let updated = store.navigate(&id, String::from("https://b")).cloned();
    assert_eq!(updated.map(|s| s.url), Some(String::from("https://b")));
}

#[test]
fn close_returns_the_removed_surface_and_keeps_the_rest_in_order() {
    let mut store = WebviewStore::default();
    let a = store.open(String::from("workspace:1"), String::from("https://a")).id.clone();
    let b = store.open(String::from("workspace:2"), String::from("https://b")).id.clone();
    let c = store.open(String::from("workspace:1"), String::from("https://c")).id.clone();
    let removed = store.close(&b).expect("open surface");
    assert_eq!(removed.url, "https://b");
    let ids: Vec<&str> = store.list().iter().map(|s| s.id.as_str()).collect();
    assert_eq!(ids, vec![a.as_str(), c.as_str()]);
}

#[test]
fn list_for_workspace_filters_in_order() {
    let mut store = WebviewStore::default();
    store.open(String::from("workspace:1"), String::from("https://a"));
    store.open(String::from("workspace:2"), String::from("https://b"));
    store.open(String::from("workspace:1"), String::from("https://c"));
    let urls: Vec<&str> = store.list_for_workspace("workspace:1").iter().map(|s| s.url.as_str()).collect();
    assert_eq!(urls, vec!["https://a", "https://c"]);
    assert!(store.list_for_workspace("workspace:3").is_empty());
}

#[test]
fn listed_handles_ascend_in_store_order() {
    let mut store = WebviewStore::default();
    let mut opened = Vec::new();
    for i in 0..5 {
        opened.push(store.open(format!("workspace:{}", i % 2), String::from("https://a")).id.clone());
    }
    assert!(store.close(&opened[1]).is_some());
    assert!(store.close(&opened[3]).is_some());
    store.open(String::from("workspace:0"), String::from("https://b"));
    let numbers: Vec<u64> = store
        .list()
        .iter()
        .map(|s| s.id.strip_prefix("surface:").expect("surface handle").parse().expect("number"))
        .collect();
    assert_eq!(numbers, vec![10000000, 10000002, 10000004, 10000005]);
}
