use alacritty::notification::{NewNotification, NotificationStore, NotificationTarget};

fn target(workspace: &str, surface: Option<&str>) -> NotificationTarget {
    NotificationTarget {
        workspace_id: String::from(workspace),
        surface_id: surface.map(String::from),
    }
}

fn note(workspace: &str, surface: Option<&str>, title: &str) -> NewNotification {
    NewNotification {
        target: target(workspace, surface),
        title: String::from(title),
        body: String::from("body"),
    }
}

#[test]
fn dedupe_target_on_insert() {
    let target = NotificationTarget {
        workspace_id: String::from("workspace:1"),
        surface_id: Some(String::from("surface:1")),
    };

    let mut store = NotificationStore::default();
    store.insert(NewNotification {
        target: target.clone(),
        title: String::from("first"),
        body: String::from("1"),
    });
    store.insert(NewNotification {
        target,
        title: String::from("second"),
        body: String::from("2"),
    });

    assert_eq!(store.list().len(), 1);
    assert_eq!(store.list()[0].title, "second");
}

#[test]
fn unread_count_ignores_read_notifications() {
    let mut store = NotificationStore::default();
    let created = store.insert(NewNotification {
        target: NotificationTarget {
            workspace_id: String::from("workspace:7"),
            surface_id: None,
        },
        title: String::from("attention"),
        body: String::from("body"),
    });

    assert_eq!(store.unread_count_for_workspace("workspace:7"), 1);
    let _ = store.mark_read(created.id);
    assert_eq!(store.unread_count_for_workspace("workspace:7"), 0);
}

#[test]
fn latest_for_workspace_picks_last_insert() {
    let mut store = NotificationStore::default();
    store.insert(NewNotification {
        target: NotificationTarget {
            workspace_id: String::from("workspace:2"),
            surface_id: None,
        },
        title: String::from("first"),
        body: String::from("a"),
    });
    store.insert(NewNotification {
        target: NotificationTarget {
            workspace_id: String::from("workspace:2"),
            surface_id: Some(String::from("surface:22")),
        },
        title: String::from("second"),
        body: String::from("b"),
    });

    assert_eq!(
        store.latest_for_workspace("workspace:2").map(|n| n.title.as_str()),
        Some("second")
    );
}

#[test]
fn latest_unread_for_workspace_skips_read() {
    let mut store = NotificationStore::default();
    let first = store.insert(NewNotification {
        target: NotificationTarget {
            workspace_id: String::from("workspace:3"),
            surface_id: None,
        },
        title: String::from("first"),
        body: String::from("a"),
    });
    let _ = store.mark_read(first.id);
    store.insert(NewNotification {
        target: NotificationTarget {
            workspace_id: String::from("workspace:3"),
            surface_id: Some(String::from("surface:31")),
        },
        title: String::from("second"),
        body: String::from("b"),
    });

    assert_eq!(
        store.latest_unread_for_workspace("workspace:3").map(|n| n.title.as_str()),
        Some("second")
    );
}

#[test]
fn insert_numbers_records_and_keeps_other_targets() {
    let mut store = NotificationStore::default();
    let a = store.insert(note("workspace:1", None, "a"));
    let b = store.insert(note("workspace:1", Some("surface:1"), "b"));
    let c = store.insert(note("workspace:2", None, "c"));
    assert_eq!((a.id, b.id, c.id), (0, 1, 2));
    assert!(!a.read && !b.read && !c.read);
    assert_eq!(a.title, "a");
    assert_eq!(a.target, target("workspace:1", None));

    let again = store.insert(note("workspace:1", None, "a2"));
    assert_eq!(again.id, 3);
    let titles: Vec<&str> = store.list().iter().map(|n| n.title.as_str()).collect();
    assert_eq!(titles, vec!["b", "c", "a2"]);
    assert_eq!(store.list()[2], again);
}

#[test]
fn insert_stamps_with_the_clock() {
    let mut store = NotificationStore::default();
    let record = store.insert(note("workspace:1", None, "a"));
    // Any clock after 2001-09-09 reads above 10^12 milliseconds.
    assert!(record.created_at_millis > 1_000_000_000_000);
}

#[test]
fn insert_at_keeps_the_given_stamp() {
    let mut store = NotificationStore::default();
    let record = store.insert_at(note("workspace:1", None, "a"), 42);
    assert_eq!(record.created_at_millis, 42);
    assert_eq!(store.list()[0].created_at_millis, 42);
}

#[test]
fn latest_of_an_unknown_workspace_is_none() {
    let mut store = NotificationStore::default();
    assert!(store.latest_for_workspace("workspace:1").is_none());
    store.insert(note("workspace:1", None, "a"));
    assert!(store.latest_for_workspace("workspace:9").is_none());
    assert!(store.latest_unread_for_workspace("workspace:9").is_none());
    assert_eq!(store.unread_count_for_workspace("workspace:9"), 0);
}

#[test]
fn latest_unread_is_none_once_all_are_read() {
    let mut store = NotificationStore::default();
    let a = store.insert(note("workspace:4", None, "a"));
    assert_eq!(store.latest_unread_for_workspace("workspace:4").map(|n| n.id), Some(a.id));
    let marked = store.mark_read(a.id).map(|n| (n.id, n.read));
    assert_eq!(marked, Some((a.id, true)));
    assert!(store.latest_unread_for_workspace("workspace:4").is_none());
    assert_eq!(store.latest_for_workspace("workspace:4").map(|n| n.id), Some(a.id));
}

#[test]
fn mark_read_of_unknown_id_changes_nothing() {
    let mut store = NotificationStore::default();
    store.insert(note("workspace:1", None, "a"));
    assert!(store.mark_read(99).is_none());
    assert_eq!(store.unread_count_for_workspace("workspace:1"), 1);
    assert!(!store.list()[0].read);
}

#[test]
fn unread_count_counts_each_target_of_a_workspace() {
    let mut store = NotificationStore::default();
    store.insert(note("workspace:1", None, "a"));
    let b = store.insert(note("workspace:1", Some("surface:1"), "b"));
    store.insert(note("workspace:1", Some("surface:2"), "c"));
    store.insert(note("workspace:2", None, "d"));
    assert_eq!(store.unread_count_for_workspace("workspace:1"), 3);
    let _ = store.mark_read(b.id);
    assert_eq!(store.unread_count_for_workspace("workspace:1"), 2);
    assert_eq!(store.unread_count_for_workspace("workspace:2"), 1);
    let _ = store.mark_read(b.id);
    assert_eq!(store.unread_count_for_workspace("workspace:1"), 2);
}

#[test]
fn recent_lists_newest_first_up_to_the_limit() {
    let mut store = NotificationStore::default();
    store.insert(note("workspace:1", None, "a"));
    store.insert(note("workspace:2", None, "b"));
    store.insert(note("workspace:3", None, "c"));
    let titles = |limit: usize| -> Vec<String> {
        store.recent(limit).iter().map(|n| n.title.clone()).collect()
    };
    assert_eq!(titles(2), vec!["c", "b"]);
    assert_eq!(titles(10), vec!["c", "b", "a"]);
    assert!(titles(0).is_empty());
}
