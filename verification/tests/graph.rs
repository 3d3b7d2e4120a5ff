use alacritty::graph::{
    build_system_tree, SurfaceKind, SurfaceSnapshot, WindowSnapshot, WorkspaceSnapshot,
};

#[test]
fn build_sorted_tree() {
    let tree = build_system_tree(vec![
        WindowSnapshot {
            id: 3,
            title: String::from("c"),
            workspaces: vec![WorkspaceSnapshot {
                id: 3,
                unread_count: 2,
                surfaces: vec![SurfaceSnapshot { id: 3, kind: SurfaceKind::Terminal }],
            }],
        },
        WindowSnapshot {
            id: 1,
            title: String::from("a"),
            workspaces: vec![WorkspaceSnapshot {
                id: 1,
                unread_count: 0,
                surfaces: vec![SurfaceSnapshot { id: 1, kind: SurfaceKind::Terminal }],
            }],
        },
    ]);

    assert_eq!(tree.windows[0].reference, "window:1");
    assert_eq!(tree.windows[0].workspaces[0].reference, "workspace:1");
    assert_eq!(tree.windows[1].reference, "window:3");
    assert_eq!(tree.windows[1].workspaces[0].unread_count, 2);
}

#[test]
fn every_level_is_sorted_and_labelled() {
    let tree = build_system_tree(vec![WindowSnapshot {
        id: 7,
        title: String::from("main"),
        workspaces: vec![
            WorkspaceSnapshot {
                id: 12,
                unread_count: 1,
                surfaces: vec![
                    SurfaceSnapshot { id: 10000001, kind: SurfaceKind::Webview },
                    SurfaceSnapshot { id: 4, kind: SurfaceKind::Terminal },
                ],
            },
            WorkspaceSnapshot { id: 2, unread_count: 0, surfaces: vec![] },
        ],
    }]);

    assert_eq!(tree.windows.len(), 1);
    let window = &tree.windows[0];
    assert_eq!(window.reference, "window:7");
    assert_eq!(window.title, "main");
    assert_eq!(window.workspaces.len(), 2);
    assert_eq!(window.workspaces[0].id, 2);
    assert_eq!(window.workspaces[0].reference, "workspace:2");
    assert!(window.workspaces[0].surfaces.is_empty());
    let busy = &window.workspaces[1];
    assert_eq!(busy.reference, "workspace:12");
    assert_eq!(busy.unread_count, 1);
    assert_eq!(busy.surfaces[0].reference, "surface:4");
    assert_eq!(busy.surfaces[0].kind, SurfaceKind::Terminal);
    assert_eq!(busy.surfaces[1].reference, "surface:10000001");
    assert_eq!(busy.surfaces[1].kind, SurfaceKind::Webview);
}

#[test]
fn equal_ids_keep_their_order() {
    let tree = build_system_tree(vec![
        WindowSnapshot { id: 5, title: String::from("first"), workspaces: vec![] },
        WindowSnapshot { id: 1, title: String::from("low"), workspaces: vec![] },
        WindowSnapshot { id: 5, title: String::from("second"), workspaces: vec![] },
    ]);
    let titles: Vec<&str> = tree.windows.iter().map(|w| w.title.as_str()).collect();
    assert_eq!(titles, vec!["low", "first", "second"]);
}

#[test]
fn empty_input_gives_empty_tree() {
    assert!(build_system_tree(Vec::new()).windows.is_empty());
}

fn snapshot(order: &[usize]) -> Vec<WindowSnapshot> {
    let surfaces = |ids: &[u64]| -> Vec<SurfaceSnapshot> {
        ids.iter().map(|&id| SurfaceSnapshot { id, kind: SurfaceKind::Terminal }).collect()
    };
    let mut windows = vec![
        WindowSnapshot {
            id: 2,
            title: String::from("two"),
            workspaces: vec![
                WorkspaceSnapshot { id: 9, unread_count: 1, surfaces: surfaces(&[5, 3]) },
                WorkspaceSnapshot { id: 4, unread_count: 0, surfaces: surfaces(&[8]) },
            ],
        },
        WindowSnapshot { id: 1, title: String::from("one"), workspaces: vec![] },
        WindowSnapshot {
            id: 6,
            title: String::from("six"),
            workspaces: vec![WorkspaceSnapshot { id: 1, unread_count: 3, surfaces: surfaces(&[2, 7, 1]) }],
        },
    ];
    if order[0] == 1 {
        windows[0].workspaces.reverse();
        windows[2].workspaces[0].surfaces.reverse();
    }
    order[1..].iter().map(|&i| windows[i].clone()).collect()
}

#[test]
fn tree_does_not_depend_on_input_order_when_ids_are_distinct() {
    let reference = build_system_tree(snapshot(&[0, 0, 1, 2]));
    for order in [[1, 2, 1, 0], [0, 1, 0, 2], [1, 0, 2, 1]] {
        assert_eq!(build_system_tree(snapshot(&order)), reference);
    }
    let ids: Vec<u64> = reference.windows.iter().map(|w| w.id).collect();
    assert_eq!(ids, vec![1, 2, 6]);
    let surfaces: Vec<&str> =
        reference.windows[2].workspaces[0].surfaces.iter().map(|s| s.reference.as_str()).collect();
    assert_eq!(surfaces, vec!["surface:1", "surface:2", "surface:7"]);
}
