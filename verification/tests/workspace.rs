use alacritty::workspace::{PaneNode, PaneTree, SplitDirection, SplitOrientation};

#[test]
fn left_split_is_horizontal_and_inserted_first() {
    let mut tree = PaneTree::new(String::from("surface:1"));
    assert!(tree.split("surface:1", SplitDirection::Left, String::from("surface:2")));

    match tree.root {
        PaneNode::Split { orientation, first, second } => {
            assert_eq!(orientation, SplitOrientation::Horizontal);
            assert_eq!(first, Box::new(PaneNode::Leaf(String::from("surface:2"))));
            assert_eq!(second, Box::new(PaneNode::Leaf(String::from("surface:1"))));
        },
        _ => panic!("expected split node"),
    }
}

#[test]
fn down_split_is_vertical_and_inserted_second() {
    let mut tree = PaneTree::new(String::from("surface:1"));
    assert!(tree.split("surface:1", SplitDirection::Down, String::from("surface:2")));

    match tree.root {
        PaneNode::Split { orientation, first, second } => {
            assert_eq!(orientation, SplitOrientation::Vertical);
            assert_eq!(first, Box::new(PaneNode::Leaf(String::from("surface:1"))));
            assert_eq!(second, Box::new(PaneNode::Leaf(String::from("surface:2"))));
        },
        _ => panic!("expected split node"),
    }
}

#[test]
fn directions_map_to_orientation_and_side() {
    assert_eq!(SplitDirection::Left.orientation(), SplitOrientation::Horizontal);
    assert_eq!(SplitDirection::Right.orientation(), SplitOrientation::Horizontal);
    assert_eq!(SplitDirection::Up.orientation(), SplitOrientation::Vertical);
    assert_eq!(SplitDirection::Down.orientation(), SplitOrientation::Vertical);
    assert!(SplitDirection::Left.insert_first());
    assert!(SplitDirection::Up.insert_first());
    assert!(!SplitDirection::Right.insert_first());
    assert!(!SplitDirection::Down.insert_first());
}

#[test]
fn split_of_a_missing_surface_changes_nothing() {
    let mut tree = PaneTree::new(String::from("surface:1"));
    assert!(!tree.split("surface:9", SplitDirection::Right, String::from("surface:2")));
    assert_eq!(tree, PaneTree::new(String::from("surface:1")));
    assert_eq!(tree.surfaces(), vec!["surface:1"]);
}

#[test]
fn nested_splits_keep_surface_order() {
    let mut tree = PaneTree::new(String::from("surface:1"));
    assert!(tree.split("surface:1", SplitDirection::Right, String::from("surface:2")));
    assert!(tree.split("surface:2", SplitDirection::Up, String::from("surface:3")));
    assert!(tree.split("surface:1", SplitDirection::Left, String::from("surface:4")));
    assert_eq!(tree.surfaces(), vec!["surface:4", "surface:1", "surface:3", "surface:2"]);
}

#[test]
fn only_the_first_pane_of_a_repeated_surface_is_split() {
    let mut tree = PaneTree::new(String::from("s"));
    assert!(tree.split("s", SplitDirection::Right, String::from("s")));
    assert_eq!(tree.surfaces(), vec!["s", "s"]);
    assert!(tree.split("s", SplitDirection::Down, String::from("t")));
    assert_eq!(tree.surfaces(), vec!["s", "t", "s"]);
    match &tree.root {
        PaneNode::Split { first, second, .. } => {
            assert_eq!(**second, PaneNode::Leaf(String::from("s")));
            assert!(matches!(**first, PaneNode::Split { orientation: SplitOrientation::Vertical, .. }));
        },
        _ => panic!("expected split node"),
    }
}

#[test]
fn duplicate_copies_the_whole_layout() {
    let mut tree = PaneTree::new(String::from("surface:1"));
    assert!(tree.split("surface:1", SplitDirection::Right, String::from("surface:2")));
    assert!(tree.split("surface:2", SplitDirection::Up, String::from("surface:3")));
    let copy = tree.duplicate();
    assert_eq!(copy, tree);
    assert!(tree.split("surface:3", SplitDirection::Left, String::from("surface:4")));
    assert_eq!(copy.surfaces(), vec!["surface:1", "surface:3", "surface:2"]);
    assert_eq!(tree.root.duplicate(), tree.root);
}
