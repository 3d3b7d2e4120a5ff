use alacritty::ids::{parse_handle_ref, surface_ref, window_ref, workspace_ref, HandleKind};

#[test]
fn parse_valid_refs() {
    assert_eq!(parse_handle_ref("window:1"), Some((HandleKind::Window, 1)));
    assert_eq!(parse_handle_ref("workspace:2"), Some((HandleKind::Workspace, 2)));
    assert_eq!(parse_handle_ref("surface:3"), Some((HandleKind::Surface, 3)));
}

#[test]
fn parse_invalid_refs() {
    assert_eq!(parse_handle_ref("foo"), None);
    assert_eq!(parse_handle_ref("window:x"), None);
    assert_eq!(parse_handle_ref("unknown:1"), None);
}

#[test]
fn refs_render_ids_in_decimal() {
    assert_eq!(window_ref(1), "window:1");
    assert_eq!(workspace_ref(0), "workspace:0");
    assert_eq!(surface_ref(10000000), "surface:10000000");
    assert_eq!(window_ref(u64::MAX), "window:18446744073709551615");
    assert_eq!(surface_ref(907), "surface:907");
}

#[test]
fn refs_read_back() {
    for id in [0u64, 1, 9, 10, 99, 100, 12345, u64::MAX - 1, u64::MAX] {
        assert_eq!(parse_handle_ref(&window_ref(id)), Some((HandleKind::Window, id)));
        assert_eq!(parse_handle_ref(&workspace_ref(id)), Some((HandleKind::Workspace, id)));
        assert_eq!(parse_handle_ref(&surface_ref(id)), Some((HandleKind::Surface, id)));
    }
}

#[test]
fn parse_follows_integer_syntax() {
    assert_eq!(parse_handle_ref("window:+5"), Some((HandleKind::Window, 5)));
    assert_eq!(parse_handle_ref("window:007"), Some((HandleKind::Window, 7)));
    assert_eq!(parse_handle_ref("window:18446744073709551615"), Some((HandleKind::Window, u64::MAX)));
    assert_eq!(parse_handle_ref("window:18446744073709551616"), None);
    assert_eq!(parse_handle_ref("window:"), None);
    assert_eq!(parse_handle_ref("window:+"), None);
    assert_eq!(parse_handle_ref("window:-1"), None);
    assert_eq!(parse_handle_ref("window: 1"), None);
    assert_eq!(parse_handle_ref("window:1:2"), None);
    assert_eq!(parse_handle_ref("window:١"), None);
}

#[test]
fn parse_splits_at_the_first_colon_and_matches_words_exactly() {
    assert_eq!(parse_handle_ref(":1"), None);
    assert_eq!(parse_handle_ref("Window:1"), None);
    assert_eq!(parse_handle_ref("windows:1"), None);
    assert_eq!(parse_handle_ref("surface::1"), None);
    assert_eq!(parse_handle_ref(""), None);
}
