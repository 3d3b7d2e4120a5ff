# alacritty runtime model

The verified core of an agent-oriented terminal's runtime: stable handles
(`window:N`, `workspace:N`, `surface:N`), the system tree, the split-pane layout,
the notification store, the webview surface registry and backend selection.

- `src/` — the library, verified with Verus.
- `tests/` — tests of the library.
- `app/` — serde-serializable mirrors of the library's records, for JSON replies.
