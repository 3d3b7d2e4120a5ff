//! The runtime model behind an agent-oriented terminal: stable handles, the system tree,
//! split panes, notifications, webview surfaces and backend selection.
pub mod backend;
pub mod clock;
pub mod graph;
pub mod ids;
pub mod notification;
pub mod select;
pub mod sort;
pub mod text;
pub mod workspace;
pub mod webview;
