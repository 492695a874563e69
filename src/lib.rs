//! The window-placement core of a tiling window manager: an arena tree of
//! outputs, workspaces, split containers and views, and the rules that keep
//! it consistent as windows come and go.

pub mod compositor;
pub mod container;
pub mod graph_tree;
pub mod handlers;
pub mod node;
pub mod registry;
pub mod tree;
