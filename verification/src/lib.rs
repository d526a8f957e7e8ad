//! Browsing a tree of remote 3D meshes: the tree itself, the rule that decides
//! whether a position shows one mesh or a grid of them, the exact grid layout,
//! and the debounced loading status.

pub mod json;
pub mod layout;
pub mod loading;
pub mod meshes_tree;
pub mod navigation;
