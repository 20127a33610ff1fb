//! ttop: the verified core of a tmux-aware process tree viewer.

pub mod text;
pub mod tmux;
pub mod order;
pub mod model;
pub mod rows;
pub mod app;
pub mod ui;
pub mod tree;
pub mod fold;
