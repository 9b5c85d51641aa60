//! Kanban board that follows coding agent sessions running in tmux panes.
//!
//! The verified library holds the board's state and rules: the persistent
//! store of swimlanes, prompts and notes, the classification of tmux panes,
//! navigation over the board, the actions on cards, the keyboard, and what
//! the drawing shows. The program around it reads keys, draws, runs tmux and
//! keeps the state file; it hands the library plain values and carries out
//! the work the library asks for (`app::Effect`).

pub mod app;
pub mod board;
pub mod cards;
pub mod keys;
pub mod sorting;
pub mod store;
pub mod strmap;
pub mod text;
pub mod tmux;
