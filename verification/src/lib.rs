//! A keyboard-driven task manager: the task tree, its statuses and undo
//! history, the key map, and the views drawn from them. Everything here is
//! plain data and verified logic; terminal and file access live outside.
pub mod app;
pub mod clock;
pub mod color;
pub mod command;
pub mod config;
pub mod db;
pub mod defaults;
pub mod effects;
pub mod error;
pub mod external_editor;
pub mod finding;
pub mod footer;
pub mod forest;
pub mod help;
pub mod input;
pub mod key;
pub mod keymap;
pub mod keyspec;
pub mod laws;
pub mod note;
pub mod ops;
pub mod order;
pub mod overlay;
pub mod plans;
pub mod pressing;
pub mod query;
pub mod query_view;
pub mod render;
pub mod showing;
pub mod siblings;
pub mod sight;
pub mod status;
pub mod status_cycle;
pub mod status_effects;
pub mod status_manage;
pub mod store;
pub mod style;
pub mod tables;
pub mod task;
pub mod text;
pub mod tree;
pub mod width;
