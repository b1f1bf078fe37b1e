//! The decision-making core of the mudhuts compositor.

pub mod assoc;
pub mod authority;
pub mod autostart;
pub mod chrome;
pub mod chrome_config;
pub mod config;
pub mod console_hut;
pub mod cursor;
pub mod display_config;
pub mod docks;
pub mod gpu_term;
pub mod grabs;
pub mod graph;
pub mod graph_nodes;
pub mod graph_stack;
pub mod handlers;
pub mod held;
pub mod hut;
pub mod main_window;
pub mod portal;
pub mod stack_content;
pub mod stack_exit;
pub mod stack_finds;
pub mod stack_geometry;
pub mod stack_laws;
pub mod stack_model;
pub mod stack_moves;
pub mod stack_survivors;
pub mod term;
pub mod text;
pub mod tree;
