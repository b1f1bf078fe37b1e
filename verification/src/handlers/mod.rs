//! What client requests do to the state of the compositor.

pub mod capture;
pub mod compositor;
pub mod layer_shell;
pub mod power_button;
pub mod session_lock;
pub mod shell;
pub mod xdg_shell;
