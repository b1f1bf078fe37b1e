//! The desktop portal backends: settings, screenshots and screen casts.

pub mod capture;
pub mod pipewire_stream;
pub mod screencast;
pub mod screenshot;
pub mod settings;
