//! The built-in terminal: what its keys and mouse send, the colors its cells
//! have, and how its grid becomes pixels.

pub mod fonts;
pub mod keys;
pub mod mouse;
pub mod palette;
pub mod render;
pub mod terminal;
