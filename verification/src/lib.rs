//! Keyed widgets that keep the continuity of their children's state, with the
//! sizing strategies, mouse and window vocabulary they rely on.
pub mod keyed;
pub mod length;
pub mod mouse;
pub mod widget;
pub mod window;
