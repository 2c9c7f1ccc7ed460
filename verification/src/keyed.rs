//! Keyed widgets can provide hints to ensure continuity.
//!
//! In a graphical user interface, users expect widgets to have a certain
//! degree of continuous state: a text input that is focused should stay
//! focused even if the widget tree changes slightly. The widgets in this
//! module ask for a key for each child; as long as the key stays the same for
//! the same item between views, the child keeps its state.
pub mod reconcile;
pub mod stack;

pub use stack::Stack;
