//! A second stack: one growable, aligned byte region from which strictly nested,
//! typed, growable sequences are carved and torn down in LIFO order.

pub mod buffer;
pub mod element;
pub mod stack;

pub use element::Element;
pub use stack::{Stack, StackMemory, StackVec};
