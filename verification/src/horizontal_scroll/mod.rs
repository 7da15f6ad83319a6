//! A Niri-style horizontally scrolling tiling container.

pub mod state;

pub use state::{Action, Pane, State, StateView};
