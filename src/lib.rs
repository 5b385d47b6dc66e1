//! Incremental rendering core for a terminal user interface: a dirty-rectangle
//! accumulator over the screen grid, the selection of cells that a frame flush
//! forwards to the backend, and keyed reconciliation of list-shaped UI state.

pub mod controlflow;
pub mod prefix_sum_2d;
pub mod rect;
pub mod render_base;
pub mod split_word_wrap;
