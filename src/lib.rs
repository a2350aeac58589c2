//! Compares what a value's `Display` or `Debug` formatting writes against an
//! expected string, chunk by chunk, without building the rendering.
pub mod comparator;
pub mod stream;

pub use comparator::{
    eq_chunks, eq_debug, eq_debug_traced, eq_display, eq_display_traced, verdict, Comparator,
};
