//! Back ends.
pub mod wasm;
