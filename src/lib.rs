//! Converts images into sixel terminal-graphics streams.
pub mod convert;
pub mod error;
pub mod group;
pub mod sixel;
