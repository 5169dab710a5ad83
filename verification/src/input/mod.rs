//! Keyboard and mouse state across frames.

pub mod input;
