//! Decisions of the render pass.

pub mod renderer;
