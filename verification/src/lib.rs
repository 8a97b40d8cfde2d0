//! Structural graph model of an M1 project and its renderers.
pub mod text;
pub mod model;
pub mod loader;
pub mod dot;
pub mod dataflow;
pub mod eval;
pub mod html;
pub mod cli;
