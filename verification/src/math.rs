//! Small fixed-size math containers.
pub mod matrix;
