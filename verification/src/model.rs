//! The model half: what the trained artifact says about itself.

pub mod artifact;
pub mod config;
pub mod pieces;
pub mod suite;
pub mod budget;
