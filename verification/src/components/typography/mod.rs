//! Text.

pub mod attributes;
pub mod label;
pub mod reading;
pub mod text;
