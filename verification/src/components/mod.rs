//! The components, by kind.

pub mod controls;
pub mod graphics;
pub mod layout;
pub mod nav;
pub mod platform;
pub mod typography;
