//! Controls.

pub mod picker;
