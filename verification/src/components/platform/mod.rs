//! Components that host what other parts of the system provide.

pub mod dynamic;
