//! Components that arrange others.

pub mod badge;
pub mod fixed_container_measure;
pub mod fixed_container_widget;
pub mod lazy_container;
pub mod list;
pub mod spacer;
