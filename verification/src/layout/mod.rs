//! Layout state and the layout protocol of a tree of widgets.

pub mod widget;
pub mod proposal;
pub mod subview;
pub mod laws;
pub mod memo;
pub mod placer;
