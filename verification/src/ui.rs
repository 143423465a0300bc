//! What is shown: which desktops, in what order, and the operations that
//! bring the rendered widgets up to date.

pub mod arrange;
pub mod order;
pub mod screen;
pub mod widgets;
