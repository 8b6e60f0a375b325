pub mod context;
pub mod render;
pub mod view;
pub mod widget;
