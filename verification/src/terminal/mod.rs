pub mod parser;
pub mod cells;
pub mod layout;
pub mod visual;
pub mod grid;
pub mod reflow;
pub mod screen;
