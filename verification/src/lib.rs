//! A horizontally scrolling strip of full-height columns, and the terminal
//! application that keeps one terminal in each column.

pub mod app;
pub mod horizontal_scroll;
