//! Core state of a terminal to-do list: the task records, the cursor-bearing
//! list they are shown in, and the application state machine that gates how
//! keystrokes are interpreted (creating, editing, filtering, sorting).
//!
//! Terminal rendering, raw key capture and file persistence live outside this
//! crate; they hand plain values in and take plain values back.

pub mod app;
pub mod filtering;
pub mod sorting;
pub mod todo_item;
pub mod utils;
