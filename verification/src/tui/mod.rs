//! State of the interactive terminal interface.
//!
//! Everything here is pure state manipulation; drawing and the event loop
//! live with the terminal front end.

pub mod app;
pub mod history;
pub mod groups;
