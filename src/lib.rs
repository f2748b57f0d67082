pub mod log;
pub mod merge;
pub mod runner;
pub mod scroll_state;
