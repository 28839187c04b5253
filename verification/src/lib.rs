pub mod entry;
pub mod error;
pub mod history;
pub mod text;
pub mod time;
pub mod output;
pub mod summary;
pub mod report;
pub mod log;
pub mod service;
pub mod tui;
pub mod storage;
pub mod cli;
