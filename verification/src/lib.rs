pub mod calendar;
pub mod error;
pub mod text;
pub mod entry;
pub mod config;
pub mod logbook;
pub mod laws;
pub mod emoji;
pub mod layout;
pub mod order;
pub mod search;
pub mod cli;
pub mod format;
pub mod editor;
pub mod lint;
