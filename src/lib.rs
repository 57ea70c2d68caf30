pub mod config;
pub mod entry;
pub mod scan;
pub mod store;
pub mod watch;
