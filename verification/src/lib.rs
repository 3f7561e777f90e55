pub mod snippet;
pub mod config;
pub mod proto;
pub mod parser;
pub mod target;
pub mod snippet_manager;
pub mod server;
