//! A small key-value server core: the request codec, the expiring store and
//! the snapshot decoder, with the command handling that joins them.

pub mod text;
pub mod maps;
pub mod glob;
pub mod parser;
pub mod storage;
pub mod config;
pub mod arguments;
pub mod database;
pub mod loader;
pub mod dispatch;
