pub mod bytes;
pub mod cache;
pub mod client;
pub mod codec;
pub mod config;
pub mod db;
pub mod embeddings;
pub mod errors;
pub mod feed;
pub mod numeral;
pub mod persist;
pub mod record;
pub mod state;
pub mod ui;
pub mod wrappers;
pub mod xml;
