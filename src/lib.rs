pub mod cache;
pub mod cli;
pub mod configuration;
pub mod index;
pub mod note;
pub mod parser;
pub mod query;
pub mod store;
pub mod table;
pub mod text;
