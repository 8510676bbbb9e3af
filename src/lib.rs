pub mod bytes;
pub mod components;
pub mod header;
pub mod value;
pub mod config;
pub mod pool;
pub mod package;
pub mod arsc;
