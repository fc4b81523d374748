pub mod catalog;
pub mod filter;
pub mod decode;
pub mod strutil;
pub mod cache;
pub mod settings;
