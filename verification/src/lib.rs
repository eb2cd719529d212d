//! A small NomadNetwork page-hosting node: the page index, the request
//! decisions, the configuration rules and the page texts, with their
//! contracts proved by Verus.

pub mod announce;
pub mod cli;
pub mod config;
pub mod handler;
pub mod hash;
pub mod hexcodec;
pub mod msgpack;
pub mod pages;
pub mod script;
pub mod text;

pub use announce::APP_NAME;
pub use config::NomadConfig;
pub use pages::PageIndex;
