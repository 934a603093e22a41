//! A mock HTTP endpoint server's core: route templates matched against
//! request paths, and in-memory JSON document stores read and changed by
//! GET, POST, PATCH and DELETE on paths into them.
pub mod assoc;
pub mod codec;
pub mod config_parser;
pub mod db_handle;
pub mod json;
pub mod laws;
pub mod pointer;
pub mod resolver;
pub mod text;
pub mod utils;
