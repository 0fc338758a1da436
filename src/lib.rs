//! Core object model of a small Lisp: values, environments, the reader and
//! the application protocol.
pub mod env;
pub mod reader;
pub mod types;
