//! A small in-memory key-value service speaking a length-delimited text
//! protocol: a codec between text and token trees, a store with lazy
//! per-key expiry, and a dispatcher from requests to responses.

pub mod resp;
pub mod store;
pub mod command;
