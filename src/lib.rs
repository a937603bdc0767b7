//! A small credential vault: records of name, username and password kept one
//! per line in a flat text store, with list, get, add and delete over it.
pub mod codec;
pub mod config;
pub mod store;
