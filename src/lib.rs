//! A small markup parser: text in, a document tree (or a typed failure) out.
pub mod attr_map;
pub mod dom;
pub mod grammar;
