//! A small task tracker: titled to-do records kept in an ordered list,
//! serialized to and from a JSON text form for persistence.

pub mod json;
pub mod store;
pub mod task;
pub mod text;
