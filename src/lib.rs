//! Flattens an OpenAPI document into a catalog of its operations, resolving
//! schema references into compact type skeletons.

pub mod catalog;
pub mod document;
pub mod render;
pub mod resolver;
pub mod skeleton;
