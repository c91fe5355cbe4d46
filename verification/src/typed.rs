//! Typed views of the shared document.

pub mod json;
