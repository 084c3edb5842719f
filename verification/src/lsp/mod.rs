//! The language-server wire layer.

pub mod protocol;
pub mod stdio;
