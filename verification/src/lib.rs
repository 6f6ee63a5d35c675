//! S-expressions, as specified by RFC 9804.
pub mod syntax;
pub mod types;
pub mod text;
pub mod base64;
pub mod encode;
pub mod decode;

pub use crate::types::{Atom, Sexp};
