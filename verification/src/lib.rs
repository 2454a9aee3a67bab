//! Two text ciphers, each with its inverse, and the editing rules of the
//! form through which they are used.
pub mod chars;
pub mod numeric;
pub mod encryption;
pub mod laws;
pub mod editor;
pub mod request;
