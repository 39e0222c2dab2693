//! A strict JSON parser built as an explicit state machine over a builder
//! stack, and a pretty-printer that writes its trees back out as text.
//!
//! `machine` states what the parser does, character by character; `parser`
//! runs it and is proved to follow it; `render` writes trees out; `laws`
//! and `roundtrip` prove what holds of the two together.
pub mod error;
pub mod laws;
pub mod machine;
pub mod parser;
pub mod render;
pub mod roundtrip;
pub mod scalar;
pub mod text;
pub mod value;

pub use error::{Fault, ParseErr};
pub use parser::parse;
pub use render::pretty_print;
pub use value::JSON;
