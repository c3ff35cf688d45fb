//! Number peeking for editors: parses integer literals and bit macros under the
//! cursor and renders the same value in several notations.

pub mod bignat;
pub mod text;
pub mod literal;
pub mod bitmacro;
pub mod scan;
pub mod locate;
pub mod render;
pub mod normalize;
pub mod server;
pub mod extension;
