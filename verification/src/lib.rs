//! Indentation-based HTML and CSS templates, and the buffers they render into.

pub mod chars;
pub mod body;
pub mod markup;
pub mod text;
pub mod source;
pub mod html;
pub mod indent;
pub mod css;
pub mod compile;
