//! Shrinks scripts of a class-based, method-chaining scripting dialect by
//! dropping the library methods that the user section never reaches.

pub mod code_parser;
pub mod compile;
pub mod graph;
pub mod laws;
pub mod names;
pub mod order;
pub mod peek;
pub mod preprocess;
pub mod source;
pub mod split;
pub mod text;
pub mod usage;
