pub mod deflate;
pub mod flags;
pub mod header;
pub mod member;
pub mod parse;
pub mod reader;
