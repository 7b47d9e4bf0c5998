//! A typed key-value save format with a line-oriented text encoding and a
//! compact, versioned binary encoding.

pub mod byte;
pub mod class;
pub mod cursor;
pub mod model;
pub mod utf8;
pub mod value;
pub mod mapping;
pub mod parse;
pub mod render;
pub mod laws;

pub use crate::mapping::Mapping;
pub use crate::model::Error;
pub use crate::parse::{parse_bytes, parse_str};
pub use crate::render::{hashmap_to_string, slice_to_string};
pub use crate::value::{Number, Value, Vec2, Vec3};
