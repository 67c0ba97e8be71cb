//! Growable array and open-addressing hash map, with the small value types
//! that the toolkit built on them shares.

pub mod color;
pub mod hasher;
pub mod hashmap;
pub mod map_model;
pub mod primitives;
pub mod types;
pub mod vec;

pub use crate::color::Color;
pub use crate::hasher::{HashKey, QuickHasher};
pub use crate::hashmap::HashMap;
pub use crate::primitives::PrimitiveRenderer;
pub use crate::types::GraphicsBackend;
pub use crate::vec::Vec;
