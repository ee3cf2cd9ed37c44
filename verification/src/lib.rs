//! Verified core of a sprite-atlas editor: colour decoding, the pixel-size
//! model of the atlas, the application state model, the shelf allocator of the
//! preview texture, the hit-test tree arena, the pointer input state machine,
//! the quad tree that indexes sprite rectangles and the index built on it, the
//! workers' status lines, and the size read from a PNG header.
use vstd::prelude::*;

pub mod color;
pub mod coordinate;
pub mod app_state;
pub mod texture_atlas;
pub mod hittest;
pub mod quad_tree;
pub mod sprite_index;
pub mod input;
pub mod bg_worker;
pub mod composition;
pub mod png;
