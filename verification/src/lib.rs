//! Verified core of a signed-distance-field text renderer: edge colors,
//! the GameMaker wire format, the glyph atlas packer, font and shape
//! registries, and the rich-text markup parser.

pub mod atlas;
pub mod buffers;
pub mod color;
pub mod fonts;
pub mod glyph_jobs;
pub mod render;
pub mod rich_parse;
pub mod rich_text;
pub mod shape;
pub mod shaper;
pub mod shaping;
pub mod upload;
pub mod wire;
