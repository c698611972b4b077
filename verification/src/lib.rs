//! Pixel-art editing core: colors, images, drawing geometry and fills,
//! layers and frames with an undo history, palettes, export reshaping,
//! filters, and the document bookkeeping around them.

pub mod action;
pub mod canvas;
pub mod collection;
pub mod color;
pub mod export;
pub mod files;
pub mod filter;
pub mod fill;
pub mod geom;
pub mod graphics;
pub mod image;
pub mod layer;
pub mod names;
pub mod panels;
pub mod palette;
pub mod paths;
pub mod prng;
pub mod rgba;
pub mod rounding;
pub mod state;
pub mod text;
pub mod transform;
