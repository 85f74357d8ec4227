//! Deterministic sprite atlas packer.
//!
//! Point at a folder of PNGs, get one atlas image and a JSON sheet. This crate
//! holds the packing logic: choosing the sprite files and their names, the
//! search for an atlas size, the shelf packer, the frame sheet, and the
//! drawing of sprite pixels into the atlas. Reading and writing files is left
//! to the program around it.

pub mod blit;
pub mod error;
pub mod load;
pub mod names;
pub mod order;
pub mod pack;
pub mod paths;
pub mod raster;
pub mod reorder;
pub mod shelf;
pub mod sizing;

pub use error::Error;
pub use load::{collect_sprites, sprite_name};
pub use paths::path_order;
pub use pack::{pack_images, pack_images_checked, AtlasJson, AtlasMeta, Frame, PackConfig, PackedAtlas, Sprite};
pub use raster::Raster;
pub use sizing::next_size;
