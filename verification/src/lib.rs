//! Procedural generation and streaming of an unbounded 2D tile world.
//!
//! The world is divided into square chunks of 16 x 16 tiles.  A chunk's
//! content is produced by [`generate_map::generate_chunk`] from the chunk
//! coordinate and a world seed; [`streaming::MapState`] keeps exactly the
//! chunks around a moving observer loaded, deciding each tick which chunks
//! to generate and which to drop.
//!
//! Fractional quantities (climate values, noise samples, tile-type draws)
//! are fixed-point integers in thousandths: `1000` stands for `1.0`.

pub mod generate_map;
pub mod streaming;

