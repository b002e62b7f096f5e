//! Remaps the pixels of images onto a fixed colour palette.
//!
//! The library holds the logic: palette parsing (hex text, and the colours
//! of a decoded image), colour-space selection by name, nearest-colour
//! remapping of a pixel buffer, and the bookkeeping of a batch run. Reading
//! and writing files, floating-point colour distances, threads and the
//! command line live in the application around it.

pub mod color_space;
pub mod processor;
pub mod text;
pub mod hex;
pub mod palette;
pub mod batch;
