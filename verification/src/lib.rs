//! A page-ordered image container ("comic archive") and the decision logic of
//! a tiled image-enhancement pipeline.
//!
//! The container engine stores pages as uncompressed archive entries under a
//! fixed-width, zero-padded decimal naming scheme, so that the lexicographic
//! order of entry names equals insertion order.  A reader filters entries by
//! content sniffing, sorts the surviving names, and navigates them through a
//! bounded cursor (the spine).  The enhancement side splits a page into
//! overlapping tiles that cover the whole image, assigns each tile to one of a
//! fixed pool of inference handles, and stitches the upscaled tiles back onto
//! an output canvas.

pub use errors::{ArchiveFinishError, CreateArchiveError, InsertionError, LoadImageError,
    ReaderCreationError, SpineCreationError};
pub use reader::Reader;
pub use writer::Writer;

pub mod archive;
pub mod codec;
pub mod convert;
pub mod enhance;
pub mod errors;
pub mod img;
pub mod merge;
pub mod names;
pub mod order;
pub mod pack;
pub mod reader;
pub mod spine;
pub mod stitch;
pub mod tiles;
pub mod view;
pub mod writer;
