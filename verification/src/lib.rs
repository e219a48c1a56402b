//! A reader and writer for a small line-oriented mesh format.
//!
//! A document is a run of vertex lines (`v x y z`) followed by a run of
//! triangular face lines (`f i j k`).  [`ObjIndex::from_str`] turns a text
//! into a document or names the first line it refuses, and [`reformat_obj`]
//! writes a document back as text, one record per line.
//!
//! The library holds no machine numbers.  A vertex that was read keeps each
//! coordinate as the literal that stood in the text, known to be within
//! single-precision range; the text to write for a number is handed to the
//! writer by the caller, as a [`Rendering`] for each vertex.
//!
//! Every function states exactly what it computes, over a mathematical model
//! of the format: `text` defines characters, words and lines, `number` the
//! numerals, `range` which numbers a single-precision coordinate can hold,
//! `record` the two kinds of line, `document` the reader's walk through a
//! text, and `roundtrip` proves that what is written is read back unchanged.

pub mod document;
pub mod error;
pub mod number;
pub mod range;
pub mod record;
pub mod roundtrip;
pub mod text;

pub use document::{reformat_obj, ObjIndex};
pub use error::ParseError;
pub use record::{FaceIndex, Rendering, Vertex};
