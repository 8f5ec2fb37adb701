//! Traceability watermarks for archives that mix images and JSON-family
//! metadata: payload framing, value tokens, camouflaged JSON injection and
//! value-shape scanning, archive dispatch and the integer side of the image
//! codec, each with a verified contract.
pub mod error;
pub mod bits;
pub mod text;
pub mod hex;
pub mod payload;
pub mod token;
pub mod json_marker;
pub mod random;
pub mod paths;
pub mod archive;
pub mod codec;
pub mod models;
pub mod scanner;
pub mod batch;
