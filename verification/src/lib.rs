//! A GIF87a/GIF89a decoder: a binary container parser, an LZW
//! decompressor, a frame compositor that honors the GIF disposal model,
//! and a de-interlacer, together with a small pushable bit reader.

pub mod bit_reader;
pub mod compositor;
pub mod deinterlace;
pub mod lzw;
pub mod parser;
pub mod types;
