//! Block-oriented streaming compression: a byte buffer is cut into fixed-size
//! blocks, each block is compressed on its own by a pluggable codec, and each
//! compressed block is framed on the stream behind a fixed-width length field.
//! A reader walks the frames back one at a time and decompresses them.

pub mod error;
pub mod length;
pub mod codec;
pub mod format;
pub mod block;
pub mod raw;
