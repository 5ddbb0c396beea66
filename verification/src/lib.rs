//! Decoder for version-control pack containers: a twelve-byte header followed
//! by a run of zlib-compressed objects, each introduced by a variable-length
//! size and type header.

pub mod error;
pub mod cursor;
pub mod varint;
pub mod inflate;
pub mod pack;
pub mod encoding;
