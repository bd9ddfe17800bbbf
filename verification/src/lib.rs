//! Row ID sequences: which rows a fragment holds, in a few compact encodings, and how they are
//! stored.
//!
//! A sequence ([`segment`]) is a list of segments. A segment is a range of row IDs, a range with
//! some missing (listed in an [`encoded_array`], as [`runs`] or as a [`bitmap`]), or an array.
//! [`serde`] turns sequences into the messages of [`pb`] and back, and checks what it reads. The
//! messages are written field by field in the [`wire`] format.

pub mod bitmap;
pub mod buffer;
pub mod encoded_array;
pub mod error;
pub mod packed;
pub mod pb;
pub mod runs;
pub mod segment;
pub mod serde;
pub mod wire;
