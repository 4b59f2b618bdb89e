//! Content-addressable archives: a header naming root identifiers, followed by
//! length-prefixed sections, each a content identifier and its payload.

pub mod cbor;
pub mod cid;
pub mod codec;
pub mod error;
pub mod header;
pub mod ipld;
pub mod pb;
pub mod reader;
pub mod roundtrip;
pub mod section;
pub mod stream;
pub mod unixfs;
pub mod unixfs_codec;
pub mod utils;
pub mod varint;
pub mod writer;

pub use codec::{Decoder, Encoder};
pub use header::CarHeader;
pub use ipld::TreeValue;
