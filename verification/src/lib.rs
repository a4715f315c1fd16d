//! A verified codec for the Bencode wire format.
//!
//! The wire value space has four shapes: length-prefixed strings (treated
//! as UTF-8 text), signed 64-bit integers written `i<digits>e`, lists
//! written `l...e`, and dictionaries written `d...e` whose keys must be
//! emitted in ascending byte order.  The decoder is a byte-position-tracking
//! recursive-descent parser; the encoder is a streaming writer that buffers
//! each dictionary's entries and flushes them in canonical key order.

pub mod error;
pub mod wire;
pub mod value;
pub mod text;
pub mod ser;
pub mod read;
pub mod de;
pub mod roundtrip;

pub use error::{Error, ErrorCode};
pub use value::Value;
pub use read::{Read, SliceRead, StringRead};
pub use de::{from_slice, from_string, Deserializer};
pub use ser::{to_string, to_vec, DictEncoder, Formatter, Serializer, State};
