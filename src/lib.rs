//! Encoding and decoding of bencode, the format of BitTorrent metainfo files.
//!
//! The wire format has four shapes: byte strings (`4:spam`), integers
//! (`i-3e`), lists (`l...e`) and dictionaries (`d...e`). Values of the
//! library ([`Value`]) are written with [`to_vec`] and read back with
//! [`from_bytes`] under a [`Shape`] that names what the caller expects.
use vstd::prelude::*;

mod de;
mod error;
mod grammar;
mod laws;
mod order;
mod ser;
mod value;

pub use de::{
    from_bytes, from_bytes_auto, from_bytes_with_depth, from_str, from_str_auto, Auto, Behaviour,
    Deserializer, Sealed, Simple, DEFAULT_MAX_DEPTH,
};
pub use error::{DeError, SerError};
pub use grammar::slice_while;
pub use ser::{to_string, to_vec, to_vec_with, EncodeConfig};
pub use value::{Shape, Val, Value};
