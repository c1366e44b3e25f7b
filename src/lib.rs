//! Decoding and encoding of ASN.1 Basic Encoding Rules (BER) tag-length-value
//! trees, with the codec proved against a specification of the wire format.

pub mod err;
pub mod laws;
pub mod tag;
pub mod util;

pub use err::Error;
pub use tag::{Number, Payload, Tag};
