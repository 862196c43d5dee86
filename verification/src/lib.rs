//! A codec for the AMP wire format: a run of length-prefixed text fields
//! closed by a two-byte zero terminator.
//!
//! Every length prefix is a big-endian `u16`; every payload is UTF-8 text.
//! Scalars travel as their decimal or literal text, structs as alternating
//! key and value fields with nothing around them, sequences as one frame
//! around their elements.
//!
//! The codec can be driven in two ways. [`Serializer`] and [`Deserializer`]
//! write and read one field, frame or key at a time, for a caller that walks
//! its own data. [`to_amp`] and [`from_bytes`] walk a [`Value`], the second
//! one guided by the [`Shape`] that the caller asks for, since the wire
//! carries no types.
//!
//! How the codec treats three corners of the format:
//!
//! - A field of length zero is the terminator and nothing else. The empty
//!   string is refused by the encoder and is `BadData` to the decoder.
//! - A struct has no end mark of its own. The decoder reads the fields that
//!   the shape declares, in the declared order, and then stops, so a struct
//!   may stand anywhere in a value.
//! - A document ends with its terminator. The decoder asks for the
//!   terminator right after the value and for the end of the input right
//!   after the terminator; anything else there is `TrailingCharacters`.
//!
//! The module [`laws`] proves what holds of the two directions together: a
//! value comes back from its document, a document that is cut short is not
//! decoded, and a decoder answers a malformed input with `Eof`, `BadData` or
//! `TrailingCharacters`.

pub mod de;
pub mod decimal;
pub mod error;
pub mod framing;
pub mod laws;
pub mod ser;
pub mod text;
pub mod value;

pub use de::from_bytes;
pub use de::Deserializer;
pub use error::Error;
pub use ser::to_amp;
pub use ser::Serializer;
pub use value::Field;
pub use value::FieldShape;
pub use value::Shape;
pub use value::Value;
