//! A Bencode codec: a value model, a decoder that reports the bytes it
//! consumed, a validator for whole documents, and a canonical encoder.
pub mod cell;
pub mod decode;
pub mod encode;
pub mod laws;
pub mod validate;
pub mod value;

pub use cell::{decode_list, Cell, MatchStack};
pub use decode::decode;
pub use validate::validate;
pub use encode::encode;
pub use value::{DecodeError, ErrorKind, Value, MAX_DEPTH};
