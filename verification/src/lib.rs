//! A MessagePack codec over a canonical value tree.
//!
//! Data flows from a native value through a [`value::Value`] to wire bytes
//! and back: [`transvalue`] projects native values into the tree and
//! rebuilds them from it, [`encode`] writes the tree in the smallest wire
//! formats, [`decode`] reads it back.
//!
//! What each function computes is stated over mathematical models: a
//! buffer is a sequence of bytes, a value is a [`value::Doc`]. The module
//! [`round_trip`] proves that decoding inverts encoding.
//!
//! Three choices shape the value tree:
//! - an object keeps its members in a vector, in the order in which they
//!   came; no key occurs twice in a well-formed value, and equality does
//!   not depend on the order;
//! - a number is kept as text: the canonical decimal text of an integer
//!   ([`numeral`]), or the hexadecimal literal of a double ([`ieee`]);
//! - a blob, an extension item and a timestamp have no variant of their
//!   own: they are decoded into the array or object that stands for them
//!   ([`binary`], [`ext`], [`time`]).

pub mod binary;
pub mod bytes;
pub mod codes;
pub mod decode;
pub mod encode;
pub mod error;
pub mod ext;
pub mod ieee;
pub mod numeral;
pub mod render;
pub mod round_trip;
pub mod time;
pub mod transvalue;
pub mod value;
