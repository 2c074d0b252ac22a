//! A codec for a self-describing, tagged length/value binary format.
//!
//! The format holds null, booleans, integers and floating-point numbers of
//! fixed width, text, binary data, user-defined values, and three kinds of
//! container that can be nested: lists, maps with integer keys and objects
//! with text keys.
//!
//! Documents are written in place into a buffer of the caller that keeps its
//! size, and read back as views that borrow the input bytes. Nothing is
//! copied when reading.
//!
//! - [`Value`] is any value of the format; [`Value::deserialize`] decodes
//!   one.
//! - [`List`], [`IntMap`] and [`Object`] are the containers; `empty_mut`
//!   starts a document in a buffer, `add_value` appends to it.
//! - [`format`] says what the bytes of values and containers are, and
//!   [`laws`] what holds of writing and reading as a whole.

pub mod allocation;
pub mod append;
pub mod container;
pub mod data_type;
pub mod document;
pub mod endian;
pub mod error;
pub mod format;
pub mod laws;
pub mod lemmas;
pub mod raw_container;
pub mod size;
pub mod storage;
pub mod subtype;
pub mod utils;
pub mod value;

pub use allocation::Allocation;
pub use container::{IntMap, List, Object};
pub use storage::Storage;
pub use subtype::SubType;
pub use value::Value;
