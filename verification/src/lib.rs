//! A verified fixed-size bitmap container: a set of `u16` values kept as 1024 words of 64 bits.
pub mod array_store;
pub mod error;
pub mod interval;
pub mod iter;
pub mod laws;
pub mod model;
pub mod store;
pub mod word;

pub use array_store::{ArrayStore, ARRAY_LIMIT};
pub use error::{Error, ErrorKind};
pub use interval::Interval;
pub use iter::BitmapIter;
pub use model::{BITMAP_BYTES, BITMAP_LENGTH};
pub use store::BitmapStore;
pub use word::{bit, key};
