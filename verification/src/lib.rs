//! JSON value extractor that picks queried values straight out of a record's
//! byte buffer, guided by compressed structural bitmaps, without tokenizing.
pub mod bit;
pub mod emulated;
pub mod error;
pub mod index_builder;
pub mod parser;
pub mod pikkr;
pub mod query;
pub mod utf8;

pub use error::Error;
pub use error::ErrorKind;
pub use pikkr::Pikkr;
