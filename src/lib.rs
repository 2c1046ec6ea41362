//! Codec for PMAN archives: a 64-byte header, a table of file entries and a
//! region of file payloads, some of which are zlib-compressed members.

pub mod error;
pub mod format;

pub use error::{ContractError, Error, FormatError, InvalidFormatError};
pub use format::pman::{PmanFile, PmanFileData};
