//! Structural engine of the MSBT message-table container: section framing,
//! the label hash table, the text token codec and the size/offset
//! recomputation that keeps them consistent.

pub mod builder;
pub mod endian;
pub mod error;
pub mod header;
pub mod msbt;
pub mod section;
pub mod sums;

pub use crate::builder::MsbtBuilder;
pub use crate::endian::Endianness;
pub use crate::error::MsbtError;
pub use crate::header::{Encoding, Header, HEADER_MAGIC};
pub use crate::msbt::{Msbt, SectionTag};
