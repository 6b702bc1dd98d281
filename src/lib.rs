//! An append-only, checksummed log of byte entries with lagging secondary
//! indexes and streaming folds, modelled and verified with Verus.
pub mod bytes;
pub mod checksum;
pub mod dir;
pub mod entry;
pub mod error;
pub mod fold;
pub mod index;
pub mod laws;
pub mod log;
pub mod open_options;
pub mod records;

pub use checksum::ChecksumType;
pub use dir::LogDir;
pub use error::Error;
pub use fold::{FoldDef, FoldFunc};
pub use log::Log;
pub use open_options::{
    FlushFilter, FlushFilterContext, FlushFilterOutput, IndexDef, IndexFunc, IndexOutput, OpenOptions,
};
