//! Decoding of BHD archive headers and decrypting, seekable reads of the
//! entries they describe.

pub mod bhd;
pub mod reader;
pub mod rsa_blocks;
pub mod vfs;
pub mod write;

pub use reader::{VfsEntryPartKind, VfsEntryReader};
pub use bhd::{Bhd, BhdError, BhdHeader, BhdTocEntry};
pub use vfs::{Vfs, VfsError, VfsFileEntry};
pub use write::{Reservation, Reserved, WriteError};
