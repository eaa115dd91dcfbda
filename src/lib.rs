//! Signed, content-addressed archives: the on-disk format, its verification,
//! the builder that writes it and the transaction that applies it to a tree.
//!
//! An archive is a signed header, a table of fixed-size entries and a data
//! region. The header's Ed25519 signature covers its own fields, among them
//! the BLAKE3 digest of the entry table; each entry records the BLAKE3 digest
//! of its bytes in the data region.
pub mod builder;
pub mod bytes;
pub mod commands;
pub mod crypto;
pub mod entry;
pub mod error;
pub mod flags;
pub mod header;
pub mod keys;
pub mod laws;
pub mod mode;
pub mod order;
pub mod package;
pub mod path;
pub mod transaction;

pub use crate::builder::PackageBuilder;
pub use crate::commands::{extract, re_encrypt, remove};
pub use crate::entry::{Entry, ENTRY_SIZE};
pub use crate::error::Error;
pub use crate::flags::{Architecture, DataVersion, HeaderFlags, Packaging};
pub use crate::header::{Header, HEADER_SIZE};
pub use crate::keys::{PublicKey, SKey, SecretKey, SecretKeyFile};
pub use crate::mode::Mode;
pub use crate::package::PackageBuf;
pub use crate::transaction::{Action, Request, Transaction};
