use vstd::prelude::*;

verus! {

/// Every way in which reading, building or applying an archive can fail.
#[derive(Debug)]
pub enum Error {
    /// The buffer ended before a required header, entry table or data slice.
    Truncated,
    /// The header's Ed25519 signature does not verify.
    InvalidSignature,
    /// The header names another public key than the one expected.
    InvalidKey,
    /// A BLAKE3 digest differs from the one recorded.
    InvalidBlake3,
    /// The kind bits of a mode are neither a regular file nor a symlink.
    InvalidMode(u32),
    /// A path holds `.`, `..`, an absolute root or an empty segment.
    InvalidPathComponent { path: Vec<u8> },
    /// A relative path of 256 bytes or more.
    PathTooLong { path: Vec<u8> },
    /// The bytes streamed differ in number from the bytes declared.
    LengthMismatch { actual: u64, expected: u64 },
    /// 64-bit arithmetic on offsets or sizes overflowed.
    Overflow,
    /// The header asks for a packaging this library cannot read.
    NotSupported,
    /// A file system operation failed.
    Io { path: Vec<u8>, message: String },
    /// An action of a transaction failed; `changed` actions had taken effect
    /// and `remaining` are still pending, the failed one included.
    FailedCommit { source: Box<Error>, changed: usize, remaining: usize },
    /// The passphrase does not open the secret key.
    PassphraseIncorrect,
    /// Two entries of a new passphrase differ.
    PassphraseMismatch,
    /// The secret key has the wrong length or shape.
    KeyInvalid,
}

} // verus!
