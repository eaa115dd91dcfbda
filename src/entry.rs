//! One record of the entry table, as it stands on disk.
use vstd::bytes::*;
use vstd::prelude::*;

use crate::bytes::{push_all, to_array, zeros};
use crate::mode::Mode;
use crate::Error;

verus! {

/// Size in bytes of one packed entry: 32 + 8 + 8 + 4 + 256.
pub const ENTRY_SIZE: usize = 308;

/// Room for a path, its terminating NUL included.
pub const PATH_CAPACITY: usize = 256;

#[derive(Clone, Copy, Debug)]
pub struct Entry {
    /// Blake3 sum of the file data
    pub blake3: [u8; 32],
    /// Offset of file data in the data portion, little-endian
    pub offset: [u8; 8],
    /// Size in bytes of the file data in the data portion, little-endian
    pub size: [u8; 8],
    /// Unix permissions (user, group, other with read, write, execute)
    pub mode: u32,
    /// NUL-terminated relative path from extract directory
    pub path: [u8; 256],
}

/// The packed little-endian bytes of an entry.
pub open spec fn entry_bytes(e: Entry) -> Seq<u8> {
    e.blake3@ + e.offset@ + e.size@ + spec_u32_to_le_bytes(e.mode) + e.path@
}

/// Index of the first NUL of `p` at or after `i`, or `p.len()`.
pub open spec fn nul_from(p: Seq<u8>, i: int) -> int
    decreases p.len() - i,
{
    if i >= p.len() || p[i] == 0 {
        i
    } else {
        nul_from(p, i + 1)
    }
}

/// The stored path: the bytes before the first NUL.
pub open spec fn path_of(p: Seq<u8>) -> Seq<u8> {
    p.take(nul_from(p, 0))
}

/// A path padded with NULs to the full field.
pub open spec fn padded_path(path: Seq<u8>) -> Seq<u8> {
    path + zeros((PATH_CAPACITY - path.len()) as nat)
}

proof fn lemma_nul_from_bounds(p: Seq<u8>, i: int)
    requires
        0 <= i <= p.len(),
    ensures
        i <= nul_from(p, i) <= p.len(),
        nul_from(p, i) < p.len() ==> p[nul_from(p, i)] == 0,
        forall|j: int| i <= j < nul_from(p, i) ==> p[j] != 0,
    decreases p.len() - i,
{
    if i < p.len() && p[i] != 0 {
        lemma_nul_from_bounds(p, i + 1);
    }
}

proof fn lemma_nul_from_stops(p: Seq<u8>, i: int, k: int)
    requires
        0 <= i <= k <= p.len(),
        forall|j: int| i <= j < k ==> p[j] != 0,
        k == p.len() || p[k] == 0,
    ensures
        nul_from(p, i) == k,
    decreases k - i,
{
    if i < k {
        lemma_nul_from_stops(p, i + 1, k);
    }
}

/// A path without NUL that fits the field is read back whole.
pub proof fn lemma_padded_path_round_trip(path: Seq<u8>)
    requires
        path.len() < PATH_CAPACITY,
        forall|j: int| 0 <= j < path.len() ==> path[j] != 0,
    ensures
        path_of(padded_path(path)) == path,
        padded_path(path).len() == PATH_CAPACITY,
{
    let p = padded_path(path);
    lemma_nul_from_stops(p, 0, path.len() as int);
    assert(p.take(path.len() as int) =~= path);
}

/// The byte encoding of entries is one to one.
pub proof fn lemma_entry_bytes_injective(a: Entry, b: Entry)
    requires
        entry_bytes(a) == entry_bytes(b),
    ensures
        a == b,
{
    lemma_auto_spec_u64_to_from_le_bytes();
    lemma_auto_spec_u32_to_from_le_bytes();
    let x = entry_bytes(a);
    let y = entry_bytes(b);
    assert(a.blake3@ =~= x.subrange(0, 32));
    assert(b.blake3@ =~= y.subrange(0, 32));
    assert(a.offset@ =~= x.subrange(32, 40));
    assert(b.offset@ =~= y.subrange(32, 40));
    assert(a.size@ =~= x.subrange(40, 48));
    assert(b.size@ =~= y.subrange(40, 48));
    assert(spec_u32_to_le_bytes(a.mode) =~= x.subrange(48, 52));
    assert(spec_u32_to_le_bytes(b.mode) =~= y.subrange(48, 52));
    assert(a.path@ =~= x.subrange(52, 308));
    assert(b.path@ =~= y.subrange(52, 308));
    assert(a.blake3 == b.blake3);
    assert(a.offset == b.offset);
    assert(a.size == b.size);
    assert(a.path == b.path);
}

impl Entry {
    pub fn blake3(&self) -> (r: [u8; 32])
        ensures
            r == self.blake3,
    {
        self.blake3
    }

    pub open spec fn spec_offset(&self) -> u64 {
        spec_u64_from_le_bytes(self.offset@)
    }

    pub open spec fn spec_size(&self) -> u64 {
        spec_u64_from_le_bytes(self.size@)
    }

    /// Offset of the entry's bytes in the data region.
    #[verifier::when_used_as_spec(spec_offset)]
    pub fn offset(&self) -> (r: u64)
        ensures
            r == self.spec_offset(),
    {
        u64_from_le_bytes(&self.offset)
    }

    /// Number of the entry's bytes in the data region.
    #[verifier::when_used_as_spec(spec_size)]
    pub fn size(&self) -> (r: u64)
        ensures
            r == self.spec_size(),
    {
        u64_from_le_bytes(&self.size)
    }

    /// The mode, if it holds only permission and kind bits.
    pub fn mode(&self) -> (r: Result<Mode, Error>)
        ensures
            Mode::known_bits(self.mode) ==> (r matches Ok(m) && m.bits() == self.mode),
            !Mode::known_bits(self.mode) ==> (r matches Err(Error::InvalidMode(m)) && m == self.mode),
    {
        match Mode::from_bits(self.mode) {
            Some(m) => Ok(m),
            None => Err(Error::InvalidMode(self.mode)),
        }
    }

    /// Retrieve the path, ending at the first NUL
    pub fn path_bytes(&self) -> (r: &[u8])
        ensures
            r@ == path_of(self.path@),
    {
        let p = vstd::array::array_as_slice(&self.path);
        let mut i: usize = 0;
        proof {
            lemma_nul_from_bounds(p@, 0);
        }
        while i < p.len() && p[i] != 0
            invariant
                0 <= i <= nul_from(p@, 0),
                p@ == self.path@,
                p@.len() == 256,
                nul_from(p@, i as int) == nul_from(p@, 0),
                nul_from(p@, 0) <= p@.len(),
            decreases p@.len() - i,
        {
            proof {
                lemma_nul_from_bounds(p@, i as int + 1);
            }
            i += 1;
        }
        &p[0..i]
    }

    /// The path, ending at the first NUL; the same as `path_bytes`.
    pub fn path(&self) -> (r: &[u8])
        ensures
            r@ == path_of(self.path@),
    {
        self.path_bytes()
    }

    /// The stored path, if it is strictly relative with normal segments.
    pub fn check_path(&self) -> (r: Result<&[u8], Error>)
        ensures
            r is Ok <==> crate::path::path_is_normal(path_of(self.path@)),
            r matches Ok(p) ==> p@ == path_of(self.path@),
            r matches Err(e) ==> e matches Error::InvalidPathComponent { .. },
    {
        let p = self.path_bytes();
        match crate::path::check_path(p) {
            Ok(()) => Ok(p),
            Err(e) => Err(e),
        }
    }

    /// An entry for `path`, which must leave room for its NUL.
    pub fn new(blake3: [u8; 32], offset: u64, size: u64, mode: Mode, path: &[u8]) -> (r: Result<
        Entry,
        Error,
    >)
        ensures
            path@.len() < PATH_CAPACITY <==> r is Ok,
            r matches Ok(e) ==> (e.blake3 == blake3 && e.offset() == offset && e.size() == size
                && e.mode == mode.bits() && e.path@ == padded_path(path@)),
            r matches Err(e) ==> (e matches Error::PathTooLong { path: p } && p@ == path@),
    {
        if path.len() >= PATH_CAPACITY {
            return Err(Error::PathTooLong { path: crate::bytes::to_vec(path) });
        }
        let mut buf = [0u8; 256];
        let mut i: usize = 0;
        while i < path.len()
            invariant
                path@.len() < 256,
                0 <= i <= path@.len(),
                buf@.len() == 256,
                forall|j: int| 0 <= j < i ==> buf@[j] == path@[j],
                forall|j: int| path@.len() <= j < 256 ==> buf@[j] == 0,
            decreases path@.len() - i,
        {
            buf[i] = path[i];
            i += 1;
        }
        assert(buf@ =~= padded_path(path@));
        let o = u64_to_le_bytes(offset);
        let z = u64_to_le_bytes(size);
        proof {
            lemma_auto_spec_u64_to_from_le_bytes();
        }
        let e = Entry {
            blake3,
            offset: to_array(o.as_slice()),
            size: to_array(z.as_slice()),
            mode: mode.bits(),
            path: buf,
        };
        Ok(e)
    }

    /// Compares a digest and a length, taken from streamed bytes, with this
    /// entry's.
    pub fn verify(&self, blake3: &[u8; 32], size: u64) -> (r: Result<(), Error>)
        ensures
            size != self.size() ==> (r matches Err(Error::LengthMismatch { actual, expected })
                && actual == size && expected == self.size()),
            size == self.size() && blake3@ != self.blake3@ ==> r matches Err(Error::InvalidBlake3),
            size == self.size() && blake3@ == self.blake3@ ==> r is Ok,
    {
        let own = self.size();
        if size != own {
            Err(Error::LengthMismatch { actual: size, expected: own })
        } else if !crate::bytes::bytes_eq(blake3, &self.blake3) {
            Err(Error::InvalidBlake3)
        } else {
            Ok(())
        }
    }

    /// The packed little-endian bytes of this entry.
    pub fn to_bytes(&self) -> (r: Vec<u8>)
        ensures
            r@ == entry_bytes(*self),
            r@.len() == ENTRY_SIZE,
    {
        let mut out = crate::bytes::to_vec(&self.blake3);
        push_all(&mut out, &self.offset);
        push_all(&mut out, &self.size);
        let m = u32_to_le_bytes(self.mode);
        push_all(&mut out, m.as_slice());
        push_all(&mut out, &self.path);
        proof {
            lemma_auto_spec_u64_to_from_le_bytes();
            lemma_auto_spec_u32_to_from_le_bytes();
        }
        out
    }

    /// The entry whose packed bytes are `b`.
    pub fn from_bytes(b: &[u8]) -> (r: Entry)
        requires
            b@.len() == ENTRY_SIZE,
        ensures
            entry_bytes(r) == b@,
    {
        let blake3: [u8; 32] = to_array(&b[0..32]);
        let offset: [u8; 8] = to_array(&b[32..40]);
        let size: [u8; 8] = to_array(&b[40..48]);
        let mode = u32_from_le_bytes(&b[48..52]);
        let path: [u8; 256] = to_array(&b[52..308]);
        let r = Entry { blake3, offset, size, mode, path };
        proof {
            lemma_auto_spec_u64_to_from_le_bytes();
            lemma_auto_spec_u32_to_from_le_bytes();
            assert(spec_u32_to_le_bytes(mode) == b@.subrange(48, 52));
            assert(entry_bytes(r) =~= b@);
        }
        r
    }
}

} // verus!
