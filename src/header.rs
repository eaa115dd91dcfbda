//! The signed header of an archive.
use vstd::bytes::*;
use vstd::prelude::*;

use crate::bytes::{bytes_eq, push_all, to_array};
use crate::crypto::{blake3_digest, blake3_of, ed25519_accepts, verify_detached};
use crate::entry::{entry_bytes, Entry, ENTRY_SIZE};
use crate::flags::HeaderFlags;
use crate::keys::PublicKey;
use crate::Error;

verus! {

/// Size in bytes of the packed header: 64 + 32 + 32 + 4 + 4.
pub const HEADER_SIZE: usize = 136;

/// Where the signed part of the header begins.
pub const SIGNED_START: usize = 64;

#[derive(Clone, Copy, Debug)]
pub struct Header {
    /// NaCl signature of header data
    pub signature: [u8; 64],
    /// NaCl public key used to generate signature
    pub public_key: [u8; 32],
    /// Blake3 sum of entry data
    pub blake3: [u8; 32],
    /// Count of Entry structs, which immediately follow
    pub count: u32,
    /// Data version, architecture and packaging
    pub flags: HeaderFlags,
}

/// The packed little-endian bytes of a header.
pub open spec fn header_bytes(h: Header) -> Seq<u8> {
    h.signature@ + h.public_key@ + h.blake3@ + spec_u32_to_le_bytes(h.count) + spec_u32_to_le_bytes(
        h.flags.0,
    )
}

/// Size of the entry table of `count` entries.
pub open spec fn table_size(count: u32) -> int {
    count * ENTRY_SIZE
}

/// The `i`-th packed record of a table.
pub open spec fn record(table: Seq<u8>, i: int) -> Seq<u8> {
    table.subrange(i * ENTRY_SIZE, i * ENTRY_SIZE + ENTRY_SIZE)
}

/// Entries, one for each record of `table`, in order.
pub open spec fn parses_to(table: Seq<u8>, entries: Seq<Entry>) -> bool {
    &&& table.len() == entries.len() * ENTRY_SIZE
    &&& forall|i: int| 0 <= i < entries.len() ==> #[trigger] entry_bytes(entries[i]) == record(table, i)
}

/// The concatenated records of `entries`.
pub open spec fn table_bytes(entries: Seq<Entry>) -> Seq<u8>
    decreases entries.len(),
{
    if entries.len() == 0 {
        seq![]
    } else {
        table_bytes(entries.drop_last()) + entry_bytes(entries.last())
    }
}

/// Why `Header::new` refuses `data` under `key`, if it does.
pub open spec fn header_refusal(data: Seq<u8>, key: Seq<u8>) -> Option<Error> {
    if data.len() < HEADER_SIZE {
        Some(Error::Truncated)
    } else if !ed25519_accepts(data.subrange(0, 64), data.subrange(64, 136), key) {
        Some(Error::InvalidSignature)
    } else if data.subrange(64, 96) != key {
        Some(Error::InvalidKey)
    } else {
        None
    }
}

/// Why `Header::entries` refuses `data`, if it does.
pub open spec fn table_refusal(h: Header, data: Seq<u8>) -> Option<Error> {
    if data.len() < table_size(h.count) {
        Some(Error::Truncated)
    } else if blake3_of(data.take(table_size(h.count))) != h.blake3@ {
        Some(Error::InvalidBlake3)
    } else {
        None
    }
}

pub proof fn lemma_entry_bytes_len(e: Entry)
    ensures
        entry_bytes(e).len() == ENTRY_SIZE,
{
    lemma_auto_spec_u32_to_from_le_bytes();
}

/// Packing entries and parsing the table gives them back.
pub proof fn lemma_table_bytes_parses(entries: Seq<Entry>)
    ensures
        parses_to(table_bytes(entries), entries),
        table_bytes(entries).len() == entries.len() * ENTRY_SIZE,
    decreases entries.len(),
{
    if entries.len() > 0 {
        let prev = entries.drop_last();
        lemma_table_bytes_parses(prev);
        lemma_entry_bytes_len(entries.last());
        assert(prev.len() * ENTRY_SIZE + ENTRY_SIZE == entries.len() * ENTRY_SIZE) by (nonlinear_arith)
            requires
                prev.len() + 1 == entries.len(),
        ;
        let t = table_bytes(entries);
        assert forall|i: int| 0 <= i < entries.len() implies #[trigger] entry_bytes(entries[i])
            == record(t, i) by {
            if i < prev.len() {
                assert(entry_bytes(prev[i]) == record(table_bytes(prev), i));
                assert(record(t, i) =~= record(table_bytes(prev), i));
            } else {
                assert(record(t, i) =~= entry_bytes(entries.last()));
            }
        }
    }
}

/// Parses a table of `n` packed records.
pub fn parse_table(table: &[u8], n: usize) -> (r: Vec<Entry>)
    requires
        table@.len() == n * ENTRY_SIZE,
    ensures
        parses_to(table@, r@),
{
    let mut out: Vec<Entry> = Vec::new();
    let mut i: usize = 0;
    let len = table.len();
    while i < n
        invariant
            table@.len() == n * ENTRY_SIZE,
            len == table@.len(),
            0 <= i <= n,
            out@.len() == i,
            forall|j: int| 0 <= j < i ==> #[trigger] entry_bytes(out@[j]) == record(table@, j),
        decreases n - i,
    {
        proof {
            assert(i * ENTRY_SIZE + ENTRY_SIZE <= n * ENTRY_SIZE) by (nonlinear_arith)
                requires
                    i < n,
            ;
        }
        let start = i * ENTRY_SIZE;
        let e = Entry::from_bytes(&table[start..start + ENTRY_SIZE]);
        out.push(e);
        i += 1;
    }
    out
}

/// Packs entries one after another.
pub fn pack_table(entries: &Vec<Entry>) -> (r: Vec<u8>)
    ensures
        r@ == table_bytes(entries@),
{
    let mut out: Vec<u8> = Vec::new();
    let mut i: usize = 0;
    while i < entries.len()
        invariant
            0 <= i <= entries@.len(),
            out@ == table_bytes(entries@.take(i as int)),
        decreases entries@.len() - i,
    {
        let b = entries[i].to_bytes();
        push_all(&mut out, b.as_slice());
        proof {
            assert(entries@.take(i + 1).drop_last() =~= entries@.take(i as int));
        }
        i += 1;
    }
    assert(entries@.take(entries@.len() as int) =~= entries@);
    out
}

impl Header {
    /// Parse header from raw header data and verify using public key
    pub fn new(data: &[u8], public_key: &PublicKey) -> (r: Result<Header, Error>)
        ensures
            header_refusal(data@, public_key.0@) matches Some(e) ==> (r matches Err(f) && f == e),
            header_refusal(data@, public_key.0@) is None ==> (r matches Ok(h) && header_bytes(h)
                == data@.take(HEADER_SIZE as int)),
    {
        if data.len() < HEADER_SIZE {
            return Err(Error::Truncated);
        }
        let sig: [u8; 64] = to_array(&data[0..64]);
        if !verify_detached(&sig, &data[64..136], &public_key.0) {
            return Err(Error::InvalidSignature);
        }
        if !bytes_eq(&data[64..96], &public_key.0) {
            return Err(Error::InvalidKey);
        }
        Self::parse(&data[0..HEADER_SIZE])
    }

    /// The header whose packed bytes are `data`.
    fn parse(data: &[u8]) -> (r: Result<Header, Error>)
        requires
            data@.len() == HEADER_SIZE,
        ensures
            r matches Ok(h) && header_bytes(h) == data@,
    {
        let signature: [u8; 64] = to_array(&data[0..64]);
        let public_key: [u8; 32] = to_array(&data[64..96]);
        let blake3: [u8; 32] = to_array(&data[96..128]);
        let count = u32_from_le_bytes(&data[128..132]);
        let flags = u32_from_le_bytes(&data[132..136]);
        let h = Header { signature, public_key, blake3, count, flags: HeaderFlags(flags) };
        proof {
            lemma_auto_spec_u32_to_from_le_bytes();
            assert(spec_u32_to_le_bytes(count) == data@.subrange(128, 132));
            assert(spec_u32_to_le_bytes(flags) == data@.subrange(132, 136));
            assert(header_bytes(h) =~= data@);
        }
        Ok(h)
    }

    /// Parse header from raw header data without verification
    pub fn new_unchecked(data: &[u8]) -> (r: Result<Header, Error>)
        ensures
            data@.len() < HEADER_SIZE ==> r matches Err(Error::Truncated),
            data@.len() >= HEADER_SIZE ==> (r matches Ok(h) && header_bytes(h) == data@.take(
                HEADER_SIZE as int,
            )),
    {
        if data.len() < HEADER_SIZE {
            return Err(Error::Truncated);
        }
        Self::parse(&data[0..HEADER_SIZE])
    }

    pub fn count(&self) -> (r: u32)
        ensures
            r == self.count,
    {
        self.count
    }

    /// Retrieve the size of the entries
    pub fn entries_size(&self) -> (r: Result<u64, Error>)
        ensures
            r matches Ok(n) && n == table_size(self.count),
    {
        Ok(self.count as u64 * ENTRY_SIZE as u64)
    }

    /// Retrieve the size of the Header and its entries
    pub fn total_size(&self) -> (r: Result<u64, Error>)
        ensures
            r matches Ok(n) && n == table_size(self.count) + HEADER_SIZE,
    {
        Ok(self.count as u64 * ENTRY_SIZE as u64 + HEADER_SIZE as u64)
    }

    /// The packed bytes of this header.
    pub fn to_bytes(&self) -> (r: Vec<u8>)
        ensures
            r@ == header_bytes(*self),
            r@.len() == HEADER_SIZE,
    {
        let mut out = crate::bytes::to_vec(&self.signature);
        push_all(&mut out, &self.public_key);
        push_all(&mut out, &self.blake3);
        let c = u32_to_le_bytes(self.count);
        push_all(&mut out, c.as_slice());
        let f = u32_to_le_bytes(self.flags.0);
        push_all(&mut out, f.as_slice());
        proof {
            lemma_auto_spec_u32_to_from_le_bytes();
        }
        out
    }

    /// Parse entries from raw entries data and verify using blake3
    pub fn entries(&self, data: &[u8]) -> (r: Result<Vec<Entry>, Error>)
        ensures
            table_refusal(*self, data@) matches Some(e) ==> (r matches Err(f) && f == e),
            table_refusal(*self, data@) is None ==> (r matches Ok(v) && v@.len() == self.count
                && parses_to(data@.take(table_size(self.count)), v@)),
    {
        let size = self.count as u64 * ENTRY_SIZE as u64;
        if (data.len() as u64) < size {
            return Err(Error::Truncated);
        }
        let n = size as usize;
        let table = &data[0..n];
        let hash = blake3_digest(table);
        if !bytes_eq(&hash, &self.blake3) {
            return Err(Error::InvalidBlake3);
        }
        Ok(parse_table(table, self.count as usize))
    }

    /// Parse entries from raw entries data without verification
    pub fn entries_unchecked(data: &[u8]) -> (r: Result<Vec<Entry>, Error>)
        ensures
            data@.len() % (ENTRY_SIZE as nat) != 0 ==> r matches Err(Error::Truncated),
            data@.len() % (ENTRY_SIZE as nat) == 0 ==> (r matches Ok(v) && parses_to(data@, v@)),
    {
        if data.len() % ENTRY_SIZE != 0 {
            return Err(Error::Truncated);
        }
        let n = data.len() / ENTRY_SIZE;
        assert(data@.len() == n * ENTRY_SIZE);
        Ok(parse_table(data, n))
    }
}

} // verus!

verus! {

/// The entry count as the packed header bytes hold it.
pub open spec fn count_field(data: Seq<u8>) -> u32 {
    spec_u32_from_le_bytes(data.subrange(128, 132))
}

/// The flag word as the packed header bytes hold it.
pub open spec fn flags_field(data: Seq<u8>) -> u32 {
    spec_u32_from_le_bytes(data.subrange(132, 136))
}

/// The fields of a header, read off its packed bytes.
pub proof fn lemma_header_fields(h: Header, data: Seq<u8>)
    requires
        data.len() >= HEADER_SIZE,
        header_bytes(h) == data.take(HEADER_SIZE as int),
    ensures
        h.count == count_field(data),
        h.flags.0 == flags_field(data),
        h.signature@ == data.subrange(0, 64),
        h.public_key@ == data.subrange(64, 96),
        h.blake3@ == data.subrange(96, 128),
{
    lemma_auto_spec_u32_to_from_le_bytes();
    let b = header_bytes(h);
    assert(h.signature@ =~= b.subrange(0, 64));
    assert(h.public_key@ =~= b.subrange(64, 96));
    assert(h.blake3@ =~= b.subrange(96, 128));
    assert(spec_u32_to_le_bytes(h.count) =~= b.subrange(128, 132));
    assert(spec_u32_to_le_bytes(h.flags.0) =~= b.subrange(132, 136));
    assert(b.subrange(128, 132) =~= data.subrange(128, 132));
    assert(b.subrange(132, 136) =~= data.subrange(132, 136));
    assert(b.subrange(0, 64) =~= data.subrange(0, 64));
    assert(b.subrange(64, 96) =~= data.subrange(64, 96));
    assert(b.subrange(96, 128) =~= data.subrange(96, 128));
}

} // verus!
