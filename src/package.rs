//! An archive held in memory: its verified head and its data region.
use vstd::prelude::*;

use crate::crypto::blake3_of;
use crate::entry::{path_of, Entry, ENTRY_SIZE};
use crate::flags::{byte_at, Packaging};
use crate::header::{
    count_field, flags_field, header_refusal, lemma_header_fields, parses_to, table_size, Header,
    HEADER_SIZE,
};
use crate::keys::PublicKey;
use crate::Error;

verus! {

/// Why a head segment (header then entry table) is refused under `key`, in
/// the order the checks are made.
pub open spec fn head_refusal(src: Seq<u8>, key: Seq<u8>) -> Option<Error> {
    if header_refusal(src, key) is Some {
        header_refusal(src, key)
    } else if byte_at(flags_field(src), 16) != 0 {
        Some(Error::NotSupported)
    } else if src.len() - HEADER_SIZE < table_size(count_field(src)) {
        Some(Error::Truncated)
    } else if blake3_of(src.subrange(HEADER_SIZE as int, HEADER_SIZE + table_size(count_field(src))))
        != src.subrange(96, 128) {
        Some(Error::InvalidBlake3)
    } else {
        None
    }
}

/// Size of the head segment that `src` announces.
pub open spec fn head_size(src: Seq<u8>) -> int {
    HEADER_SIZE + table_size(count_field(src))
}

/// Whether `entry`'s bytes lie within `region`.
pub open spec fn entry_in_region(region: Seq<u8>, entry: Entry) -> bool {
    entry.offset() + entry.size() <= region.len()
}

/// The bytes of `entry` within `region`.
pub open spec fn entry_slice(region: Seq<u8>, entry: Entry) -> Seq<u8> {
    region.subrange(entry.offset() as int, entry.offset() + entry.size())
}

/// A package based on a byte buffer
///
/// Constructing variants of this type that include header data verifies
/// the signature of the header, hashes the entries' metadata, and checks that
/// hash against the hash stored in the header.
pub struct PackageBuf {
    src: Vec<u8>,
    header: Option<Header>,
    entries: Vec<Entry>,
}

impl PackageBuf {
    /// The whole buffer.
    pub closed spec fn bytes(&self) -> Seq<u8> {
        self.src@
    }

    /// The verified header, for a buffer that holds the head segment.
    pub closed spec fn head(&self) -> Option<Header> {
        self.header
    }

    /// The verified entries, in table order.
    pub closed spec fn entry_list(&self) -> Seq<Entry> {
        self.entries@
    }

    /// Where the data region starts within the buffer.
    pub closed spec fn data_start(&self) -> int {
        match self.header {
            Some(h) => HEADER_SIZE + table_size(h.count),
            None => 0,
        }
    }

    /// The data region: the bytes after the head segment, if there is one.
    pub open spec fn data_region(&self) -> Seq<u8> {
        self.bytes().subrange(self.data_start(), self.bytes().len() as int)
    }

    pub closed spec fn wf(&self) -> bool {
        0 <= self.data_start() <= self.src@.len()
    }

    fn with_head(src: Vec<u8>, pkey: &PublicKey) -> (r: Result<PackageBuf, Error>)
        ensures
            head_refusal(src@, pkey.0@) matches Some(e) ==> (r matches Err(f) && f == e),
            head_refusal(src@, pkey.0@) is None ==> (r matches Ok(p) && p.wf() && p.bytes() == src@
                && p.head() is Some && p.data_start() == head_size(src@)
                && p.head()->0.count == count_field(src@)
                && p.entry_list().len() == count_field(src@)
                && parses_to(src@.subrange(HEADER_SIZE as int, head_size(src@)), p.entry_list())),
    {
        let header = match Header::new(src.as_slice(), pkey) {
            Ok(h) => h,
            Err(e) => return Err(e),
        };
        proof {
            lemma_header_fields(header, src@);
        }
        match header.flags.packaging() {
            Packaging::Uncompressed => {},
            _ => return Err(Error::NotSupported),
        }
        let rest = &src.as_slice()[HEADER_SIZE..src.len()];
        proof {
            if rest@.len() >= table_size(header.count) {
                assert(rest@.take(table_size(header.count)) =~= src@.subrange(
                    HEADER_SIZE as int,
                    head_size(src@),
                ));
            }
        }
        let entries = match header.entries(rest) {
            Ok(v) => v,
            Err(e) => return Err(e),
        };
        Ok(PackageBuf { src, header: Some(header), entries })
    }

    /// Construct a `PackageBuf` from a full archive: header, entry table and
    /// data region.
    pub fn new(src: Vec<u8>, pkey: &PublicKey) -> (r: Result<PackageBuf, Error>)
        ensures
            head_refusal(src@, pkey.0@) matches Some(e) ==> (r matches Err(f) && f == e),
            head_refusal(src@, pkey.0@) is None ==> (r matches Ok(p) && p.wf() && p.bytes() == src@
                && p.head() is Some && p.data_start() == head_size(src@)
                && p.head()->0.count == count_field(src@)
                && p.entry_list().len() == count_field(src@)
                && parses_to(src@.subrange(HEADER_SIZE as int, head_size(src@)), p.entry_list())),
    {
        Self::with_head(src, pkey)
    }

    /// Construct a `PackageBuf` from the head segment of an archive.
    pub fn from_head(src: Vec<u8>, pkey: &PublicKey) -> (r: Result<PackageBuf, Error>)
        ensures
            head_refusal(src@, pkey.0@) matches Some(e) ==> (r matches Err(f) && f == e),
            head_refusal(src@, pkey.0@) is None ==> (r matches Ok(p) && p.wf() && p.bytes() == src@
                && p.head() is Some && p.data_start() == head_size(src@)
                && p.head()->0.count == count_field(src@)
                && p.entry_list().len() == count_field(src@)
                && parses_to(src@.subrange(HEADER_SIZE as int, head_size(src@)), p.entry_list())),
    {
        Self::with_head(src, pkey)
    }

    /// Construct a `PackageBuf` from the data segment of an archive.
    pub fn from_data(src: Vec<u8>) -> (r: PackageBuf)
        ensures
            r.wf(),
            r.bytes() == src@,
            r.head() is None,
            r.entry_list().len() == 0,
            r.data_start() == 0,
    {
        PackageBuf { src, header: None, entries: Vec::new() }
    }

    /// The verified header.
    pub fn header(&self) -> (r: Header)
        requires
            self.head() is Some,
        ensures
            r == self.head()->0,
    {
        match self.header {
            Some(h) => h,
            None => self.header.unwrap(),
        }
    }

    /// The verified entries, in table order.
    pub fn entries(&self) -> (r: &Vec<Entry>)
        ensures
            r@ == self.entry_list(),
    {
        &self.entries
    }

    /// Fills `buf` from `offset` within the data region; returns how many
    /// bytes were copied, 0 at or past its end.
    pub fn read_at(&self, offset: u64, buf: &mut [u8]) -> (r: Result<usize, Error>)
        requires
            self.wf(),
        ensures
            offset >= self.data_region().len() ==> (r == Ok::<usize, Error>(0) && final(buf)@ == old(
                buf,
            )@),
            offset < self.data_region().len() ==> (r matches Ok(n) && n == vstd::math::min(
                old(buf)@.len() as int,
                self.data_region().len() - offset,
            ) && final(buf)@ == self.data_region().subrange(offset as int, offset + n) + old(
                buf,
            )@.skip(n as int)),
    {
        let n = buf.len();
        self.fill(offset, buf, n)
    }

    /// Copies at most `limit` bytes of the data region from `offset` into the
    /// front of `buf`.
    fn fill(&self, offset: u64, buf: &mut [u8], limit: usize) -> (r: Result<usize, Error>)
        requires
            self.wf(),
            limit <= old(buf)@.len(),
        ensures
            final(buf)@.len() == old(buf)@.len(),
            offset >= self.data_region().len() ==> (r == Ok::<usize, Error>(0) && final(buf)@ == old(
                buf,
            )@),
            offset < self.data_region().len() ==> (r matches Ok(n) && n == vstd::math::min(
                limit as int,
                self.data_region().len() - offset,
            ) && final(buf)@ == self.data_region().subrange(offset as int, offset + n) + old(
                buf,
            )@.skip(n as int)),
    {
        let len = self.src.len();
        let start = match self.header {
            Some(h) => h.count as usize * ENTRY_SIZE + HEADER_SIZE,
            None => 0,
        };
        let region_len = len - start;
        if offset >= region_len as u64 {
            return Ok(0);
        }
        let from = start + offset as usize;
        let n = if limit < region_len - offset as usize {
            limit
        } else {
            region_len - offset as usize
        };
        let ghost old_buf = buf@;
        let mut i: usize = 0;
        while i < n
            invariant
                0 <= i <= n,
                n <= limit <= buf@.len(),
                buf@.len() == old_buf.len(),
                from + n <= len == self.src@.len(),
                forall|j: int| 0 <= j < i ==> buf@[j] == self.src@[from + j],
                forall|j: int| n <= j < buf@.len() ==> buf@[j] == old_buf[j],
            decreases n - i,
        {
            buf[i] = self.src[from + i];
            i += 1;
        }
        assert(buf@ =~= self.data_region().subrange(offset as int, offset + n) + old_buf.skip(
            n as int,
        ));
        Ok(n)
    }

    /// Fill `buf` from a given entry's data + `offset` within that entry.
    pub fn read_entry(&self, entry: &Entry, offset: usize, buf: &mut [u8]) -> (r: Result<
        usize,
        Error,
    >)
        requires
            self.wf(),
        ensures
            offset > entry.size() ==> (r == Ok::<usize, Error>(0) && final(buf)@ == old(buf)@),
            offset <= entry.size() && entry.offset() + offset > u64::MAX ==> r matches Err(
                Error::Overflow,
            ),
            offset <= entry.size() && entry.offset() + offset <= u64::MAX ==> (r matches Ok(n) && (
            entry.offset() + offset >= self.data_region().len() ==> n == 0 && final(buf)@ == old(
                buf,
            )@) && (entry.offset() + offset < self.data_region().len() ==> n == vstd::math::min(
                vstd::math::min(old(buf)@.len() as int, entry.size() - offset),
                self.data_region().len() - (entry.offset() + offset),
            ) && final(buf)@ == self.data_region().subrange(
                entry.offset() + offset,
                entry.offset() + offset + n,
            ) + old(buf)@.skip(n as int))),
    {
        if offset as u64 > entry.size() {
            return Ok(0);
        }
        let rest = entry.size() - offset as u64;
        let limit = if (buf.len() as u64) < rest {
            buf.len()
        } else {
            rest as usize
        };
        let pos = match entry.offset().checked_add(offset as u64) {
            Some(p) => p,
            None => return Err(Error::Overflow),
        };
        self.fill(pos, buf, limit)
    }

    /// All bytes of `entry`, if they lie within the data region.
    pub fn entry_data(&self, entry: &Entry) -> (r: Result<Vec<u8>, Error>)
        requires
            self.wf(),
        ensures
            entry_in_region(self.data_region(), *entry) ==> (r matches Ok(v) && v@ == entry_slice(
                self.data_region(),
                *entry,
            )),
            !entry_in_region(self.data_region(), *entry) ==> r matches Err(Error::Truncated),
    {
        let len = self.src.len();
        let start = match self.header {
            Some(h) => h.count as usize * ENTRY_SIZE + HEADER_SIZE,
            None => 0,
        };
        let region_len = len - start;
        if entry.offset() > region_len as u64 || entry.size() > region_len as u64 - entry.offset() {
            return Err(Error::Truncated);
        }
        let from = start + entry.offset() as usize;
        let to = from + entry.size() as usize;
        let out = crate::bytes::to_vec(&self.src.as_slice()[from..to]);
        assert(out@ =~= entry_slice(self.data_region(), *entry));
        Ok(out)
    }
}

impl PackageBuf {
    /// The path of every entry, in table order, if each is strictly relative
    /// with normal segments.
    pub fn paths(&self) -> (r: Result<Vec<Vec<u8>>, Error>)
        ensures
            r is Ok <==> forall|i: int|
                0 <= i < self.entry_list().len() ==> crate::path::path_is_normal(
                    path_of(#[trigger] self.entry_list()[i].path@),
                ),
            r matches Ok(v) ==> v@.len() == self.entry_list().len() && forall|i: int|
                0 <= i < v@.len() ==> (#[trigger] v@[i])@ == path_of(self.entry_list()[i].path@),
            r matches Err(e) ==> e is InvalidPathComponent,
    {
        let mut out: Vec<Vec<u8>> = Vec::new();
        let mut i: usize = 0;
        while i < self.entries.len()
            invariant
                0 <= i <= self.entries@.len(),
                out@.len() == i,
                forall|j: int|
                    0 <= j < i ==> crate::path::path_is_normal(path_of(#[trigger] self.entries@[j].path@)),
                forall|j: int| 0 <= j < i ==> (#[trigger] out@[j])@ == path_of(self.entries@[j].path@),
            decreases self.entries@.len() - i,
        {
            match self.entries[i].check_path() {
                Ok(p) => out.push(crate::bytes::to_vec(p)),
                Err(e) => {
                    assert(!crate::path::path_is_normal(path_of(self.entry_list()[i as int].path@)));
                    return Err(e);
                },
            }
            i += 1;
        }
        Ok(out)
    }

    /// The head segment (header and entry table) and the data segment, as
    /// two buffers that, put back together, are the archive again.
    pub fn split(&self) -> (r: (Vec<u8>, Vec<u8>))
        requires
            self.wf(),
        ensures
            r.0@ == self.bytes().take(self.data_start()),
            r.1@ == self.data_region(),
            r.0@ + r.1@ == self.bytes(),
    {
        let len = self.src.len();
        let start = match self.header {
            Some(h) => h.count as usize * ENTRY_SIZE + HEADER_SIZE,
            None => 0,
        };
        let head = crate::bytes::to_vec(&self.src.as_slice()[0..start]);
        let data = crate::bytes::to_vec(&self.src.as_slice()[start..len]);
        assert(head@ + data@ =~= self.src@);
        (head, data)
    }
}

} // verus!
