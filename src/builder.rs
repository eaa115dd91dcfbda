//! Builds a signed archive from files and symlinks held in memory.
use vstd::bytes::*;
use vstd::prelude::*;

use crate::bytes::push_all;
use crate::crypto::{blake3_digest, blake3_of, ed25519_signature, sign_detached};
use crate::entry::{padded_path, Entry};
use crate::flags::HeaderFlags;
use crate::header::{pack_table, table_bytes, Header};
use crate::keys::SecretKey;
use crate::mode::{Mode, FILE_BITS, PERM_BITS, SYMLINK_BITS};
use crate::order::{keys_view, sorted_indices, sorted_order};
use crate::path::{check_path, path_is_normal};
use crate::Error;

verus! {

/// What an entry of the builder holds.
pub enum BuilderEntryKind {
    /// Contents of a regular file, with the length its source declared, if any.
    File { data: Vec<u8>, declared: Option<u64> },
    /// Link contents
    Symlink(Vec<u8>),
}

/// One file or symlink waiting to be written.
pub struct BuilderEntry {
    /// Target path for archive entry
    pub target: Vec<u8>,
    pub mode: Mode,
    pub kind: BuilderEntryKind,
}

/// The bytes that an entry stores in the data region.
pub open spec fn item_data(e: BuilderEntry) -> Seq<u8> {
    match e.kind {
        BuilderEntryKind::File { data, .. } => data@,
        BuilderEntryKind::Symlink(link) => link@,
    }
}

/// Whether the declared length, if any, differs from the data held.
pub open spec fn length_mismatch(e: BuilderEntry) -> bool {
    match e.kind {
        BuilderEntryKind::File { data, declared } => declared matches Some(d) && d != data@.len(),
        BuilderEntryKind::Symlink(_) => false,
    }
}

/// Targets of the entries, in order.
pub open spec fn targets(items: Seq<BuilderEntry>) -> Seq<Seq<u8>> {
    items.map_values(|e: BuilderEntry| e.target@)
}

/// The entries in the order they are written: stably sorted by target bytes.
pub open spec fn write_order(items: Seq<BuilderEntry>) -> Seq<BuilderEntry> {
    sorted_indices(targets(items), items.len()).map_values(|k: int| items[k])
}

/// Where the `i`-th entry of `s` starts in the data region.
pub open spec fn data_offset(s: Seq<BuilderEntry>, i: int) -> int
    decreases i,
{
    if i <= 0 {
        0
    } else {
        data_offset(s, i - 1) + item_data(s[i - 1]).len()
    }
}

/// The data region: the entries' bytes one after another.
pub open spec fn data_concat(s: Seq<BuilderEntry>, i: int) -> Seq<u8>
    decreases i,
{
    if i <= 0 {
        seq![]
    } else {
        data_concat(s, i - 1) + item_data(s[i - 1])
    }
}

/// Whether the `i`-th entry of `s` can be written.
pub open spec fn item_ok(s: Seq<BuilderEntry>, i: int) -> bool {
    &&& !length_mismatch(s[i])
    &&& s[i].target@.len() < 256
    &&& data_offset(s, i + 1) <= u64::MAX
}

/// Whether the entries of `s` before `i` can all be written.
pub open spec fn prefix_ok(s: Seq<BuilderEntry>, i: int) -> bool {
    forall|j: int| 0 <= j < i ==> item_ok(s, j)
}

/// Why the `i`-th entry of `s` cannot be written: `e` is the error for it.
pub open spec fn item_refused(s: Seq<BuilderEntry>, i: int, e: Error) -> bool {
    if length_mismatch(s[i]) {
        &&& e matches Error::LengthMismatch { actual, expected }
        &&& e->actual == item_data(s[i]).len()
        &&& s[i].kind matches BuilderEntryKind::File { declared: Some(d), .. }
        &&& s[i].kind->declared == Some(e->expected)
    } else if s[i].target@.len() >= 256 {
        e matches Error::PathTooLong { path } && path@ == s[i].target@
    } else {
        e matches Error::Overflow
    }
}

/// The entry record written for the `i`-th entry of `s`.
pub open spec fn entry_for(e: Entry, s: Seq<BuilderEntry>, i: int) -> bool {
    &&& e.blake3@ == blake3_of(item_data(s[i]))
    &&& e.offset() == data_offset(s, i)
    &&& e.size() == item_data(s[i]).len()
    &&& e.mode == s[i].mode.bits()
    &&& e.path@ == padded_path(s[i].target@)
}

/// The signed part of the header: public key, table digest, count, flags.
pub open spec fn signed_part(sk: Seq<u8>, es: Seq<Entry>) -> Seq<u8> {
    sk.subrange(32, 64) + blake3_of(table_bytes(es)) + spec_u32_to_le_bytes(es.len() as u32)
        + spec_u32_to_le_bytes(0)
}

/// The head segment: signature, signed part, entry table.
pub open spec fn head_bytes(sk: Seq<u8>, es: Seq<Entry>) -> Seq<u8> {
    ed25519_signature(signed_part(sk, es), sk) + signed_part(sk, es) + table_bytes(es)
}

/// `head` and `data` are the two segments of the archive that the secret key
/// `sk` makes of `items`.
pub open spec fn builds(sk: Seq<u8>, items: Seq<BuilderEntry>, head: Seq<u8>, data: Seq<u8>) -> bool {
    let s = write_order(items);
    &&& s.len() <= u32::MAX
    &&& prefix_ok(s, s.len() as int)
    &&& data == data_concat(s, s.len() as int)
    &&& head.len() == head_len(items.len())
    &&& exists|es: Seq<Entry>|
        es.len() == s.len() && (forall|i: int| 0 <= i < s.len() ==> #[trigger] entry_for(es[i], s, i))
            && head == head_bytes(sk, es) && blake3_of(table_bytes(es)).len() == 32
            && ed25519_signature(signed_part(sk, es), sk).len() == 64
}

/// `archive` is the whole archive that the secret key `sk` makes of `items`:
/// its head segment followed by its data segment.
pub open spec fn archive_built(sk: Seq<u8>, items: Seq<BuilderEntry>, archive: Seq<u8>) -> bool {
    exists|head: Seq<u8>, data: Seq<u8>| builds(sk, items, head, data) && archive == head + data
}

/// Why `items` cannot be written, if they cannot: `e` is the error returned.
pub open spec fn build_refused(items: Seq<BuilderEntry>, e: Error) -> bool {
    let s = write_order(items);
    if s.len() > u32::MAX {
        e matches Error::Overflow
    } else {
        exists|i: int| 0 <= i < s.len() && prefix_ok(s, i) && !item_ok(s, i) && item_refused(s, i, e)
    }
}

/// `new` is `old` with one more entry at its end, for `target`, holding
/// `kind`, with the permission bits of `mode`.
pub open spec fn pushed(
    old: Seq<BuilderEntry>,
    new: Seq<BuilderEntry>,
    target: Seq<u8>,
    kind: BuilderEntryKind,
    mode: Mode,
) -> bool {
    &&& new.len() == old.len() + 1
    &&& new.drop_last() == old
    &&& new.last().target@ == target
    &&& new.last().kind == kind
    &&& new.last().mode.bits() & PERM_BITS == mode.bits() & PERM_BITS
}

/// Whether an entry may stand in a builder: a normal target, and a mode with
/// only permission bits and the kind that matches its contents.
pub open spec fn entry_wf(e: BuilderEntry) -> bool {
    &&& path_is_normal(e.target@)
    &&& e.mode.bits() & !PERM_BITS == (if e.kind is File { FILE_BITS } else { SYMLINK_BITS })
}

impl BuilderEntry {
    // Verify inputs to ensure that incorrect packages are not built by mistake
    fn new(target: &[u8], mode: Mode, kind: BuilderEntryKind) -> (r: Result<BuilderEntry, Error>)
        ensures
            path_is_normal(target@) <==> r is Ok,
            r matches Ok(e) ==> (entry_wf(e) && e.target@ == target@ && e.kind == kind
                && e.mode.bits() & PERM_BITS == mode.bits() & PERM_BITS),
            r matches Err(e) ==> e matches Error::InvalidPathComponent { .. },
    {
        match check_path(target) {
            Ok(()) => {},
            Err(e) => return Err(e),
        }
        let kind_bits = match kind {
            BuilderEntryKind::File { .. } => FILE_BITS,
            BuilderEntryKind::Symlink(_) => SYMLINK_BITS,
        };
        let m = mode.bits();
        let perm = m & PERM_BITS;
        let bits = perm | kind_bits;
        assert(bits & !PERM_BITS == kind_bits && bits & PERM_BITS == m & PERM_BITS && bits & (PERM_BITS
            | 0o170000u32) == bits) by (bit_vector)
            requires
                perm == m & PERM_BITS,
                bits == perm | kind_bits,
                kind_bits == FILE_BITS || kind_bits == SYMLINK_BITS,
                PERM_BITS == 0o007777u32,
                FILE_BITS == 0o100000u32,
                SYMLINK_BITS == 0o120000u32,
        ;
        Ok(BuilderEntry { target: crate::bytes::to_vec(target), mode: Mode::from_bits_truncate(bits), kind })
    }

    fn data(&self) -> (r: &[u8])
        ensures
            r@ == item_data(*self),
    {
        match &self.kind {
            BuilderEntryKind::File { data, .. } => data.as_slice(),
            BuilderEntryKind::Symlink(link) => link.as_slice(),
        }
    }
}

/// Builder pattern for constructing archives. Holds a list of entries and
/// writes them, sorted by target path, as one signed archive.
pub struct PackageBuilder {
    keys: SecretKey,
    entries: Vec<BuilderEntry>,
}

impl PackageBuilder {
    /// The key that signs the archive.
    pub closed spec fn secret_key(&self) -> Seq<u8> {
        self.keys.0@
    }

    /// The entries added so far, in the order they were added.
    pub closed spec fn items(&self) -> Seq<BuilderEntry> {
        self.entries@
    }

    /// Every entry added has a normal target and a mode of its kind.
    pub open spec fn wf(&self) -> bool {
        forall|i: int| 0 <= i < self.items().len() ==> entry_wf(#[trigger] self.items()[i])
    }

    /// An empty builder that signs with `keys`.
    pub fn new(keys: SecretKey) -> (r: PackageBuilder)
        ensures
            r.secret_key() == keys.0@,
            r.items().len() == 0,
            r.wf(),
    {
        PackageBuilder { keys, entries: Vec::new() }
    }

    fn push_entry(&mut self, target: &[u8], mode: Mode, kind: BuilderEntryKind) -> (r: Result<
        (),
        Error,
    >)
        requires
            old(self).wf(),
        ensures
            final(self).wf(),
            final(self).secret_key() == old(self).secret_key(),
            path_is_normal(target@) <==> r is Ok,
            r is Ok ==> pushed(old(self).items(), final(self).items(), target@, kind, mode),
            r is Err ==> final(self).items() == old(self).items(),
            r matches Err(e) ==> e matches Error::InvalidPathComponent { .. },
    {
        let e = match BuilderEntry::new(target, mode, kind) {
            Ok(e) => e,
            Err(err) => return Err(err),
        };
        self.entries.push(e);
        proof {
            assert(self.items().drop_last() =~= old(self).items());
        }
        Ok(())
    }

    /// Add a regular file whose contents were read from the build system;
    /// `size` is the length the file system reported for it.
    pub fn file(&mut self, data: Vec<u8>, size: u64, target: &[u8], mode: Mode) -> (r: Result<
        (),
        Error,
    >)
        requires
            old(self).wf(),
        ensures
            final(self).wf(),
            final(self).secret_key() == old(self).secret_key(),
            path_is_normal(target@) <==> r is Ok,
            r is Ok ==> pushed(
                old(self).items(),
                final(self).items(),
                target@,
                (BuilderEntryKind::File { data, declared: Some(size) }),
                mode,
            ),
            r is Err ==> final(self).items() == old(self).items(),
            r matches Err(e) ==> e is InvalidPathComponent,
    {
        self.push_entry(target, mode, BuilderEntryKind::File { data, declared: Some(size) })
    }

    /// Add a regular file with contents `source`.
    pub fn file_reader(&mut self, source: Vec<u8>, target: &[u8], mode: Mode) -> (r: Result<
        (),
        Error,
    >)
        requires
            old(self).wf(),
        ensures
            final(self).wf(),
            final(self).secret_key() == old(self).secret_key(),
            path_is_normal(target@) <==> r is Ok,
            r is Ok ==> pushed(
                old(self).items(),
                final(self).items(),
                target@,
                (BuilderEntryKind::File { data: source, declared: None }),
                mode,
            ),
            r is Err ==> final(self).items() == old(self).items(),
            r matches Err(e) ==> e is InvalidPathComponent,
    {
        self.push_entry(target, mode, BuilderEntryKind::File { data: source, declared: None })
    }

    /// Add a symlink to this builder. `link` is the contents of the link.
    pub fn symlink(&mut self, link: Vec<u8>, target: &[u8], mode: Mode) -> (r: Result<(), Error>)
        requires
            old(self).wf(),
        ensures
            final(self).wf(),
            final(self).secret_key() == old(self).secret_key(),
            path_is_normal(target@) <==> r is Ok,
            r is Ok ==> pushed(
                old(self).items(),
                final(self).items(),
                target@,
                BuilderEntryKind::Symlink(link),
                mode,
            ),
            r is Err ==> final(self).items() == old(self).items(),
            r matches Err(e) ==> e is InvalidPathComponent,
    {
        self.push_entry(target, mode, BuilderEntryKind::Symlink(link))
    }
}

/// Size of the head segment for `n` entries.
pub open spec fn head_len(n: nat) -> int {
    crate::header::HEADER_SIZE + n * crate::entry::ENTRY_SIZE
}

proof fn lemma_write_order(items: Seq<BuilderEntry>)
    ensures
        write_order(items).len() == items.len(),
        forall|j: int|
            0 <= j < items.len() ==> #[trigger] write_order(items)[j] == items[sorted_indices(
                targets(items),
                items.len(),
            )[j]],
{
    crate::order::lemma_sorted_indices_range(targets(items), items.len());
}

impl PackageBuilder {
    fn target_keys(&self) -> (r: Vec<Vec<u8>>)
        ensures
            keys_view(r@) == targets(self.items()),
    {
        let mut keys: Vec<Vec<u8>> = Vec::new();
        let mut k: usize = 0;
        while k < self.entries.len()
            invariant
                0 <= k <= self.entries@.len(),
                keys@.len() == k,
                forall|j: int| 0 <= j < k ==> #[trigger] keys@[j]@ == self.entries@[j].target@,
            decreases self.entries@.len() - k,
        {
            keys.push(crate::bytes::to_vec(self.entries[k].target.as_slice()));
            k += 1;
        }
        assert(keys_view(keys@) =~= targets(self.items()));
        keys
    }

    /// Consume this `PackageBuilder`'s entries into the head segment (header
    /// and entry table) and the data segment of a signed archive.
    pub fn write_parts(&self) -> (r: Result<(Vec<u8>, Vec<u8>), Error>)
        ensures
            r matches Ok(p) ==> builds(self.secret_key(), self.items(), p.0@, p.1@),
            r matches Err(e) ==> build_refused(self.items(), e),
            r is Err <==> !(write_order(self.items()).len() <= u32::MAX && prefix_ok(
                write_order(self.items()),
                self.items().len() as int,
            )),
    {
        let ghost items = self.items();
        let ghost s = write_order(items);
        proof {
            lemma_write_order(items);
        }
        let n = self.entries.len();
        if n > 0xffff_ffffusize {
            return Err(Error::Overflow);
        }
        let keys = self.target_keys();
        let order = sorted_order(&keys);
        proof {
            assert(keys_view(keys@).len() == keys@.len());
            assert(targets(items).len() == items.len());
        }
        let mut data: Vec<u8> = Vec::new();
        let mut es: Vec<Entry> = Vec::new();
        let mut offset: u64 = 0;
        let mut i: usize = 0;
        while i < n
            invariant
                n == items.len() == s.len() == order@.len(),
                n <= u32::MAX,
                items == self.items(),
                s == write_order(items),
                forall|j: int|
                    0 <= j < n ==> #[trigger] s[j] == self.entries@[order@[j] as int],
                forall|j: int| 0 <= j < n ==> #[trigger] order@[j] < n,
                0 <= i <= n,
                prefix_ok(s, i as int),
                data@ == data_concat(s, i as int),
                offset == data_offset(s, i as int),
                es@.len() == i,
                forall|j: int| 0 <= j < i ==> #[trigger] entry_for(es@[j], s, j),
            decreases n - i,
        {
            let be = &self.entries[order[i]];
            assert(*be == s[i as int]);
            let bytes = be.data();
            let len = bytes.len() as u64;
            match &be.kind {
                BuilderEntryKind::File { declared: Some(d), .. } => {
                    if *d != len {
                        assert(item_refused(s, i as int, Error::LengthMismatch { actual: len, expected: *d }));
                        assert(!item_ok(s, i as int));
                        return Err(Error::LengthMismatch { actual: len, expected: *d });
                    }
                },
                _ => {},
            }
            let hash = blake3_digest(bytes);
            let e = match Entry::new(hash, offset, len, be.mode, be.target.as_slice()) {
                Ok(e) => e,
                Err(err) => {
                    assert(item_refused(s, i as int, err));
                    assert(!item_ok(s, i as int));
                    return Err(err);
                },
            };
            let next = match offset.checked_add(len) {
                Some(v) => v,
                None => {
                    assert(item_refused(s, i as int, Error::Overflow));
                    assert(!item_ok(s, i as int));
                    return Err(Error::Overflow);
                },
            };
            es.push(e);
            push_all(&mut data, bytes);
            offset = next;
            i += 1;
            proof {
                assert(item_ok(s, i - 1));
                assert(prefix_ok(s, i as int));
                assert(forall|j: int| 0 <= j < i ==> #[trigger] entry_for(es@[j], s, j));
            }
        }
        let table = pack_table(&es);
        let digest = blake3_digest(table.as_slice());
        let pk = self.keys.public_key();
        let mut header = Header {
            signature: [0u8; 64],
            public_key: pk.0,
            blake3: digest,
            count: n as u32,
            flags: HeaderFlags(0),
        };
        let unsigned = header.to_bytes();
        let signed = &unsigned.as_slice()[64..136];
        proof {
            lemma_auto_spec_u32_to_from_le_bytes();
            assert(signed@ =~= signed_part(self.secret_key(), es@));
        }
        let signature = sign_detached(signed, &self.keys.0);
        header.signature = signature;
        let mut head = header.to_bytes();
        push_all(&mut head, table.as_slice());
        proof {
            crate::header::lemma_table_bytes_parses(es@);
            assert(head@ =~= head_bytes(self.secret_key(), es@));
            assert(builds(self.secret_key(), items, head@, data@));
        }
        Ok((head, data))
    }

    /// Consume this `PackageBuilder`'s entries into one signed archive: head
    /// segment, then data segment.
    pub fn write_archive(&self) -> (r: Result<Vec<u8>, Error>)
        ensures
            r matches Ok(a) ==> archive_built(self.secret_key(), self.items(), a@),
            r matches Ok(a) ==> a@.len() >= head_len(self.items().len()) && builds(
                self.secret_key(),
                self.items(),
                a@.take(head_len(self.items().len())),
                a@.skip(head_len(self.items().len())),
            ),
            r matches Err(e) ==> build_refused(self.items(), e),
            r is Err <==> !(write_order(self.items()).len() <= u32::MAX && prefix_ok(
                write_order(self.items()),
                self.items().len() as int,
            )),
    {
        match self.write_parts() {
            Ok((head, data)) => {
                let mut out = head;
                let ghost h = out@;
                push_all(&mut out, data.as_slice());
                proof {
                    assert(out@.take(head_len(self.items().len())) =~= h);
                    assert(out@.skip(head_len(self.items().len())) =~= data@);
                    assert(out@ == h + data@);
                }
                Ok(out)
            },
            Err(e) => Err(e),
        }
    }
}

} // verus!
