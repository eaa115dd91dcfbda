//! Properties that relate the builder, the verifier and the extractor.
use vstd::bytes::*;
use vstd::prelude::*;

use crate::builder::{archive_built, builds, head_len, data_concat, data_offset, entry_for, entry_wf, head_bytes, item_data, item_ok, prefix_ok, signed_part, targets, write_order, BuilderEntry};
use crate::crypto::{blake3_of, ed25519_accepts};
use crate::entry::{entry_bytes, lemma_entry_bytes_injective, lemma_padded_path_round_trip, path_of, Entry, ENTRY_SIZE};
use crate::flags::byte_at;
use crate::header::{
    count_field, flags_field, lemma_table_bytes_parses, parses_to, record, table_bytes, table_size,
    HEADER_SIZE,
};
use crate::mode::{FILE_BITS, KIND_BITS, PERM_BITS, SYMLINK_BITS};
use crate::package::{entry_slice, head_refusal, head_size};
use crate::order::{is_permutation, lemma_sorted_indices_sorted, lemma_sorted_unique, lex_lt, sorted_indices};
use crate::path::{lemma_join_stays_within, path_is_normal};
use crate::commands::{region_of, table_of};
use crate::transaction::{entry_installable, mode_installable, target_of};

verus! {

proof fn lemma_entry_for_unique(s: Seq<BuilderEntry>, es1: Seq<Entry>, es2: Seq<Entry>)
    requires
        es1.len() == s.len(),
        es2.len() == s.len(),
        forall|i: int| 0 <= i < s.len() ==> #[trigger] entry_for(es1[i], s, i),
        forall|i: int| 0 <= i < s.len() ==> #[trigger] entry_for(es2[i], s, i),
    ensures
        es1 == es2,
{
    assert forall|i: int| 0 <= i < s.len() implies es1[i] == es2[i] by {
        assert(entry_for(es1[i], s, i));
        assert(entry_for(es2[i], s, i));
        assert(es1[i].blake3@ == es2[i].blake3@);
        assert(es1[i].path@ == es2[i].path@);
        lemma_auto_spec_u64_to_from_le_bytes();
        assert(es1[i].offset@ == spec_u64_to_le_bytes(spec_u64_from_le_bytes(es1[i].offset@)));
        assert(es2[i].offset@ == spec_u64_to_le_bytes(spec_u64_from_le_bytes(es2[i].offset@)));
        assert(es1[i].size@ == spec_u64_to_le_bytes(spec_u64_from_le_bytes(es1[i].size@)));
        assert(es2[i].size@ == spec_u64_to_le_bytes(spec_u64_from_le_bytes(es2[i].size@)));
        assert(es1[i].blake3 == es2[i].blake3);
        assert(es1[i].offset == es2[i].offset);
        assert(es1[i].size == es2[i].size);
        assert(es1[i].path == es2[i].path);
    }
    assert(es1 =~= es2);
}

/// Building is deterministic: the same key and the same entries give the same
/// head and data segments, byte for byte.
pub proof fn lemma_build_deterministic(
    sk: Seq<u8>,
    items: Seq<BuilderEntry>,
    head1: Seq<u8>,
    data1: Seq<u8>,
    head2: Seq<u8>,
    data2: Seq<u8>,
)
    requires
        builds(sk, items, head1, data1),
        builds(sk, items, head2, data2),
    ensures
        head1 == head2,
        data1 == data2,
{
    let s = write_order(items);
    let es1 = choose|es: Seq<Entry>|
        es.len() == s.len() && (forall|i: int| 0 <= i < s.len() ==> #[trigger] entry_for(es[i], s, i))
            && head1 == head_bytes(sk, es) && blake3_of(table_bytes(es)).len() == 32
            && crate::crypto::ed25519_signature(signed_part(sk, es), sk).len() == 64;
    let es2 = choose|es: Seq<Entry>|
        es.len() == s.len() && (forall|i: int| 0 <= i < s.len() ==> #[trigger] entry_for(es[i], s, i))
            && head2 == head_bytes(sk, es) && blake3_of(table_bytes(es)).len() == 32
            && crate::crypto::ed25519_signature(signed_part(sk, es), sk).len() == 64;
    lemma_entry_for_unique(s, es1, es2);
}

/// Building does not depend on the order in which entries were added: when
/// no two entries share a target, adding the same entries in any order (as a
/// directory walk may list them) gives the same head and data segments.
pub proof fn lemma_build_order_independent(
    sk: Seq<u8>,
    items1: Seq<BuilderEntry>,
    items2: Seq<BuilderEntry>,
    perm: Seq<int>,
    head1: Seq<u8>,
    data1: Seq<u8>,
    head2: Seq<u8>,
    data2: Seq<u8>,
)
    requires
        items2.len() == items1.len(),
        is_permutation(perm, items1.len() as int),
        forall|i: int| 0 <= i < items2.len() ==> #[trigger] items2[i] == items1[perm[i]],
        forall|i: int, j: int|
            0 <= i < j < items1.len() ==> (#[trigger] items1[i]).target@ != (#[trigger] items1[j]).target@,
        builds(sk, items1, head1, data1),
        builds(sk, items2, head2, data2),
    ensures
        head1 == head2,
        data1 == data2,
{
    let n = items1.len();
    let k1 = targets(items1);
    let k2 = targets(items2);
    let o1 = sorted_indices(k1, n);
    let o2 = sorted_indices(k2, n);
    lemma_sorted_indices_sorted(k1, n);
    lemma_sorted_indices_sorted(k2, n);
    // `perm` after `o2` is a permutation of the first list, sorted by its keys.
    let c = o2.map_values(|x: int| perm[x]);
    assert forall|i: int| 0 <= i < c.len() implies 0 <= #[trigger] c[i] < n by {
        assert(0 <= o2[i] < n);
    }
    assert forall|i: int, j: int| 0 <= i < j < c.len() implies #[trigger] c[i] != #[trigger] c[j] by {
        assert(o2[i] != o2[j]);
        assert(0 <= o2[i] < n && 0 <= o2[j] < n);
        if o2[i] < o2[j] {
            assert(perm[o2[i]] != perm[o2[j]]);
        } else {
            assert(perm[o2[j]] != perm[o2[i]]);
        }
    }
    assert forall|x: int| 0 <= x < n implies #[trigger] k1[perm[x]] == k2[x] by {
        assert(items2[x] == items1[perm[x]]);
        assert(0 <= perm[x] < n);
    }
    assert forall|i: int, j: int| 0 <= i < j < c.len() implies !lex_lt(#[trigger] k1[c[j]], #[trigger] k1[c[i]]) by {
        assert(!lex_lt(k2[o2[j]], k2[o2[i]]));
        assert(0 <= o2[i] < n && 0 <= o2[j] < n);
        assert(k1[perm[o2[i]]] == k2[o2[i]]);
        assert(k1[perm[o2[j]]] == k2[o2[j]]);
    }
    assert forall|i: int, j: int| 0 <= i < j < n implies #[trigger] k1[i] != #[trigger] k1[j] by {
        assert(items1[i].target@ != items1[j].target@);
    }
    lemma_sorted_unique(k1, n as int, o1, c);
    let s1 = write_order(items1);
    let s2 = write_order(items2);
    assert forall|i: int| 0 <= i < n implies s1[i] == s2[i] by {
        assert(0 <= o2[i] < n);
        assert(items2[o2[i]] == items1[perm[o2[i]]]);
    }
    assert(s1 =~= s2);
    let es1 = choose|es: Seq<Entry>|
        es.len() == s1.len() && (forall|i: int| 0 <= i < s1.len() ==> #[trigger] entry_for(es[i], s1, i))
            && head1 == head_bytes(sk, es) && blake3_of(table_bytes(es)).len() == 32
            && crate::crypto::ed25519_signature(signed_part(sk, es), sk).len() == 64;
    let es2 = choose|es: Seq<Entry>|
        es.len() == s2.len() && (forall|i: int| 0 <= i < s2.len() ==> #[trigger] entry_for(es[i], s2, i))
            && head2 == head_bytes(sk, es) && blake3_of(table_bytes(es)).len() == 32
            && crate::crypto::ed25519_signature(signed_part(sk, es), sk).len() == 64;
    lemma_entry_for_unique(s1, es1, es2);
}

proof fn lemma_data_concat(s: Seq<BuilderEntry>, n: int, i: int)
    requires
        0 <= i < n <= s.len(),
    ensures
        data_concat(s, n).len() == data_offset(s, n),
        data_offset(s, i) + item_data(s[i]).len() <= data_offset(s, n),
        data_concat(s, n).subrange(data_offset(s, i), data_offset(s, i) + item_data(s[i]).len())
            == item_data(s[i]),
    decreases n,
{
    lemma_data_concat_len(s, n);
    lemma_data_concat_len(s, i);
    if i < n - 1 {
        lemma_data_concat(s, n - 1, i);
        lemma_data_concat_len(s, n - 1);
        let d = data_concat(s, n);
        let p = data_concat(s, n - 1);
        assert(d.subrange(data_offset(s, i), data_offset(s, i) + item_data(s[i]).len()) =~= p.subrange(
            data_offset(s, i),
            data_offset(s, i) + item_data(s[i]).len(),
        ));
    } else {
        lemma_data_concat_len(s, n - 1);
        let d = data_concat(s, n);
        assert(d.subrange(data_offset(s, i), data_offset(s, i) + item_data(s[i]).len()) =~= item_data(
            s[i],
        ));
    }
}

proof fn lemma_data_concat_len(s: Seq<BuilderEntry>, n: int)
    requires
        0 <= n <= s.len(),
    ensures
        data_concat(s, n).len() == data_offset(s, n),
        data_offset(s, n) >= 0,
    decreases n,
{
    if n > 0 {
        lemma_data_concat_len(s, n - 1);
    }
}

proof fn lemma_data_offset_mono(s: Seq<BuilderEntry>, i: int, n: int)
    requires
        0 <= i <= n <= s.len(),
    ensures
        data_offset(s, i) <= data_offset(s, n),
    decreases n - i,
{
    if i < n {
        lemma_data_offset_mono(s, i + 1, n);
    }
}

/// A table parses to one list of entries only.
pub proof fn lemma_parses_unique(table: Seq<u8>, es: Seq<Entry>, other: Seq<Entry>)
    requires
        parses_to(table, es),
        parses_to(table, other),
    ensures
        es == other,
{
    assert(es.len() == other.len()) by (nonlinear_arith)
        requires
            table.len() == es.len() * ENTRY_SIZE,
            table.len() == other.len() * ENTRY_SIZE,
    ;
    assert forall|i: int| 0 <= i < es.len() implies es[i] == other[i] by {
        assert(entry_bytes(es[i]) == record(table, i));
        assert(entry_bytes(other[i]) == record(table, i));
        lemma_entry_bytes_injective(es[i], other[i]);
    }
    assert(es =~= other);
}

/// A mode that a builder entry holds is one the extractor accepts.
proof fn lemma_entry_mode_installable(e: BuilderEntry)
    requires
        entry_wf(e),
    ensures
        mode_installable(e.mode.bits()),
{
    let m = e.mode.bits();
    let k: u32 = if e.kind is File { FILE_BITS } else { SYMLINK_BITS };
    assert(m & !PERM_BITS == k);
    assert(m & !(PERM_BITS | KIND_BITS) == 0 && (m & KIND_BITS == k)) by (bit_vector)
        requires
            m & !PERM_BITS == k,
            k == FILE_BITS || k == SYMLINK_BITS,
            PERM_BITS == 0o007777u32,
            KIND_BITS == 0o170000u32,
            FILE_BITS == 0o100000u32,
            SYMLINK_BITS == 0o120000u32,
    ;
}

/// Round trip. The archive that `builds` describes passes every check that
/// `PackageBuf::new` makes once its signature verifies under the builder's
/// public key; its entry table parses to one entry per input, in write order,
/// and each of those entries passes the extractor's checks and reads back
/// exactly the bytes, path and mode it was built from.
pub proof fn lemma_build_round_trip(
    sk: Seq<u8>,
    items: Seq<BuilderEntry>,
    head: Seq<u8>,
    data: Seq<u8>,
    parsed: Seq<Entry>,
)
    requires
        sk.len() == 64,
        forall|i: int| 0 <= i < items.len() ==> entry_wf(#[trigger] items[i]),
        builds(sk, items, head, data),
        parses_to((head + data).subrange(HEADER_SIZE as int, head_size(head + data)), parsed),
    ensures
        ed25519_accepts(
            (head + data).subrange(0, 64),
            (head + data).subrange(64, 136),
            sk.subrange(32, 64),
        ) ==> head_refusal(head + data, sk.subrange(32, 64)) is None,
        count_field(head + data) == items.len(),
        head_size(head + data) == head.len(),
        parsed.len() == items.len(),
        forall|i: int|
            0 <= i < items.len() ==> {
                &&& entry_installable(data, #[trigger] parsed[i])
                &&& entry_slice(data, parsed[i]) == item_data(write_order(items)[i])
                &&& path_of(parsed[i].path@) == write_order(items)[i].target@
                &&& parsed[i].mode == write_order(items)[i].mode.bits()
                &&& parsed[i].offset() == data_offset(write_order(items), i)
                &&& parsed[i].size() == item_data(write_order(items)[i]).len()
                &&& parsed[i].blake3@ == blake3_of(item_data(write_order(items)[i]))
            },
        data.len() == data_offset(write_order(items), items.len() as int),
{
    let s = write_order(items);
    let n = s.len();
    let a = head + data;
    crate::order::lemma_sorted_indices_range(targets(items), items.len());
    assert(s.len() == items.len());
    let es = choose|es: Seq<Entry>|
        es.len() == s.len() && (forall|i: int| 0 <= i < s.len() ==> #[trigger] entry_for(es[i], s, i))
            && head == head_bytes(sk, es) && blake3_of(table_bytes(es)).len() == 32
            && crate::crypto::ed25519_signature(signed_part(sk, es), sk).len() == 64;
    lemma_table_bytes_parses(es);
    lemma_auto_spec_u32_to_from_le_bytes();
    let signed = signed_part(sk, es);
    let table = table_bytes(es);
    assert(table.len() == n * ENTRY_SIZE);
    assert(signed.len() == 72);
    assert(head.len() == HEADER_SIZE + n * ENTRY_SIZE);
    let sig = crate::crypto::ed25519_signature(signed, sk);
    assert(sig.len() == 64);
    // The fixed fields of the header.
    assert(a.subrange(64, 136) =~= signed);
    assert(a.subrange(64, 96) =~= sk.subrange(32, 64));
    assert(a.subrange(96, 128) =~= blake3_of(table));
    assert(a.subrange(128, 132) =~= spec_u32_to_le_bytes(n as u32));
    assert(a.subrange(132, 136) =~= spec_u32_to_le_bytes(0));
    assert(count_field(a) == n);
    assert(flags_field(a) == 0);
    assert(byte_at(0, 16) == 0) by (bit_vector);
    assert(table_size(count_field(a)) == n * ENTRY_SIZE);
    assert(head_size(a) == head.len());
    assert(a.subrange(HEADER_SIZE as int, head_size(a)) =~= table);
    lemma_parses_unique(table, es, parsed);
    lemma_data_concat_len(s, n as int);
    // Each entry.
    assert forall|i: int| 0 <= i < items.len() implies {
        &&& entry_installable(data, #[trigger] parsed[i])
        &&& entry_slice(data, parsed[i]) == item_data(s[i])
        &&& path_of(parsed[i].path@) == s[i].target@
        &&& parsed[i].mode == s[i].mode.bits()
        &&& parsed[i].offset() == data_offset(s, i)
        &&& parsed[i].size() == item_data(s[i]).len()
        &&& parsed[i].blake3@ == blake3_of(item_data(s[i]))
    } by {
        assert(entry_for(es[i], s, i));
        let k = crate::order::sorted_indices(targets(items), items.len())[i];
        assert(s[i] == items[k]);
        assert(entry_wf(items[k]));
        assert(prefix_ok(s, n as int));
        assert(item_ok(s, i));
        lemma_data_concat(s, n as int, i);
        lemma_padded_path_round_trip(s[i].target@);
        lemma_entry_mode_installable(s[i]);
    }
}

/// Path safety. Every entry of an archive that `builds` describes lands,
/// under any base directory, inside that directory: its target begins with the
/// base, and what follows is the entry's own strictly relative path.
pub proof fn lemma_build_paths_stay_within(
    sk: Seq<u8>,
    items: Seq<BuilderEntry>,
    head: Seq<u8>,
    data: Seq<u8>,
    parsed: Seq<Entry>,
    base: Seq<u8>,
)
    requires
        sk.len() == 64,
        forall|i: int| 0 <= i < items.len() ==> entry_wf(#[trigger] items[i]),
        builds(sk, items, head, data),
        parses_to((head + data).subrange(HEADER_SIZE as int, head_size(head + data)), parsed),
    ensures
        forall|i: int|
            0 <= i < parsed.len() ==> {
                &&& path_is_normal(path_of((#[trigger] parsed[i]).path@))
                &&& target_of(base, parsed[i]).subrange(0, base.len() as int) == base
                &&& target_of(base, parsed[i]).len() >= base.len() + path_of(parsed[i].path@).len()
            },
{
    lemma_build_round_trip(sk, items, head, data, parsed);
    assert forall|i: int| 0 <= i < parsed.len() implies {
        &&& path_is_normal(path_of((#[trigger] parsed[i]).path@))
        &&& target_of(base, parsed[i]).subrange(0, base.len() as int) == base
        &&& target_of(base, parsed[i]).len() >= base.len() + path_of(parsed[i].path@).len()
    } by {
        assert(entry_installable(data, parsed[i]));
        lemma_join_stays_within(base, path_of(parsed[i].path@));
    }
}

/// Building gives the same archive every time: the same key and entries
/// give the same bytes.
pub proof fn lemma_archive_deterministic(sk: Seq<u8>, items: Seq<BuilderEntry>, a1: Seq<u8>, a2: Seq<u8>)
    requires
        archive_built(sk, items, a1),
        archive_built(sk, items, a2),
    ensures
        a1 == a2,
{
    let (h1, d1) = choose|h: Seq<u8>, d: Seq<u8>| builds(sk, items, h, d) && a1 == h + d;
    let (h2, d2) = choose|h: Seq<u8>, d: Seq<u8>| builds(sk, items, h, d) && a2 == h + d;
    lemma_build_deterministic(sk, items, h1, d1, h2, d2);
}

/// The archive does not depend on the order in which entries were added,
/// when no two entries share a target.
pub proof fn lemma_archive_order_independent(
    sk: Seq<u8>,
    items1: Seq<BuilderEntry>,
    items2: Seq<BuilderEntry>,
    perm: Seq<int>,
    a1: Seq<u8>,
    a2: Seq<u8>,
)
    requires
        items2.len() == items1.len(),
        is_permutation(perm, items1.len() as int),
        forall|i: int| 0 <= i < items2.len() ==> #[trigger] items2[i] == items1[perm[i]],
        forall|i: int, j: int|
            0 <= i < j < items1.len() ==> (#[trigger] items1[i]).target@ != (#[trigger] items1[j]).target@,
        archive_built(sk, items1, a1),
        archive_built(sk, items2, a2),
    ensures
        a1 == a2,
{
    let (h1, d1) = choose|h: Seq<u8>, d: Seq<u8>| builds(sk, items1, h, d) && a1 == h + d;
    let (h2, d2) = choose|h: Seq<u8>, d: Seq<u8>| builds(sk, items2, h, d) && a2 == h + d;
    lemma_build_order_independent(sk, items1, items2, perm, h1, d1, h2, d2);
}

/// The layout of a built archive. It is header, entry table and data region:
/// its length is the header, one record per entry and the entries' bytes.
/// Once its signature verifies under the builder's public key it passes every
/// check of `PackageBuf::new`. Its table lists the entries in increasing
/// path order, each with contiguous offsets, its size, mode, path and the
/// digest of its bytes, which the data region holds; every entry passes the
/// extractor's checks and lands under any base directory.
pub proof fn lemma_archive_layout(
    sk: Seq<u8>,
    items: Seq<BuilderEntry>,
    a: Seq<u8>,
    parsed: Seq<Entry>,
    base: Seq<u8>,
)
    requires
        sk.len() == 64,
        forall|i: int| 0 <= i < items.len() ==> entry_wf(#[trigger] items[i]),
        archive_built(sk, items, a),
        parses_to(table_of(a), parsed),
    ensures
        count_field(a) == items.len(),
        parsed.len() == items.len(),
        a.len() == head_len(items.len()) + data_offset(write_order(items), items.len() as int),
        a.subrange(64, 96) == sk.subrange(32, 64),
        ed25519_accepts(a.subrange(0, 64), a.subrange(64, 136), sk.subrange(32, 64)) ==> head_refusal(
            a,
            sk.subrange(32, 64),
        ) is None,
        forall|i: int|
            0 <= i < items.len() ==> {
                &&& entry_installable(region_of(a), #[trigger] parsed[i])
                &&& entry_slice(region_of(a), parsed[i]) == item_data(write_order(items)[i])
                &&& path_of(parsed[i].path@) == write_order(items)[i].target@
                &&& parsed[i].mode == write_order(items)[i].mode.bits()
                &&& parsed[i].offset() == data_offset(write_order(items), i)
                &&& parsed[i].size() == item_data(write_order(items)[i]).len()
                &&& parsed[i].blake3@ == blake3_of(item_data(write_order(items)[i]))
                &&& target_of(base, parsed[i]).subrange(0, base.len() as int) == base
            },
        forall|i: int, j: int|
            0 <= i < j < parsed.len() ==> !lex_lt(
                path_of((#[trigger] parsed[j]).path@),
                path_of((#[trigger] parsed[i]).path@),
            ),
{
    let (h, d) = choose|h: Seq<u8>, d: Seq<u8>| builds(sk, items, h, d) && a == h + d;
    lemma_build_round_trip(sk, items, h, d, parsed);
    lemma_build_paths_stay_within(sk, items, h, d, parsed, base);
    assert(region_of(a) =~= d);
    assert(a.subrange(64, 96) =~= h.subrange(64, 96));
    let s = write_order(items);
    let n = items.len();
    lemma_sorted_indices_sorted(targets(items), n);
    crate::order::lemma_sorted_indices_range(targets(items), n);
    assert forall|i: int, j: int| 0 <= i < j < parsed.len() implies !lex_lt(
        path_of((#[trigger] parsed[j]).path@),
        path_of((#[trigger] parsed[i]).path@),
    ) by {
        let o = sorted_indices(targets(items), n);
        assert(!lex_lt(targets(items)[o[j]], targets(items)[o[i]]));
        assert(s[i] == items[o[i]]);
        assert(s[j] == items[o[j]]);
    }
}

} // verus!
