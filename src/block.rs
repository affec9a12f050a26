use vstd::prelude::*;
use vstd::slice::slice_subrange;
use std::cmp::Ordering;
use crate::block_builder::{
    encoded_entries, entry_bytes, fixed32_concat, lemma_fixed32_concat_len, packed_footer,
    run_pos, shared_len, unpack_index_type_and_num_restarts, BlockBuilder, DataBlockIndexType,
};
use crate::coding::{
    append_bytes, bounded_varint, decode_fixed_uint16, decode_fixed_uint32, fixed32_bytes,
    get_var_uint32, le_value, lemma_fixed32_round_trip, put_fixed32, varint_bytes,
};
use crate::format::{
    extract_user_key, hash_key, user_key, KeyComparator, DISABLE_GLOBAL_SEQUENCE_NUMBER,
    MAX_SEQUENCE_NUMBER,
};
use crate::hash_index::{lemma_bucket_table_len, serialized_index, COLLISION, NO_ENTRY};

verus! {

/// The entry that starts at `off`, decoded against the previous key `prev`:
/// its full key, where its value starts, the value's length, and where the
/// next entry starts. `None` where the bytes before `end` do not hold one.
pub open spec fn spec_decode_entry(data: Seq<u8>, off: nat, end: nat, prev: Seq<u8>) -> Option<
    (Seq<u8>, nat, nat, nat),
> {
    let s = data.subrange(off as int, end as int);
    match bounded_varint(s, 5, 0x1_0000_0000) {
        None => None,
        Some((shared, l1)) => match bounded_varint(s.skip(l1 as int), 5, 0x1_0000_0000) {
            None => None,
            Some((ns, l2)) => match bounded_varint(s.skip((l1 + l2) as int), 5, 0x1_0000_0000) {
                None => None,
                Some((vl, l3)) => {
                    let ks = l1 + l2 + l3;
                    if shared <= prev.len() && ks + ns + vl <= s.len() {
                        Some(
                            (
                                prev.take(shared as int) + s.subrange(ks as int, (ks + ns) as int),
                                off + ks + ns,
                                vl,
                                off + ks + ns + vl,
                            ),
                        )
                    } else {
                        None
                    }
                },
            },
        },
    }
}

/// The eight little-endian bytes of `v`.
pub open spec fn fixed64_bytes(v: u64) -> Seq<u8> {
    fixed32_bytes((v % 0x1_0000_0000) as u32) + fixed32_bytes((v / 0x1_0000_0000) as u32)
}

/// The key a reader shows for a stored key: with an override, the stored
/// sequence number is replaced by it and the type tag kept.
pub open spec fn shown_key(k: Seq<u8>, global_seqno: u64) -> Seq<u8> {
    if global_seqno == DISABLE_GLOBAL_SEQUENCE_NUMBER || k.len() < 8 {
        k
    } else {
        user_key(k) + fixed64_bytes((global_seqno * 256 + k[k.len() - 8]) as u64)
    }
}

/// The entries before index `m` encode to a prefix of the whole region.
pub proof fn lemma_encoded_prefix(
    es: Seq<(Seq<u8>, Seq<u8>)>,
    m: int,
    interval: nat,
    delta: bool,
)
    requires
        0 <= m <= es.len(),
    ensures
        encoded_entries(es.take(m), interval, delta).len() <= encoded_entries(es, interval, delta).len(),
        encoded_entries(es, interval, delta).take(
            encoded_entries(es.take(m), interval, delta).len() as int,
        ) == encoded_entries(es.take(m), interval, delta),
    decreases es.len(),
{
    let e = encoded_entries(es, interval, delta);
    if m == es.len() {
        assert(es.take(m) =~= es);
        assert(e.take(e.len() as int) =~= e);
    } else {
        let p = es.drop_last();
        lemma_encoded_prefix(p, m, interval, delta);
        assert(p.take(m) =~= es.take(m));
        let ep = encoded_entries(p, interval, delta);
        let em = encoded_entries(es.take(m), interval, delta);
        assert(e == ep + entry_bytes(shared_len(es, es.len() - 1, interval, delta), es.last().0, es.last().1));
        assert(e.take(em.len() as int) =~= ep.take(em.len() as int));
    }
}

/// A varint of a 32-bit value read from the front of `varint_bytes(n) + rest`.
proof fn lemma_read_varint32(n: nat, rest: Seq<u8>)
    requires
        n <= u32::MAX,
    ensures
        bounded_varint(varint_bytes(n) + rest, 5, 0x1_0000_0000) == Some((n, varint_bytes(n).len())),
        (varint_bytes(n) + rest).skip(varint_bytes(n).len() as int) == rest,
{
    crate::coding::lemma_pow128_values();
    crate::coding::lemma_varint_len_bound(n, 5);
    crate::coding::lemma_varint_round_trip(n, rest, 5);
    assert((varint_bytes(n) + rest).skip(varint_bytes(n).len() as int) =~= rest);
}

/// One entry's bytes, decoded against a previous key that agrees with its
/// key on the shared prefix, give back its key and value.
proof fn lemma_prefix_join(prev: Seq<u8>, k: Seq<u8>, sh: nat)
    requires
        sh <= k.len(),
        sh <= prev.len(),
        prev.take(sh as int) == k.take(sh as int),
    ensures
        prev.take(sh as int) + k.skip(sh as int) == k,
{
    assert(prev.take(sh as int) + k.skip(sh as int) =~= k.take(sh as int) + k.skip(sh as int));
    assert(k.take(sh as int) + k.skip(sh as int) =~= k);
}

#[verifier::rlimit(80)]
proof fn lemma_decode_entry_bytes(
    data: Seq<u8>,
    off: nat,
    end: nat,
    prev: Seq<u8>,
    sh: nat,
    k: Seq<u8>,
    v: Seq<u8>,
    r: Seq<u8>,
)
    requires
        off <= end <= data.len(),
        data.subrange(off as int, end as int) == entry_bytes(sh, k, v) + r,
        sh <= k.len(),
        sh <= prev.len(),
        prev.take(sh as int) == k.take(sh as int),
        k.len() <= u32::MAX,
        v.len() <= u32::MAX,
    ensures
        ({
            let n = entry_bytes(sh, k, v).len();
            &&& spec_decode_entry(data, off, end, prev) == Some(
                (k, (off + n - v.len()) as nat, v.len(), off + n),
            )
            &&& data.subrange(off + n - v.len(), (off + n) as int) == v
        }),
{
    let s = data.subrange(off as int, end as int);
    let ns = (k.len() - sh) as nat;
    let r3 = k.skip(sh as int) + v + r;
    let r2 = varint_bytes(v.len()) + r3;
    let r1 = varint_bytes(ns) + r2;
    assert(s =~= varint_bytes(sh) + r1);
    lemma_read_varint32(sh, r1);
    lemma_read_varint32(ns, r2);
    lemma_read_varint32(v.len(), r3);
    let l1 = varint_bytes(sh).len();
    let l2 = varint_bytes(ns).len();
    let l3 = varint_bytes(v.len()).len();
    assert(s.skip(l1 as int) == r1);
    assert(s.skip((l1 + l2) as int) =~= r2);
    let ks = l1 + l2 + l3;
    assert(s.subrange(ks as int, (ks + ns) as int) =~= k.skip(sh as int));
    lemma_prefix_join(prev, k, sh);
    let n = entry_bytes(sh, k, v).len();
    assert(n == ks + ns + v.len());
    assert(data.subrange(off + n - v.len(), (off + n) as int) =~= s.subrange(
        (ks + ns) as int,
        (ks + ns + v.len()) as int,
    ));
    assert(s.subrange((ks + ns) as int, (ks + ns + v.len()) as int) =~= v);
}

/// Decoding gives back what was encoded: the entry at index `i` of an
/// encoded entry region, decoded against the key before it, is that
/// entry's key, with its value and the start of the next entry, whatever
/// bytes follow the region.
pub proof fn lemma_decode_encoded_entry(
    es: Seq<(Seq<u8>, Seq<u8>)>,
    interval: nat,
    delta: bool,
    rest: Seq<u8>,
    i: int,
    prev: Seq<u8>,
)
    requires
        0 <= i < es.len(),
        forall|j: int| 0 <= j < es.len() ==> #[trigger] es[j].0.len() <= u32::MAX && es[j].1.len() <= u32::MAX,
        prev == (if i == 0 {
            Seq::<u8>::empty()
        } else {
            es[i - 1].0
        }) || (run_pos(i as nat, interval) == 0 && prev == Seq::<u8>::empty()),
    ensures
        ({
            let data = encoded_entries(es, interval, delta) + rest;
            let off = encoded_entries(es.take(i), interval, delta).len();
            let next = encoded_entries(es.take(i + 1), interval, delta).len();
            let vs = (next - es[i].1.len()) as nat;
            &&& spec_decode_entry(data, off, encoded_entries(es, interval, delta).len(), prev)
                == Some((es[i].0, vs, es[i].1.len(), next))
            &&& data.subrange(vs as int, next as int) == es[i].1
        }),
{
    let e = encoded_entries(es, interval, delta);
    let data = e + rest;
    let t = es.take(i + 1);
    let ei = encoded_entries(es.take(i), interval, delta);
    let et = encoded_entries(t, interval, delta);
    let off = ei.len();
    let next = et.len();
    let k = es[i].0;
    let v = es[i].1;
    assert(t.drop_last() =~= es.take(i));
    assert(t.last() == es[i]);
    let sh = shared_len(t, i, interval, delta);
    if i > 0 {
        assert(t[i - 1] == es[i - 1]);
    }
    if sh > 0 {
        assert(prev == es[i - 1].0);
        let w = crate::block_builder::lemma_common_prefix_exists(prev, k);
        crate::block_builder::lemma_common_prefix_len(prev, k, w);
        assert(prev.take(sh as int) == k.take(sh as int));
    } else {
        assert(prev.take(0) =~= k.take(0));
    }
    assert(sh <= prev.len());
    let eb = entry_bytes(sh, k, v);
    assert(et == ei + eb);
    lemma_encoded_prefix(es, i + 1, interval, delta);
    assert(e =~= et + e.skip(next as int));
    assert(data.subrange(off as int, e.len() as int) =~= eb + e.skip(next as int));
    lemma_decode_entry_bytes(data, off, e.len(), prev, sh, k, v, e.skip(next as int));
}

/// How a reader splits `data`: where the restart array begins, the restart
/// count, the index type, and where the hash buckets begin and how many
/// there are. `None` where the footer does not fit the buffer.
pub open spec fn parsed_layout(data: Seq<u8>) -> Option<(nat, nat, DataBlockIndexType, nat, nat)> {
    if data.len() < 4 {
        None
    } else {
        let f = le_value(data.subrange(data.len() - 4, data.len() as int));
        let end0 = (data.len() - 4) as nat;
        if f >= 0x8000_0000 {
            let n = (f - 0x8000_0000) as nat;
            if end0 < 2 {
                None
            } else {
                let nb = le_value(data.subrange(end0 - 2, end0 as int));
                if nb == 0 || nb + 2 > end0 {
                    None
                } else {
                    let end = (end0 - 2 - nb) as nat;
                    if n > end / 4 {
                        None
                    } else {
                        Some(((end - 4 * n) as nat, n, DataBlockIndexType::DataBlockBinaryAndHash, end, nb))
                    }
                }
            }
        } else {
            if f > end0 / 4 {
                None
            } else {
                Some(((end0 - 4 * f) as nat, f, DataBlockIndexType::DataBlockBinarySearch, 0, 0))
            }
        }
    }
}

/// A finished block opens with its restart array right after the entries
/// the builder wrote, with the builder's restart count and index type.
pub proof fn lemma_finished_block_layout(b: &BlockBuilder)
    requires
        b.wf(),
    ensures
        parsed_layout(b.spec_block()) matches Some((ro, n, t, _ho, _nb)) && ro
            == b.spec_encoded().len() && n == b.spec_restarts().len() && t == if b.spec_keeps_hash_index() {
            DataBlockIndexType::DataBlockBinaryAndHash
        } else {
            DataBlockIndexType::DataBlockBinarySearch
        },
{
    b.lemma_wf_facts();
    let e = b.spec_encoded();
    let rs = b.spec_restarts();
    let n = rs.len();
    let keep = b.spec_keeps_hash_index();
    let nb = b.spec_hash_buckets();
    let h = if keep {
        serialized_index(crate::block_builder::hash_pairs(b.spec_entries(), b.spec_interval()), nb)
    } else {
        Seq::empty()
    };
    let t = if keep {
        DataBlockIndexType::DataBlockBinaryAndHash
    } else {
        DataBlockIndexType::DataBlockBinarySearch
    };
    let fv = packed_footer(t, n as u32);
    let f = fixed32_bytes(fv);
    let data = b.spec_block();
    lemma_fixed32_concat_len(rs);
    assert(data == e + fixed32_concat(rs) + h + f);
    let len = data.len();
    assert(data.subrange(len - 4, len as int) =~= f);
    lemma_fixed32_round_trip(fv);
    let end0 = (len - 4) as nat;
    if keep {
        lemma_bucket_table_len(
            crate::block_builder::hash_pairs(b.spec_entries(), b.spec_interval()),
            nb,
        );
        assert(h.len() == nb + 2);
        assert(data.subrange(end0 - 2, end0 as int) =~= seq![(nb % 256) as u8, (nb / 256) as u8]);
        let two = seq![(nb % 256) as u8, (nb / 256) as u8];
        assert(le_value(two) == nb) by {
            reveal_with_fuel(le_value, 3);
            assert(two.drop_first() =~= seq![(nb / 256) as u8]);
            assert(two.drop_first().drop_first().len() == 0);
        }
        assert(fv == n + 0x8000_0000);
    } else {
        assert(fv == n);
    }
}

/// Round trip: in the bytes that `finish` returns, each entry, decoded
/// against the key before it (nothing for the first) at the offset where
/// the one before it ended (zero for the first), is the pair that was added
/// at that index, value included. Together with `lemma_finished_block_layout`,
/// and the contracts of `seek_to_first` and `next`, iterating a finished
/// block opened without a sequence-number override yields exactly the added
/// pairs, for every restart interval, with or without delta encoding.
pub proof fn lemma_block_round_trip(b: &BlockBuilder, i: int)
    requires
        b.wf(),
        0 <= i < b.spec_entries().len(),
    ensures
        ({
            let es = b.spec_entries();
            let off = encoded_entries(es.take(i), b.spec_interval(), b.spec_delta()).len();
            let next = encoded_entries(es.take(i + 1), b.spec_interval(), b.spec_delta()).len();
            let prev = if i == 0 {
                Seq::<u8>::empty()
            } else {
                es[i - 1].0
            };
            let vs = (next - es[i].1.len()) as nat;
            &&& spec_decode_entry(b.spec_block(), off, b.spec_encoded().len(), prev) == Some(
                (es[i].0, vs, es[i].1.len(), next),
            )
            &&& b.spec_block().subrange(vs as int, next as int) == es[i].1
        }),
{
    b.lemma_wf_facts();
    let e = b.spec_encoded();
    let rest = b.spec_block().skip(e.len() as int);
    assert(b.spec_block() =~= e + rest);
    let es = b.spec_entries();
    let prev = if i == 0 {
        Seq::<u8>::empty()
    } else {
        es[i - 1].0
    };
    lemma_decode_encoded_entry(es, b.spec_interval(), b.spec_delta(), rest, i, prev);
}

/// Where the restart keys ascend (a later one orders before `target` only
/// if every earlier one does), exactly one restart point satisfies the
/// boundary condition that both the hash lookup and the binary search of
/// `seek` establish; so both start the same forward scan and `seek` lands
/// on the same entry whichever path it takes.
pub proof fn lemma_restart_boundary_unique(
    b: &Block,
    cmp: KeyComparator,
    target: Seq<u8>,
    r1: nat,
    r2: nat,
)
    requires
        forall|j: nat, k: nat|
            j < k < b.spec_num_restarts() && #[trigger] b.spec_restart_key_less(cmp, k, target)
                ==> #[trigger] b.spec_restart_key_less(cmp, j, target),
        b.spec_restart_boundary(cmp, r1, target),
        b.spec_restart_boundary(cmp, r2, target),
    ensures
        r1 == r2,
{
    if r1 < r2 {
        assert(b.spec_restart_key_less(cmp, r2, target));
        if r1 + 1 < r2 {
            assert(b.spec_restart_key_less(cmp, r1 + 1, target));
        }
    }
    if r2 < r1 {
        assert(b.spec_restart_key_less(cmp, r1, target));
        if r2 + 1 < r1 {
            assert(b.spec_restart_key_less(cmp, r2 + 1, target));
        }
    }
}

/// Index of the first entry, from `i` on, whose key does not order before
/// `target`.
pub open spec fn first_not_less(
    es: Seq<(Seq<u8>, Seq<u8>)>,
    cmp: KeyComparator,
    target: Seq<u8>,
    i: nat,
) -> Option<nat>
    decreases es.len() - i,
{
    if i >= es.len() {
        None
    } else if cmp.spec_compare(es[i as int].0, target) != Ordering::Less {
        Some(i)
    } else {
        first_not_less(es, cmp, target, i + 1)
    }
}

/// `first_not_less` finds the first such entry, and `None` means that every
/// entry from `i` on orders before `target`.
pub proof fn lemma_first_not_less(
    es: Seq<(Seq<u8>, Seq<u8>)>,
    cmp: KeyComparator,
    target: Seq<u8>,
    i: nat,
)
    requires
        i <= es.len(),
    ensures
        match first_not_less(es, cmp, target, i) {
            Some(m) => i <= m < es.len() && cmp.spec_compare(es[m as int].0, target)
                != Ordering::Less && forall|j: int|
                i <= j < m ==> #[trigger] cmp.spec_compare(es[j].0, target) == Ordering::Less,
            None => forall|j: int|
                i <= j < es.len() ==> #[trigger] cmp.spec_compare(es[j].0, target) == Ordering::Less,
        },
    decreases es.len() - i,
{
    if i < es.len() && cmp.spec_compare(es[i as int].0, target) == Ordering::Less {
        lemma_first_not_less(es, cmp, target, i + 1);
    }
}

proof fn lemma_first_not_less_skip(
    es: Seq<(Seq<u8>, Seq<u8>)>,
    cmp: KeyComparator,
    target: Seq<u8>,
    a: nat,
    b: nat,
)
    requires
        a <= b <= es.len(),
        forall|j: int| a <= j < b ==> #[trigger] cmp.spec_compare(es[j].0, target) == Ordering::Less,
    ensures
        first_not_less(es, cmp, target, a) == first_not_less(es, cmp, target, b),
    decreases b - a,
{
    if a < b {
        lemma_first_not_less_skip(es, cmp, target, a + 1, b);
    }
}

/// What a scan reports when it ends on entry `m`: its key, its offset,
/// where its value starts, the value's length, and where the next entry
/// starts.
pub open spec fn scan_result(b: &BlockBuilder, m: int) -> (Seq<u8>, nat, nat, nat, nat) {
    (
        b.spec_entries()[m].0,
        entry_offset(b, m),
        (entry_offset(b, m + 1) - b.spec_entries()[m].1.len()) as nat,
        b.spec_entries()[m].1.len(),
        entry_offset(b, m + 1),
    )
}

/// Where entry `i` of a builder's block starts.
pub open spec fn entry_offset(b: &BlockBuilder, i: int) -> nat {
    encoded_entries(b.spec_entries().take(i), b.spec_interval(), b.spec_delta()).len()
}

/// The key that entry `i` is decoded against.
pub open spec fn key_before(b: &BlockBuilder, i: int) -> Seq<u8> {
    if i == 0 {
        Seq::empty()
    } else {
        b.spec_entries()[i - 1].0
    }
}

#[verifier::rlimit(60)]
proof fn lemma_scan_entries(b: &BlockBuilder, blk: &Block, cmp: KeyComparator, target: Seq<u8>, i: nat)
    requires
        b.wf(),
        blk.spec_data() == b.spec_block(),
        blk.spec_restart_offset() == b.spec_encoded().len(),
        blk.spec_global_seqno() == DISABLE_GLOBAL_SEQUENCE_NUMBER,
        i <= b.spec_entries().len(),
    ensures
        blk.spec_scan(cmp, entry_offset(b, i as int), key_before(b, i as int), target) == match first_not_less(
            b.spec_entries(),
            cmp,
            target,
            i,
        ) {
            Some(m) => Some(scan_result(b, m as int)),
            None => None,
        },
    decreases b.spec_entries().len() - i,
{
    let es = b.spec_entries();
    let n = es.len();
    if i == n {
        assert(es.take(n as int) =~= es);
    } else {
        b.lemma_wf_facts();
        lemma_block_round_trip(b, i as int);
        lemma_encoded_prefix(es, (i + 1) as int, b.spec_interval(), b.spec_delta());
        let t = es.take((i + 1) as int);
        assert(t.drop_last() =~= es.take(i as int));
        let sh = shared_len(t, i as int, b.spec_interval(), b.spec_delta());
        crate::coding::lemma_varint_bytes_shape(sh);
        assert(entry_offset(b, (i + 1) as int) > entry_offset(b, i as int));
        if cmp.spec_compare(es[i as int].0, target) == Ordering::Less {
            lemma_scan_entries(b, blk, cmp, target, i + 1);
        }
    }
}

/// Restart point `r` of a finished block holds the start of an entry that
/// begins a restart run (the first entry for the first point).
proof fn lemma_restart_point_entry(b: &BlockBuilder, blk: &Block, r: nat) -> (idx: nat)
    requires
        b.wf(),
        blk.spec_data() == b.spec_block(),
        blk.spec_restart_offset() == b.spec_encoded().len(),
        r < b.spec_restarts().len(),
    ensures
        idx <= b.spec_entries().len(),
        b.spec_entries().len() > 0 ==> idx < b.spec_entries().len(),
        run_pos(idx, b.spec_interval()) == 0,
        r == 0 ==> idx == 0,
        blk.spec_restart_point(r) == entry_offset(b, idx as int),
{
    let es = b.spec_entries();
    let interval = b.spec_interval();
    let delta = b.spec_delta();
    let e = b.spec_encoded();
    let rs = b.spec_restarts();
    b.lemma_wf_facts();
    crate::block_builder::lemma_restart_entries(es, interval, delta);
    assert(crate::block_builder::has_restart_entry(es, interval, delta, r as int));
    let idx = choose|idx: nat| #[trigger] crate::block_builder::restart_entry(es, interval, delta, r as int, idx);
    lemma_encoded_prefix(es, idx as int, interval, delta);
    crate::block_builder::lemma_fixed32_concat_at(rs, r as int);
    let data = b.spec_block();
    let ri = r as int;
    assert(data.subrange(e.len() + 4 * ri, e.len() + 4 * ri + 4) =~= fixed32_concat(rs).subrange(
        4 * ri,
        4 * ri + 4,
    ));
    lemma_fixed32_round_trip(rs[ri]);
    idx
}

/// At an entry that begins a restart run, decoding against nothing gives
/// what decoding against the previous key gives.
proof fn lemma_scan_from_restart(
    b: &BlockBuilder,
    blk: &Block,
    cmp: KeyComparator,
    target: Seq<u8>,
    idx: nat,
)
    requires
        b.wf(),
        blk.spec_data() == b.spec_block(),
        blk.spec_restart_offset() == b.spec_encoded().len(),
        idx < b.spec_entries().len(),
        run_pos(idx, b.spec_interval()) == 0,
    ensures
        blk.spec_scan(cmp, entry_offset(b, idx as int), Seq::empty(), target) == blk.spec_scan(
            cmp,
            entry_offset(b, idx as int),
            key_before(b, idx as int),
            target,
        ),
        spec_decode_entry(blk.spec_data(), entry_offset(b, idx as int), blk.spec_restart_offset(), Seq::empty()) matches Some((k, _vs, _vl, _nx)) && k == b.spec_entries()[idx as int].0,
{
    let es = b.spec_entries();
    let e = b.spec_encoded();
    b.lemma_wf_facts();
    let rest = b.spec_block().skip(e.len() as int);
    assert(b.spec_block() =~= e + rest);
    lemma_decode_encoded_entry(es, b.spec_interval(), b.spec_delta(), rest, idx as int, Seq::empty());
    lemma_decode_encoded_entry(es, b.spec_interval(), b.spec_delta(), rest, idx as int, key_before(b, idx as int));
    lemma_encoded_prefix(es, (idx + 1) as int, b.spec_interval(), b.spec_delta());
}

/// Seek correctness: in a block finished from keys added in ascending
/// order and opened without a sequence-number override, the forward scan
/// that `seek` performs from a restart point satisfying the boundary
/// condition (the one that both its lookup paths establish) ends on the
/// first entry whose key does not order before `target`, and finds nothing
/// exactly when every key orders before it.
pub proof fn lemma_seek_finds_first_not_less(
    b: &BlockBuilder,
    blk: &Block,
    cmp: KeyComparator,
    target: Seq<u8>,
    r: nat,
)
    requires
        b.wf(),
        forall|j: int, k: int|
            0 <= j < k < b.spec_entries().len() ==> #[trigger] cmp.spec_compare(
                b.spec_entries()[j].0,
                b.spec_entries()[k].0,
            ) == Ordering::Less,
        blk.spec_data() == b.spec_block(),
        blk.spec_restart_offset() == b.spec_encoded().len(),
        blk.spec_num_restarts() == b.spec_restarts().len(),
        blk.spec_global_seqno() == DISABLE_GLOBAL_SEQUENCE_NUMBER,
        blk.spec_restart_boundary(cmp, r, target),
    ensures
        blk.spec_scan(cmp, blk.spec_restart_point(r), Seq::empty(), target) == match first_not_less(
            b.spec_entries(),
            cmp,
            target,
            0,
        ) {
            Some(m) => Some(scan_result(b, m as int)),
            None => None,
        },
        first_not_less(b.spec_entries(), cmp, target, 0) matches Some(m) ==> ({
            let (k, off, vs, vl, nx) = scan_result(b, m as int);
            blk.spec_data().subrange(vs as int, (vs + vl) as int) == b.spec_entries()[m as int].1
        }),
{
    let es = b.spec_entries();
    let n = es.len();
    lemma_first_not_less(es, cmp, target, 0);
    if let Some(m) = first_not_less(es, cmp, target, 0) {
        lemma_block_round_trip(b, m as int);
    }
    let idx = lemma_restart_point_entry(b, blk, r);
    if n == 0 {
        assert(es.take(0) =~= es);
    } else {
        lemma_scan_from_restart(b, blk, cmp, target, idx);
        lemma_scan_entries(b, blk, cmp, target, idx);
        if r > 0 {
            assert(cmp.spec_compare(es[idx as int].0, target) == Ordering::Less);
            assert forall|j: int| 0 <= j < idx implies #[trigger] cmp.spec_compare(es[j].0, target)
                == Ordering::Less by {
                assert(cmp.spec_compare(es[j].0, es[idx as int].0) == Ordering::Less);
                crate::format::lemma_compare_trans(cmp, es[j].0, es[idx as int].0, target);
            }
            lemma_first_not_less_skip(es, cmp, target, 0, idx);
        }
    }
}

/// Hash-index equivalence: two blocks finished from the same ascending
/// entries, with one restart interval and one encoding, whatever index type
/// and load factor each was built with, and opened without an override:
/// for every target the scans that `seek` performs on each, from any
/// restart point that satisfies the boundary condition, end on the same key
/// at the same offset with the same value bytes, or both find nothing.
pub proof fn lemma_hash_index_equivalence(
    b1: &BlockBuilder,
    blk1: &Block,
    r1: nat,
    b2: &BlockBuilder,
    blk2: &Block,
    r2: nat,
    cmp: KeyComparator,
    target: Seq<u8>,
)
    requires
        b1.wf(),
        b2.wf(),
        b1.spec_entries() == b2.spec_entries(),
        b1.spec_interval() == b2.spec_interval(),
        b1.spec_delta() == b2.spec_delta(),
        forall|j: int, k: int|
            0 <= j < k < b1.spec_entries().len() ==> #[trigger] cmp.spec_compare(
                b1.spec_entries()[j].0,
                b1.spec_entries()[k].0,
            ) == Ordering::Less,
        blk1.spec_data() == b1.spec_block(),
        blk1.spec_restart_offset() == b1.spec_encoded().len(),
        blk1.spec_num_restarts() == b1.spec_restarts().len(),
        blk1.spec_global_seqno() == DISABLE_GLOBAL_SEQUENCE_NUMBER,
        blk1.spec_restart_boundary(cmp, r1, target),
        blk2.spec_data() == b2.spec_block(),
        blk2.spec_restart_offset() == b2.spec_encoded().len(),
        blk2.spec_num_restarts() == b2.spec_restarts().len(),
        blk2.spec_global_seqno() == DISABLE_GLOBAL_SEQUENCE_NUMBER,
        blk2.spec_restart_boundary(cmp, r2, target),
    ensures
        blk1.spec_scan(cmp, blk1.spec_restart_point(r1), Seq::empty(), target) == blk2.spec_scan(
            cmp,
            blk2.spec_restart_point(r2),
            Seq::empty(),
            target,
        ),
        blk1.spec_scan(cmp, blk1.spec_restart_point(r1), Seq::empty(), target) matches Some(
            (_k, _off, vs, vl, _nx),
        ) ==> blk1.spec_data().subrange(vs as int, (vs + vl) as int) == blk2.spec_data().subrange(
            vs as int,
            (vs + vl) as int,
        ),
{
    lemma_seek_finds_first_not_less(b1, blk1, cmp, target, r1);
    lemma_seek_finds_first_not_less(b2, blk2, cmp, target, r2);
    assert forall|m: int| 0 <= m <= b1.spec_entries().len() implies entry_offset(b1, m)
        == entry_offset(b2, m) by {}
    lemma_first_not_less(b1.spec_entries(), cmp, target, 0);
    if let Some(m) = first_not_less(b1.spec_entries(), cmp, target, 0) {
        assert(scan_result(b1, m as int) == scan_result(b2, m as int));
    }
}

/// The entry an iterator stands on after `seek_to_first` and `i` calls of
/// `next`, following their contracts: its stored key, where its value
/// starts, the value's length, and where the next entry starts; `None` once
/// the iterator is invalid.
pub open spec fn walk(blk: &Block, i: nat) -> Option<(Seq<u8>, nat, nat, nat)>
    decreases i,
{
    if i == 0 {
        if 0 < blk.spec_restart_offset() {
            spec_decode_entry(blk.spec_data(), 0, blk.spec_restart_offset(), Seq::empty())
        } else {
            None
        }
    } else {
        match walk(blk, (i - 1) as nat) {
            Some((k, _vs, _vl, nx)) => if nx < blk.spec_restart_offset() {
                spec_decode_entry(blk.spec_data(), nx, blk.spec_restart_offset(), k)
            } else {
                None
            },
            None => None,
        }
    }
}

/// Round trip over a whole block: for a block finished from entries added
/// in any order, with any restart interval, with or without delta encoding,
/// and opened so that its restart array starts after the entries (as
/// `Block::new` does, by `lemma_finished_block_layout`), the iterator
/// stands on the `i`-th added pair, key and value byte for byte, after `i`
/// steps, and is invalid after as many steps as there are entries.
pub proof fn lemma_walk_round_trip(b: &BlockBuilder, blk: &Block, i: nat)
    requires
        b.wf(),
        blk.spec_data() == b.spec_block(),
        blk.spec_restart_offset() == b.spec_encoded().len(),
        i <= b.spec_entries().len(),
    ensures
        i < b.spec_entries().len() ==> ({
            let (k, off, vs, vl, nx) = scan_result(b, i as int);
            &&& walk(blk, i) == Some((k, vs, vl, nx))
            &&& blk.spec_data().subrange(vs as int, (vs + vl) as int) == b.spec_entries()[i as int].1
        }),
        i == b.spec_entries().len() ==> walk(blk, i) is None,
    decreases i,
{
    let es = b.spec_entries();
    let n = es.len();
    b.lemma_wf_facts();
    assert(es.take(0) =~= Seq::<(Seq<u8>, Seq<u8>)>::empty());
    assert(es.take(n as int) =~= es);
    if i < n {
        lemma_block_round_trip(b, i as int);
        lemma_encoded_prefix(es, (i + 1) as int, b.spec_interval(), b.spec_delta());
        let t = es.take((i + 1) as int);
        assert(t.drop_last() =~= es.take(i as int));
        let sh = shared_len(t, i as int, b.spec_interval(), b.spec_delta());
        crate::coding::lemma_varint_bytes_shape(sh);
        assert(entry_offset(b, (i + 1) as int) > entry_offset(b, i as int));
    }
    if i > 0 {
        lemma_walk_round_trip(b, blk, (i - 1) as nat);
    }
}

/// A finished block opened for reading.
pub struct Block {
    data: Vec<u8>,
    restart_offset: usize,
    num_restarts: usize,
    index_type: DataBlockIndexType,
    hash_offset: usize,
    num_buckets: usize,
    global_seqno: u64,
    footer_parsed: bool,
}

impl Block {
    pub closed spec fn spec_data(&self) -> Seq<u8> {
        self.data@
    }

    /// Where the entry region ends and the restart array begins.
    pub closed spec fn spec_restart_offset(&self) -> nat {
        self.restart_offset as nat
    }

    pub closed spec fn spec_num_restarts(&self) -> nat {
        self.num_restarts as nat
    }

    pub closed spec fn spec_global_seqno(&self) -> u64 {
        self.global_seqno
    }

    pub closed spec fn spec_index_type(&self) -> DataBlockIndexType {
        self.index_type
    }

    /// The byte offset recorded by restart point `j`.
    pub open spec fn spec_restart_point(&self, j: nat) -> nat {
        le_value(
            self.spec_data().subrange(
                (self.spec_restart_offset() + 4 * j) as int,
                (self.spec_restart_offset() + 4 * j + 4) as int,
            ),
        )
    }

    /// Whether the key at restart point `j` orders before `target`; false
    /// where that entry cannot be decoded.
    pub open spec fn spec_restart_key_less(
        &self,
        cmp: KeyComparator,
        j: nat,
        target: Seq<u8>,
    ) -> bool {
        let off = self.spec_restart_point(j);
        off <= self.spec_restart_offset() && match spec_decode_entry(
            self.spec_data(),
            off,
            self.spec_restart_offset(),
            Seq::empty(),
        ) {
            Some((k, _vs, _vl, _nx)) => cmp.spec_compare(shown_key(k, self.spec_global_seqno()), target)
                == Ordering::Less,
            None => false,
        }
    }

    /// Restart point `r` is where a search for `target` starts: its key
    /// orders before `target` (or it is the first) and the next one's does
    /// not (or it is the last).
    pub open spec fn spec_restart_boundary(&self, cmp: KeyComparator, r: nat, target: Seq<u8>) -> bool {
        &&& r < self.spec_num_restarts()
        &&& r == 0 || self.spec_restart_key_less(cmp, r, target)
        &&& r + 1 >= self.spec_num_restarts() || !self.spec_restart_key_less(cmp, r + 1, target)
    }

    /// Scanning forward from the entry at `off` (decoded against `prev`):
    /// the first entry whose shown key does not order before `target`, as
    /// its stored key, its offset, where its value starts, the value's
    /// length and where the next entry starts; `None` where the entries end
    /// first.
    pub open spec fn spec_scan(
        &self,
        cmp: KeyComparator,
        off: nat,
        prev: Seq<u8>,
        target: Seq<u8>,
    ) -> Option<(Seq<u8>, nat, nat, nat, nat)>
        decreases self.spec_restart_offset() - off,
    {
        if off >= self.spec_restart_offset() {
            None
        } else {
            match spec_decode_entry(self.spec_data(), off, self.spec_restart_offset(), prev) {
                None => None,
                Some((k, vs, vl, nx)) => if cmp.spec_compare(
                    shown_key(k, self.spec_global_seqno()),
                    target,
                ) != Ordering::Less {
                    Some((k, off, vs, vl, nx))
                } else if nx <= off || nx > self.spec_restart_offset() {
                    None
                } else {
                    self.spec_scan(cmp, nx, k, target)
                },
            }
        }
    }

    pub closed spec fn wf(&self) -> bool {
        &&& self.restart_offset + 4 * self.num_restarts <= self.data@.len()
        &&& self.hash_offset + self.num_buckets <= self.data@.len()
        &&& self.num_restarts <= 0x7fff_ffff
        &&& self.data@.len() <= usize::MAX - 16
        &&& self.global_seqno == DISABLE_GLOBAL_SEQUENCE_NUMBER || self.global_seqno
            <= MAX_SEQUENCE_NUMBER
        &&& self.index_type == DataBlockIndexType::DataBlockBinaryAndHash ==> self.num_buckets > 0
        &&& self.footer_parsed == parsed_layout(self.data@) is Some
    }

    /// Opens a block. The footer gives the restart count and the index type;
    /// a buffer whose footer does not fit it opens as a block without entries.
    pub fn new(data: Vec<u8>, global_seqno: u64) -> (r: Block)
        requires
            global_seqno == DISABLE_GLOBAL_SEQUENCE_NUMBER || global_seqno <= MAX_SEQUENCE_NUMBER,
            data@.len() <= usize::MAX - 16,
        ensures
            r.wf(),
            r.spec_data() == data@,
            r.spec_global_seqno() == global_seqno,
            match parsed_layout(data@) {
                Some((ro, n, t, _ho, _nb)) => r.spec_restart_offset() == ro && r.spec_num_restarts()
                    == n && r.spec_index_type() == t,
                None => r.spec_restart_offset() == 0 && r.spec_num_restarts() == 0,
            },
    {
        let len = data.len();
        let mut b = Block {
            data,
            restart_offset: 0,
            num_restarts: 0,
            index_type: DataBlockIndexType::DataBlockBinarySearch,
            hash_offset: 0,
            num_buckets: 0,
            global_seqno,
            footer_parsed: false,
        };
        if len < 4 {
            return b;
        }
        let footer = decode_fixed_uint32(slice_subrange(b.data.as_slice(), len - 4, len));
        proof {
            assert(b.data@.subrange(len - 4, len as int).take(4) =~= b.data@.subrange(
                len - 4,
                len as int,
            ));
        }
        let (index_type, n) = unpack_index_type_and_num_restarts(footer);
        let mut end = len - 4;
        if index_type == DataBlockIndexType::DataBlockBinaryAndHash {
            if end < 2 {
                return b;
            }
            let nb = decode_fixed_uint16(slice_subrange(b.data.as_slice(), end - 2, end)) as usize;
            proof {
                assert(b.data@.subrange(end - 2, end as int).take(2) =~= b.data@.subrange(
                    end - 2,
                    end as int,
                ));
            }
            if nb == 0 || nb + 2 > end {
                return b;
            }
            b.hash_offset = end - 2 - nb;
            b.num_buckets = nb;
            end = end - 2 - nb;
        }
        if (n as usize) > end / 4 {
            b.hash_offset = 0;
            b.num_buckets = 0;
            return b;
        }
        b.index_type = index_type;
        b.num_restarts = n as usize;
        b.restart_offset = end - 4 * (n as usize);
        b.footer_parsed = true;
        b
    }

    /// Whether the footer fitted the buffer. A block opened from a buffer
    /// whose footer does not fit reads as having no entries; this tells such
    /// a corrupt block from a well-formed empty one.
    pub fn footer_parsed(&self) -> (r: bool)
        requires
            self.wf(),
        ensures
            r == parsed_layout(self.spec_data()) is Some,
    {
        self.footer_parsed
    }

    /// The offset recorded by restart point `j`.
    fn restart_point(&self, j: usize) -> (r: usize)
        requires
            self.wf(),
            j < self.spec_num_restarts(),
        ensures
            r == self.spec_restart_point(j as nat),
    {
        let start = self.restart_offset + 4 * j;
        let v = decode_fixed_uint32(slice_subrange(self.data.as_slice(), start, start + 4));
        proof {
            assert(self.data@.subrange(start as int, start + 4).take(4) =~= self.data@.subrange(
                start as int,
                start + 4,
            ));
        }
        v as usize
    }

    /// An iterator over this block's entries, ordered by `comparator`.
    pub fn new_data_iterator(&self, comparator: KeyComparator) -> (r: DataBlockIter<'_>)
        requires
            self.wf(),
        ensures
            r.wf(),
            !r.spec_valid(),
            r.spec_block() == self,
    {
        DataBlockIter {
            block: self,
            comparator,
            current: 0,
            next_offset: 0,
            raw_key: Vec::new(),
            key: Vec::new(),
            value_start: 0,
            value_len: 0,
            valid: false,
        }
    }
}

/// Decodes the entry at `off` against the previous key `prev`.
fn decode_entry(data: &[u8], off: usize, end: usize, prev: &[u8]) -> (r: Option<
    (Vec<u8>, usize, usize, usize),
>)
    requires
        off <= end <= data@.len(),
        data@.len() <= usize::MAX - 16,
    ensures
        match spec_decode_entry(data@, off as nat, end as nat, prev@) {
            Some((k, vs, vl, nx)) => r matches Some((kk, a, b, c)) && kk@ == k && a == vs && b
                == vl && c == nx,
            None => r is None,
        },
{
    let s = slice_subrange(data, off, end);
    let mut p: usize = 0;
    let shared = match get_var_uint32(s, &mut p) {
        Some(v) => v as usize,
        None => return None,
    };
    let ghost l1 = p as nat;
    let s1 = slice_subrange(s, p, s.len());
    proof {
        assert(s1@ =~= s@.skip(l1 as int));
    }
    let non_shared = match get_var_uint32(s1, &mut p) {
        Some(v) => v as usize,
        None => return None,
    };
    let s2 = slice_subrange(s, p, s.len());
    proof {
        assert(s2@ =~= s@.skip(p as int));
    }
    let value_len = match get_var_uint32(s2, &mut p) {
        Some(v) => v as usize,
        None => return None,
    };
    let ks = p;
    if shared > prev.len() || non_shared > s.len() - ks || value_len > s.len() - ks - non_shared {
        return None;
    }
    let mut key: Vec<u8> = Vec::new();
    append_bytes(&mut key, slice_subrange(prev, 0, shared));
    append_bytes(&mut key, slice_subrange(s, ks, ks + non_shared));
    proof {
        assert(key@ =~= prev@.take(shared as int) + s@.subrange(ks as int, ks + non_shared));
    }
    Some((key, off + ks + non_shared, value_len, off + ks + non_shared + value_len))
}

/// The key shown for a stored key under the block's sequence-number override.
pub fn apply_global_seqno(k: &[u8], global_seqno: u64) -> (r: Vec<u8>)
    requires
        global_seqno == DISABLE_GLOBAL_SEQUENCE_NUMBER || global_seqno <= MAX_SEQUENCE_NUMBER,
    ensures
        r@ == shown_key(k@, global_seqno),
{
    let mut out: Vec<u8> = Vec::new();
    if global_seqno == DISABLE_GLOBAL_SEQUENCE_NUMBER || k.len() < 8 {
        append_bytes(&mut out, k);
        return out;
    }
    let tag = k[k.len() - 8];
    let packed: u64 = global_seqno * 256 + tag as u64;
    append_bytes(&mut out, extract_user_key(k));
    put_fixed32(&mut out, (packed % 0x1_0000_0000) as u32);
    put_fixed32(&mut out, (packed / 0x1_0000_0000) as u32);
    proof {
        assert(out@ =~= shown_key(k@, global_seqno));
    }
    out
}

/// With an override, every shown key carries the override as its sequence
/// number and keeps its user key and type tag; without one, the stored key
/// is shown unchanged.
pub proof fn lemma_global_seqno_overlay(k: Seq<u8>, global_seqno: u64)
    requires
        global_seqno == DISABLE_GLOBAL_SEQUENCE_NUMBER || global_seqno <= MAX_SEQUENCE_NUMBER,
    ensures
        global_seqno == DISABLE_GLOBAL_SEQUENCE_NUMBER ==> shown_key(k, global_seqno) == k,
        global_seqno != DISABLE_GLOBAL_SEQUENCE_NUMBER && k.len() >= 8 ==> {
            let s = shown_key(k, global_seqno);
            &&& s.len() == k.len()
            &&& user_key(s) == user_key(k)
            &&& crate::format::trailer(s) == global_seqno * 256 + k[k.len() - 8]
        },
{
    if global_seqno != DISABLE_GLOBAL_SEQUENCE_NUMBER && k.len() >= 8 {
        let v = (global_seqno * 256 + k[k.len() - 8]) as u64;
        let s = shown_key(k, global_seqno);
        let lo = (v % 0x1_0000_0000) as u32;
        let hi = (v / 0x1_0000_0000) as u32;
        lemma_fixed32_round_trip(lo);
        lemma_fixed32_round_trip(hi);
        assert(user_key(s) =~= user_key(k));
        assert(s.skip(s.len() - 8) =~= fixed32_bytes(lo) + fixed32_bytes(hi));
        lemma_le_value_concat(fixed32_bytes(lo), fixed32_bytes(hi));
        assert(crate::coding::pow256(4) == 0x1_0000_0000) by {
            reveal_with_fuel(crate::coding::pow256, 5);
        }
    }
}

/// A little-endian value read from `a + b` is `a`'s plus `b`'s shifted up.
pub proof fn lemma_le_value_concat(a: Seq<u8>, b: Seq<u8>)
    ensures
        le_value(a + b) == le_value(a) + crate::coding::pow256(a.len()) * le_value(b),
    decreases a.len(),
{
    if a.len() > 0 {
        assert((a + b).drop_first() =~= a.drop_first() + b);
        lemma_le_value_concat(a.drop_first(), b);
        let p = crate::coding::pow256((a.len() - 1) as nat);
        assert(256 * (le_value(a.drop_first()) + p * le_value(b)) == 256 * le_value(a.drop_first())
            + (256 * p) * le_value(b)) by (nonlinear_arith);
        assert((a + b)[0] == a[0]);
        assert(le_value(a + b) == (a + b)[0] as nat + 256 * le_value((a + b).drop_first()));
        assert(le_value(a) == a[0] as nat + 256 * le_value(a.drop_first()));
        assert(crate::coding::pow256(a.len()) == 256 * p);
    } else {
        assert(a + b =~= b);
        assert(le_value(a) == 0);
        assert(crate::coding::pow256(0) == 1);
    }
}

/// A cursor over one block's entries.
pub struct DataBlockIter<'a> {
    block: &'a Block,
    comparator: KeyComparator,
    current: usize,
    next_offset: usize,
    raw_key: Vec<u8>,
    key: Vec<u8>,
    value_start: usize,
    value_len: usize,
    valid: bool,
}

impl<'a> DataBlockIter<'a> {
    pub closed spec fn spec_block(&self) -> &'a Block {
        self.block
    }

    pub closed spec fn spec_valid(&self) -> bool {
        self.valid
    }

    /// The key as stored, before any sequence-number override.
    pub closed spec fn spec_raw_key(&self) -> Seq<u8> {
        self.raw_key@
    }

    /// Where the current entry starts.
    pub closed spec fn spec_current(&self) -> nat {
        self.current as nat
    }

    /// Where the entry after the current one starts.
    pub closed spec fn spec_next_offset(&self) -> nat {
        self.next_offset as nat
    }

    pub closed spec fn spec_comparator(&self) -> KeyComparator {
        self.comparator
    }

    pub open spec fn spec_key(&self) -> Seq<u8> {
        shown_key(self.spec_raw_key(), self.spec_block().spec_global_seqno())
    }

    /// Where the current value starts.
    pub closed spec fn spec_value_start(&self) -> nat {
        self.value_start as nat
    }

    pub closed spec fn spec_value_len(&self) -> nat {
        self.value_len as nat
    }

    pub closed spec fn spec_value(&self) -> Seq<u8> {
        self.block.data@.subrange(
            self.value_start as int,
            self.value_start + self.value_len,
        )
    }

    pub closed spec fn wf(&self) -> bool {
        &&& self.block.wf()
        &&& self.valid ==> {
            &&& self.value_start + self.value_len <= self.block.restart_offset
            &&& self.next_offset == self.value_start + self.value_len
            &&& self.current < self.next_offset <= self.block.restart_offset
            &&& self.key@ == shown_key(self.raw_key@, self.block.global_seqno)
        }
    }

    pub fn valid(&self) -> (r: bool)
        ensures
            r == self.spec_valid(),
    {
        self.valid
    }

    /// The current key, with the block's sequence-number override applied.
    pub fn key(&self) -> (r: &[u8])
        requires
            self.wf(),
            self.spec_valid(),
        ensures
            r@ == self.spec_key(),
    {
        self.key.as_slice()
    }

    /// The current value.
    pub fn value(&self) -> (r: &[u8])
        requires
            self.wf(),
            self.spec_valid(),
        ensures
            r@ == self.spec_value(),
    {
        slice_subrange(self.block.data.as_slice(), self.value_start, self.value_start + self.value_len)
    }

    /// Decodes the entry at `off` against `prev` and moves there, or
    /// becomes invalid where no entry can be decoded.
    fn step_to(&mut self, off: usize, prev: &[u8])
        requires
            old(self).wf(),
            off <= old(self).spec_block().spec_restart_offset(),
        ensures
            final(self).wf(),
            final(self).spec_block() == old(self).spec_block(),
            final(self).spec_comparator() == old(self).spec_comparator(),
            ({
                let b = old(self).spec_block();
                match spec_decode_entry(b.spec_data(), off as nat, b.spec_restart_offset(), prev@) {
                    Some((k, vs, vl, nx)) => off < b.spec_restart_offset() && final(self).spec_valid()
                        && final(self).spec_raw_key() == k && final(self).spec_current() == off
                        && final(self).spec_next_offset() == nx && final(self).spec_value()
                        == b.spec_data().subrange(vs as int, (vs + vl) as int)
                        && final(self).spec_value_start() == vs && final(self).spec_value_len() == vl,
                    None => !final(self).spec_valid(),
                }
            }),
    {
        if off >= self.block.restart_offset {
            self.valid = false;
            proof {
                assert(spec_decode_entry(self.block.data@, off as nat, self.block.restart_offset as nat, prev@) is None) by {
                    let s = self.block.data@.subrange(off as int, self.block.restart_offset as int);
                    assert(s.len() == 0);
                    if bounded_varint(s, 5, 0x1_0000_0000) is Some {
                        let l = choose|l: nat| l <= 5 && crate::coding::varint_ends_at(s, l);
                    }
                }
            }
            return;
        }
        match decode_entry(self.block.data.as_slice(), off, self.block.restart_offset, prev) {
            Some((k, vs, vl, nx)) => {
                self.key = apply_global_seqno(k.as_slice(), self.block.global_seqno);
                self.raw_key = k;
                self.current = off;
                self.value_start = vs;
                self.value_len = vl;
                self.next_offset = nx;
                self.valid = true;
            },
            None => {
                self.valid = false;
            },
        }
    }

    /// Moves to the first entry; invalid where the block has none.
    pub fn seek_to_first(&mut self)
        requires
            old(self).wf(),
        ensures
            final(self).wf(),
            final(self).spec_block() == old(self).spec_block(),
            final(self).spec_comparator() == old(self).spec_comparator(),
            ({
                let b = old(self).spec_block();
                match spec_decode_entry(b.spec_data(), 0, b.spec_restart_offset(), Seq::empty()) {
                    Some((k, vs, vl, nx)) => final(self).spec_valid() && final(self).spec_raw_key()
                        == k && final(self).spec_current() == 0 && final(self).spec_next_offset()
                        == nx && final(self).spec_value() == b.spec_data().subrange(
                        vs as int,
                        (vs + vl) as int,
                    ),
                    None => !final(self).spec_valid(),
                }
            }),
    {
        let empty: Vec<u8> = Vec::new();
        self.step_to(0, empty.as_slice());
    }

    /// Moves to the next entry, decoding its key against the current one;
    /// invalid at the end of the entries.
    pub fn next(&mut self)
        requires
            old(self).wf(),
            old(self).spec_valid(),
        ensures
            final(self).wf(),
            final(self).spec_block() == old(self).spec_block(),
            final(self).spec_comparator() == old(self).spec_comparator(),
            ({
                let b = old(self).spec_block();
                match spec_decode_entry(
                    b.spec_data(),
                    old(self).spec_next_offset(),
                    b.spec_restart_offset(),
                    old(self).spec_raw_key(),
                ) {
                    Some((k, vs, vl, nx)) => final(self).spec_valid() && final(self).spec_raw_key()
                        == k && final(self).spec_current() == old(self).spec_next_offset()
                        && final(self).spec_next_offset() == nx && final(self).spec_value()
                        == b.spec_data().subrange(vs as int, (vs + vl) as int)
                        && final(self).spec_value_start() == vs && final(self).spec_value_len() == vl,
                    None => !final(self).spec_valid(),
                }
            }),
    {
        let mut prev: Vec<u8> = Vec::new();
        append_bytes(&mut prev, self.raw_key.as_slice());
        proof {
            assert(prev@ =~= self.raw_key@);
        }
        let off = self.next_offset;
        self.step_to(off, prev.as_slice());
    }

    /// Whether the current key orders before `target`.
    fn key_orders_before(&self, target: &[u8]) -> (r: bool)
        requires
            self.wf(),
            self.spec_valid(),
        ensures
            r == (self.spec_comparator().spec_compare(self.spec_key(), target@) == Ordering::Less),
    {
        let c = self.comparator.compare_key(self.key.as_slice(), target);
        matches!(c, Ordering::Less)
    }

    /// Whether the key at restart point `j` orders before `target`; false
    /// where that entry cannot be decoded.
    fn restart_key_less(&self, j: usize, target: &[u8]) -> (r: bool)
        requires
            self.wf(),
            j < self.spec_block().spec_num_restarts(),
        ensures
            r == self.spec_block().spec_restart_key_less(self.spec_comparator(), j as nat, target@),
    {
        let off = self.block.restart_point(j);
        if off > self.block.restart_offset {
            return false;
        }
        let empty: Vec<u8> = Vec::new();
        match decode_entry(self.block.data.as_slice(), off, self.block.restart_offset, empty.as_slice()) {
            Some((k, _vs, _vl, _nx)) => {
                let shown = apply_global_seqno(k.as_slice(), self.block.global_seqno);
                let c = self.comparator.compare_key(shown.as_slice(), target);
                matches!(c, Ordering::Less)
            },
            None => false,
        }
    }

    /// The last restart point whose key orders before `target`, or the
    /// first one.
    fn binary_seek(&self, target: &[u8]) -> (r: usize)
        requires
            self.wf(),
            self.spec_block().spec_num_restarts() > 0,
        ensures
            self.spec_block().spec_restart_boundary(self.spec_comparator(), r as nat, target@),
    {
        let mut left: usize = 0;
        let mut right: usize = self.block.num_restarts - 1;
        while left < right
            invariant
                self.wf(),
                left <= right < self.spec_block().spec_num_restarts(),
                left == 0 || self.spec_block().spec_restart_key_less(
                    self.spec_comparator(),
                    left as nat,
                    target@,
                ),
                right + 1 == self.spec_block().spec_num_restarts() || !self.spec_block().spec_restart_key_less(
                    self.spec_comparator(),
                    (right + 1) as nat,
                    target@,
                ),
            decreases right - left,
        {
            let mid = left + (right - left + 1) / 2;
            if self.restart_key_less(mid, target) {
                left = mid;
            } else {
                right = mid - 1;
            }
        }
        left
    }

    /// The restart point that the hash index names for `target`'s user key,
    /// where it names one and that restart point is the one a binary search
    /// would find: its key orders before `target` (or it is the first) and
    /// the next one's does not (or it is the last).
    fn hash_seek(&self, target: &[u8]) -> (r: Option<usize>)
        requires
            self.wf(),
        ensures
            r matches Some(j) ==> self.spec_block().spec_restart_boundary(
                self.spec_comparator(),
                j as nat,
                target@,
            ),
    {
        if self.block.index_type != DataBlockIndexType::DataBlockBinaryAndHash {
            return None;
        }
        let h = hash_key(extract_user_key(target));
        let idx = (h as usize) % self.block.num_buckets;
        let bucket = self.block.data[self.block.hash_offset + idx];
        if bucket == NO_ENTRY || bucket == COLLISION || (bucket as usize) >= self.block.num_restarts {
            return None;
        }
        let j = bucket as usize;
        if j > 0 && !self.restart_key_less(j, target) {
            return None;
        }
        if j + 1 < self.block.num_restarts && self.restart_key_less(j + 1, target) {
            return None;
        }
        Some(j)
    }

    /// Moves to the first entry at or after `target`, scanning forward from
    /// the restart point found through the hash index or by binary search;
    /// invalid where no such entry is found.
    pub fn seek(&mut self, target: &[u8])
        requires
            old(self).wf(),
        ensures
            final(self).wf(),
            final(self).spec_block() == old(self).spec_block(),
            final(self).spec_comparator() == old(self).spec_comparator(),
            final(self).spec_valid() ==> final(self).spec_comparator().spec_compare(
                final(self).spec_key(),
                target@,
            ) != Ordering::Less,
            old(self).spec_block().spec_num_restarts() == 0 ==> !final(self).spec_valid(),
            old(self).spec_block().spec_num_restarts() > 0 ==> exists|r: nat|
                #[trigger] old(self).spec_block().spec_restart_boundary(
                    old(self).spec_comparator(),
                    r,
                    target@,
                ) && match old(self).spec_block().spec_scan(
                    old(self).spec_comparator(),
                    old(self).spec_block().spec_restart_point(r),
                    Seq::empty(),
                    target@,
                ) {
                    Some((k, off, vs, vl, nx)) => final(self).spec_valid() && final(self).spec_raw_key()
                        == k && final(self).spec_current() == off && final(self).spec_value()
                        == old(self).spec_block().spec_data().subrange(vs as int, (vs + vl) as int)
                        && final(self).spec_next_offset() == nx,
                    None => !final(self).spec_valid(),
                },
    {
        if self.block.num_restarts == 0 {
            self.valid = false;
            return;
        }
        let start = match self.hash_seek(target) {
            Some(j) => j,
            None => self.binary_seek(target),
        };
        let ghost b = self.spec_block();
        let ghost cmp = self.spec_comparator();
        let off = self.block.restart_point(start);
        if off > self.block.restart_offset {
            self.valid = false;
            proof {
                assert(b.spec_restart_boundary(cmp, start as nat, target@));
            }
            return;
        }
        let empty: Vec<u8> = Vec::new();
        self.step_to(off, empty.as_slice());
        let mut before = self.valid && self.key_orders_before(target);
        let ghost goal = b.spec_scan(cmp, off as nat, Seq::empty(), target@);
        while before
            invariant
                self.wf(),
                self.spec_block() == b,
                self.spec_comparator() == cmp,
                b == old(self).spec_block(),
                cmp == old(self).spec_comparator(),
                before ==> self.spec_valid(),
                before == (self.spec_valid() && cmp.spec_compare(self.spec_key(), target@)
                    == Ordering::Less),
                goal == if !self.spec_valid() {
                    None
                } else if !before {
                    Some(
                        (
                            self.spec_raw_key(),
                            self.spec_current(),
                            self.spec_value_start(),
                            self.spec_value_len(),
                            self.spec_next_offset(),
                        ),
                    )
                } else {
                    b.spec_scan(cmp, self.spec_next_offset(), self.spec_raw_key(), target@)
                },
                !before ==> (self.spec_valid() ==> self.spec_comparator().spec_compare(
                    self.spec_key(),
                    target@,
                ) != Ordering::Less),
            decreases (if self.spec_valid() {
                self.spec_block().spec_restart_offset() + 1 - self.spec_current()
            } else {
                0
            }),
        {
            self.next();
            before = self.valid && self.key_orders_before(target);
        }
        proof {
            assert(b.spec_restart_boundary(cmp, start as nat, target@));
        }
    }
}

} // verus!
