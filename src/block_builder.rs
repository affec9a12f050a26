use vstd::prelude::*;
use vstd::slice::{slice_subrange, slice_to_vec};
use crate::coding::{
    append_bytes, difference_offset, fixed32_bytes, is_common_prefix_len, put_fixed32,
    put_var_uint32, put_varint32varint32, varint_bytes,
};
use crate::format::{extract_user_key, key_hash, user_key};
use crate::hash_index::{
    bucket_count, serialized_index, DataBlockHashIndexBuilder, MAX_HASH_BUCKETS,
    MAX_RESTART_SUPPORTED_BY_HASH_INDEX,
};

verus! {

/// Default load factor target of the hash index, in percent.
pub const DEFAULT_HASH_TABLE_UTIL_RATIO: u32 = 75;

/// A block whose estimated size reaches this keeps no hash index.
pub const MAX_BLOCK_SIZE_SUPPORTED_BY_HASH_INDEX: usize = 65536;

/// Footer bit that marks a block carrying a hash index.
pub const HASH_INDEX_FLAG: u32 = 0x8000_0000;

/// The restart count shares the footer with the index-type bit.
pub const MAX_NUM_RESTARTS: u32 = 0x7fff_ffff;

/// How a block's entries are searched.
#[derive(PartialEq, Eq, Structural, Clone, Copy, Debug)]
pub enum DataBlockIndexType {
    DataBlockBinarySearch,
    DataBlockBinaryAndHash,
}

/// Index type in the top bit, restart count in the others.
pub open spec fn packed_footer(t: DataBlockIndexType, num_restarts: u32) -> u32 {
    match t {
        DataBlockIndexType::DataBlockBinarySearch => num_restarts,
        DataBlockIndexType::DataBlockBinaryAndHash => (num_restarts + HASH_INDEX_FLAG) as u32,
    }
}

/// Packs the index type and the restart count into a block footer.
pub fn pack_index_type_and_num_restarts(t: DataBlockIndexType, num_restarts: u32) -> (r: u32)
    requires
        num_restarts <= MAX_NUM_RESTARTS,
    ensures
        r == packed_footer(t, num_restarts),
{
    match t {
        DataBlockIndexType::DataBlockBinarySearch => num_restarts,
        DataBlockIndexType::DataBlockBinaryAndHash => num_restarts + HASH_INDEX_FLAG,
    }
}

/// Splits a block footer into the index type and the restart count.
pub fn unpack_index_type_and_num_restarts(footer: u32) -> (r: (DataBlockIndexType, u32))
    ensures
        r.1 <= MAX_NUM_RESTARTS,
        packed_footer(r.0, r.1) == footer,
{
    if footer >= HASH_INDEX_FLAG {
        (DataBlockIndexType::DataBlockBinaryAndHash, footer - HASH_INDEX_FLAG)
    } else {
        (DataBlockIndexType::DataBlockBinarySearch, footer)
    }
}

/// The longest common prefix length of `a` and `b`.
pub open spec fn common_prefix_len(a: Seq<u8>, b: Seq<u8>) -> nat {
    choose|r: nat| is_common_prefix_len(a, b, r)
}

pub proof fn lemma_common_prefix_len(a: Seq<u8>, b: Seq<u8>, r: nat)
    requires
        is_common_prefix_len(a, b, r),
    ensures
        common_prefix_len(a, b) == r,
{
    let c = common_prefix_len(a, b);
    assert(is_common_prefix_len(a, b, c));
    if c < r {
        assert(a[c as int] == a.take(r as int)[c as int]);
        assert(b[c as int] == b.take(r as int)[c as int]);
    }
    if r < c {
        assert(a[r as int] == a.take(c as int)[r as int]);
        assert(b[r as int] == b.take(c as int)[r as int]);
    }
}

/// Every two byte strings have a longest common prefix.
pub proof fn lemma_common_prefix_exists(a: Seq<u8>, b: Seq<u8>) -> (r: nat)
    ensures
        is_common_prefix_len(a, b, r),
    decreases a.len(),
{
    if a.len() == 0 || b.len() == 0 || a[0] != b[0] {
        assert(a.take(0) =~= b.take(0));
        0
    } else {
        let r0 = lemma_common_prefix_exists(a.drop_first(), b.drop_first());
        assert(a.take((r0 + 1) as int) =~= seq![a[0]] + a.drop_first().take(r0 as int));
        assert(b.take((r0 + 1) as int) =~= seq![b[0]] + b.drop_first().take(r0 as int));
        if r0 < a.drop_first().len() && r0 < b.drop_first().len() {
            assert(a[(r0 + 1) as int] == a.drop_first()[r0 as int]);
            assert(b[(r0 + 1) as int] == b.drop_first()[r0 as int]);
        }
        r0 + 1
    }
}

/// Position of entry `i` within its restart run: zero exactly at a restart
/// point, which comes after every `interval` entries.
pub open spec fn run_pos(i: nat, interval: nat) -> nat
    decreases i,
{
    if i == 0 {
        0
    } else {
        let p = run_pos((i - 1) as nat, interval) + 1;
        if p >= interval {
            0
        } else {
            p
        }
    }
}

/// Bytes of entry `i`'s key shared with the previous key and left out.
pub open spec fn shared_len(
    es: Seq<(Seq<u8>, Seq<u8>)>,
    i: int,
    interval: nat,
    delta: bool,
) -> nat {
    if !delta || run_pos(i as nat, interval) == 0 {
        0
    } else {
        common_prefix_len(es[i - 1].0, es[i].0)
    }
}

/// One entry: shared length, unshared length, value length as varints,
/// then the unshared key bytes and the value.
pub open spec fn entry_bytes(shared: nat, key: Seq<u8>, value: Seq<u8>) -> Seq<u8> {
    varint_bytes(shared) + varint_bytes((key.len() - shared) as nat) + varint_bytes(value.len())
        + key.skip(shared as int) + value
}

/// The entry region for the entries `es`.
pub open spec fn encoded_entries(es: Seq<(Seq<u8>, Seq<u8>)>, interval: nat, delta: bool) -> Seq<
    u8,
>
    decreases es.len(),
{
    if es.len() == 0 {
        Seq::empty()
    } else {
        encoded_entries(es.drop_last(), interval, delta) + entry_bytes(
            shared_len(es, es.len() - 1, interval, delta),
            es.last().0,
            es.last().1,
        )
    }
}

/// Byte offsets of the restart points for the entries `es`; the first is
/// always zero.
pub open spec fn restart_offsets(es: Seq<(Seq<u8>, Seq<u8>)>, interval: nat, delta: bool) -> Seq<
    u32,
>
    decreases es.len(),
{
    if es.len() == 0 {
        seq![0u32]
    } else {
        let prev = restart_offsets(es.drop_last(), interval, delta);
        let i = (es.len() - 1) as nat;
        if i > 0 && run_pos(i, interval) == 0 {
            prev.push(encoded_entries(es.drop_last(), interval, delta).len() as u32)
        } else {
            prev
        }
    }
}

/// The little-endian bytes of each value, in order.
pub open spec fn fixed32_concat(s: Seq<u32>) -> Seq<u8>
    decreases s.len(),
{
    if s.len() == 0 {
        Seq::empty()
    } else {
        fixed32_concat(s.drop_last()) + fixed32_bytes(s.last())
    }
}

pub proof fn lemma_fixed32_concat_len(s: Seq<u32>)
    ensures
        fixed32_concat(s).len() == 4 * s.len(),
    decreases s.len(),
{
    if s.len() > 0 {
        lemma_fixed32_concat_len(s.drop_last());
    }
}

/// The bytes of restart value `j` within the concatenation.
pub proof fn lemma_fixed32_concat_at(s: Seq<u32>, j: int)
    requires
        0 <= j < s.len(),
    ensures
        fixed32_concat(s).len() == 4 * s.len(),
        fixed32_concat(s).subrange(4 * j, 4 * j + 4) == fixed32_bytes(s[j]),
    decreases s.len(),
{
    lemma_fixed32_concat_len(s);
    let p = s.drop_last();
    lemma_fixed32_concat_len(p);
    if j < p.len() {
        lemma_fixed32_concat_at(p, j);
        assert(fixed32_concat(s).subrange(4 * j, 4 * j + 4) =~= fixed32_concat(p).subrange(
            4 * j,
            4 * j + 4,
        ));
    } else {
        assert(fixed32_concat(s).subrange(4 * j, 4 * j + 4) =~= fixed32_bytes(s.last()));
    }
}

/// Restart point `r` records where entry `idx` starts: an entry that
/// begins a restart run (the first entry for the first restart point).
pub open spec fn restart_entry(
    es: Seq<(Seq<u8>, Seq<u8>)>,
    interval: nat,
    delta: bool,
    r: int,
    idx: nat,
) -> bool {
    &&& idx <= es.len()
    &&& es.len() > 0 ==> idx < es.len()
    &&& run_pos(idx, interval) == 0
    &&& restart_offsets(es, interval, delta)[r] == encoded_entries(es.take(idx as int), interval, delta).len() as u32
    &&& r == 0 ==> idx == 0
}

/// Some entry starts at restart point `r`.
pub open spec fn has_restart_entry(
    es: Seq<(Seq<u8>, Seq<u8>)>,
    interval: nat,
    delta: bool,
    r: int,
) -> bool {
    exists|idx: nat| #[trigger] restart_entry(es, interval, delta, r, idx)
}

pub proof fn lemma_restart_entries(es: Seq<(Seq<u8>, Seq<u8>)>, interval: nat, delta: bool)
    ensures
        forall|r: int|
            0 <= r < restart_offsets(es, interval, delta).len() ==> #[trigger] has_restart_entry(
                es,
                interval,
                delta,
                r,
            ),
    decreases es.len(),
{
    let ro = restart_offsets(es, interval, delta);
    if es.len() == 0 {
        assert forall|r: int| 0 <= r < ro.len() implies #[trigger] has_restart_entry(
            es,
            interval,
            delta,
            r,
        ) by {
            assert(es.take(0) =~= es);
            assert(restart_entry(es, interval, delta, r, 0));
        }
    } else {
        let p = es.drop_last();
        lemma_restart_entries(p, interval, delta);
        let pro = restart_offsets(p, interval, delta);
        assert forall|r: int| 0 <= r < ro.len() implies #[trigger] has_restart_entry(
            es,
            interval,
            delta,
            r,
        ) by {
            if r < pro.len() {
                assert(has_restart_entry(p, interval, delta, r));
                let idx = choose|idx: nat| #[trigger] restart_entry(p, interval, delta, r, idx);
                assert(es.take(idx as int) =~= p.take(idx as int));
                assert(ro[r] == pro[r]);
                assert(restart_entry(es, interval, delta, r, idx));
            } else {
                let i = p.len();
                lemma_restart_offsets_len(p, interval, delta, delta);
                assert(i > 0 && run_pos(i, interval) == 0);
                assert(ro == pro.push(encoded_entries(p, interval, delta).len() as u32));
                assert(es.take(i as int) =~= p);
                assert(restart_entry(es, interval, delta, r, i));
            }
        }
    }
}

/// What the hash index records for the entries `es`: each user key's hash
/// with the index of the restart run that holds it.
pub open spec fn hash_pairs(es: Seq<(Seq<u8>, Seq<u8>)>, interval: nat) -> Seq<(u32, u8)>
    decreases es.len(),
{
    if es.len() == 0 {
        Seq::empty()
    } else {
        hash_pairs(es.drop_last(), interval).push(
            (
                key_hash(user_key(es.last().0)),
                (restart_offsets(es, interval, false).len() - 1) as u8,
            ),
        )
    }
}

/// Whether a hash index with load factor `ratio` still fits its format
/// after the entries `es`.
pub open spec fn hash_index_live(ratio: nat, es: Seq<(Seq<u8>, Seq<u8>)>, interval: nat) -> bool
    decreases es.len(),
{
    if es.len() == 0 {
        ratio > 0
    } else {
        &&& hash_index_live(ratio, es.drop_last(), interval)
        &&& restart_offsets(es, interval, false).len() - 1 <= MAX_RESTART_SUPPORTED_BY_HASH_INDEX
        &&& bucket_count(es.len(), ratio) <= MAX_HASH_BUCKETS
    }
}

/// Bytes that the size estimate counts for the hash index after the
/// entries `es`: its current size while it is live; once it is given up,
/// the size it last had, so that the estimate never shrinks.
pub open spec fn hash_estimate(ratio: nat, es: Seq<(Seq<u8>, Seq<u8>)>, interval: nat) -> nat
    decreases es.len(),
{
    if hash_index_live(ratio, es, interval) {
        bucket_count(es.len(), ratio) + 2
    } else if es.len() == 0 {
        0
    } else {
        hash_estimate(ratio, es.drop_last(), interval)
    }
}

pub proof fn lemma_bucket_count_mono(n: nat, ratio: nat)
    ensures
        bucket_count(n, ratio) <= bucket_count(n + 1, ratio),
{
    if ratio > 0 {
        vstd::arithmetic::div_mod::lemma_div_is_ordered((n * 100) as int, ((n + 1) * 100) as int, ratio as int);
    }
}

pub proof fn lemma_hash_estimate_bound(ratio: nat, es: Seq<(Seq<u8>, Seq<u8>)>, interval: nat)
    ensures
        hash_estimate(ratio, es, interval) <= MAX_HASH_BUCKETS + 2,
    decreases es.len(),
{
    if es.len() > 0 {
        lemma_hash_estimate_bound(ratio, es.drop_last(), interval);
    }
}

/// One more entry never lowers what is counted for the hash index.
pub proof fn lemma_hash_estimate_grows(
    ratio: nat,
    es: Seq<(Seq<u8>, Seq<u8>)>,
    k: Seq<u8>,
    v: Seq<u8>,
    interval: nat,
)
    ensures
        hash_estimate(ratio, es, interval) <= hash_estimate(ratio, es.push((k, v)), interval),
{
    let es2 = es.push((k, v));
    assert(es2.drop_last() =~= es);
    if hash_index_live(ratio, es2, interval) {
        lemma_bucket_count_mono(es.len(), ratio);
    }
}

pub proof fn lemma_restart_offsets_len(es: Seq<(Seq<u8>, Seq<u8>)>, interval: nat, d1: bool, d2: bool)
    ensures
        restart_offsets(es, interval, d1).len() == restart_offsets(es, interval, d2).len(),
        restart_offsets(es, interval, d1).len() >= 1,
        restart_offsets(es, interval, d1).len() <= es.len() + 1,
    decreases es.len(),
{
    if es.len() > 0 {
        lemma_restart_offsets_len(es.drop_last(), interval, d1, d2);
    }
}

pub proof fn lemma_hash_pairs_len(es: Seq<(Seq<u8>, Seq<u8>)>, interval: nat)
    ensures
        hash_pairs(es, interval).len() == es.len(),
    decreases es.len(),
{
    if es.len() > 0 {
        lemma_hash_pairs_len(es.drop_last(), interval);
    }
}

pub proof fn lemma_push_unfold(
    es: Seq<(Seq<u8>, Seq<u8>)>,
    k: Seq<u8>,
    v: Seq<u8>,
    interval: nat,
    delta: bool,
    ratio: nat,
)
    ensures
        ({
            let es2 = es.push((k, v));
            let n = es.len();
            &&& encoded_entries(es2, interval, delta) == encoded_entries(es, interval, delta)
                + entry_bytes(shared_len(es2, n as int, interval, delta), k, v)
            &&& restart_offsets(es2, interval, delta) == if n > 0 && run_pos(n, interval) == 0 {
                restart_offsets(es, interval, delta).push(
                    encoded_entries(es, interval, delta).len() as u32,
                )
            } else {
                restart_offsets(es, interval, delta)
            }
            &&& hash_pairs(es2, interval) == hash_pairs(es, interval).push(
                (key_hash(user_key(k)), (restart_offsets(es2, interval, false).len() - 1) as u8),
            )
            &&& hash_index_live(ratio, es2, interval) == (hash_index_live(ratio, es, interval)
                && restart_offsets(es2, interval, false).len() - 1
                <= MAX_RESTART_SUPPORTED_BY_HASH_INDEX && bucket_count(n + 1, ratio)
                <= MAX_HASH_BUCKETS)
            &&& shared_len(es2, n as int, interval, delta) == if !delta || run_pos(n, interval)
                == 0 {
                0
            } else {
                common_prefix_len(es[n - 1].0, k)
            }
        }),
{
    let es2 = es.push((k, v));
    assert(es2.drop_last() =~= es);
    if es.len() > 0 {
        assert(es2[es.len() - 1] == es[es.len() - 1]);
    }
}

pub proof fn lemma_entry_len(shared: nat, k: Seq<u8>, v: Seq<u8>)
    requires
        shared <= k.len(),
        k.len() <= u32::MAX,
        v.len() <= u32::MAX,
    ensures
        entry_bytes(shared, k, v).len() <= 15 + k.len() + v.len(),
        entry_bytes(shared, k, v).len() >= 3,
{
    crate::coding::lemma_pow128_values();
    crate::coding::lemma_varint_len_bound(shared, 5);
    crate::coding::lemma_varint_len_bound((k.len() - shared) as nat, 5);
    crate::coding::lemma_varint_len_bound(v.len(), 5);
    crate::coding::lemma_varint_bytes_shape(shared);
    crate::coding::lemma_varint_bytes_shape((k.len() - shared) as nat);
    crate::coding::lemma_varint_bytes_shape(v.len());
}

/// Accumulates sorted key/value pairs into one block: prefix-compressed
/// entries, restart offsets, an optional hash index and a footer.
pub struct BlockBuilder {
    buff: Vec<u8>,
    restarts: Vec<u32>,
    last_key: Vec<u8>,
    count: usize,
    block_restart_interval: usize,
    use_delta_encoding: bool,
    hash_index_builder: DataBlockHashIndexBuilder,
    estimate: usize,
    abandoned_index_size: usize,
    entries: Ghost<Seq<(Seq<u8>, Seq<u8>)>>,
    finished: Ghost<bool>,
}

impl BlockBuilder {
    /// The pairs added since construction or the last `clear`.
    pub closed spec fn spec_entries(&self) -> Seq<(Seq<u8>, Seq<u8>)> {
        self.entries@
    }

    pub closed spec fn spec_interval(&self) -> nat {
        self.block_restart_interval as nat
    }

    pub closed spec fn spec_delta(&self) -> bool {
        self.use_delta_encoding
    }

    /// The hash index's load factor in percent; zero where none is built.
    pub closed spec fn spec_hash_ratio(&self) -> nat {
        self.hash_index_builder.spec_ratio()
    }

    pub closed spec fn spec_finished(&self) -> bool {
        self.finished@
    }

    pub open spec fn spec_encoded(&self) -> Seq<u8> {
        encoded_entries(self.spec_entries(), self.spec_interval(), self.spec_delta())
    }

    pub open spec fn spec_restarts(&self) -> Seq<u32> {
        restart_offsets(self.spec_entries(), self.spec_interval(), self.spec_delta())
    }

    pub open spec fn spec_hash_live(&self) -> bool {
        hash_index_live(self.spec_hash_ratio(), self.spec_entries(), self.spec_interval())
    }

    pub open spec fn spec_hash_buckets(&self) -> nat {
        bucket_count(self.spec_entries().len(), self.spec_hash_ratio())
    }

    /// Entries, restart array and footer, plus the hash index where one is
    /// being built.
    pub open spec fn spec_size_estimate(&self) -> nat {
        self.spec_encoded().len() + 4 * self.spec_restarts().len() + 4 + hash_estimate(
            self.spec_hash_ratio(),
            self.spec_entries(),
            self.spec_interval(),
        )
    }

    /// The hash index is kept only while it fits and the block is small
    /// enough for it.
    pub open spec fn spec_keeps_hash_index(&self) -> bool {
        self.spec_hash_live() && self.spec_size_estimate() < MAX_BLOCK_SIZE_SUPPORTED_BY_HASH_INDEX
    }

    /// The finished block for the entries added so far.
    pub open spec fn spec_block(&self) -> Seq<u8> {
        self.spec_encoded() + fixed32_concat(self.spec_restarts()) + if self.spec_keeps_hash_index() {
            serialized_index(
                hash_pairs(self.spec_entries(), self.spec_interval()),
                self.spec_hash_buckets(),
            )
        } else {
            Seq::empty()
        } + fixed32_bytes(
            packed_footer(
                if self.spec_keeps_hash_index() {
                    DataBlockIndexType::DataBlockBinaryAndHash
                } else {
                    DataBlockIndexType::DataBlockBinarySearch
                },
                self.spec_restarts().len() as u32,
            ),
        )
    }

    /// Room left in the format's 32-bit offsets for one more entry.
    pub open spec fn can_add(&self, key: Seq<u8>, value: Seq<u8>) -> bool {
        self.spec_encoded().len() + 4 * self.spec_restarts().len() + key.len() + value.len()
            + 0x1_0100 <= u32::MAX
    }

    pub closed spec fn wf(&self) -> bool {
        let es = self.entries@;
        let n = es.len();
        let interval = self.block_restart_interval as nat;
        &&& interval >= 1
        &&& self.hash_index_builder.wf()
        &&& self.hash_index_builder.spec_valid() == self.spec_hash_live()
        &&& self.hash_index_builder.spec_valid() ==> self.hash_index_builder.spec_pairs()
            == hash_pairs(es, interval)
        &&& self.restarts@ == self.spec_restarts()
        &&& n == 0 ==> self.count == 0
        &&& n > 0 ==> self.count == run_pos((n - 1) as nat, interval) + 1
        &&& self.count <= interval
        &&& self.last_key@ == if self.use_delta_encoding && n > 0 {
            es.last().0
        } else {
            Seq::<u8>::empty()
        }
        &&& self.estimate == self.spec_encoded().len() + 4 * self.restarts@.len() + 4
        &&& self.estimate + 0x1_0002 <= u32::MAX
        &&& !self.hash_index_builder.spec_valid() ==> self.abandoned_index_size == hash_estimate(
            self.hash_index_builder.spec_ratio(),
            es,
            interval,
        )
        &&& forall|j: int|
            0 <= j < n ==> #[trigger] es[j].0.len() <= u32::MAX && es[j].1.len() <= u32::MAX
        &&& if self.finished@ {
            self.buff@ == self.spec_block()
        } else {
            self.buff@ == self.spec_encoded()
        }
    }

    /// What a well-formed builder guarantees about sizes.
    pub proof fn lemma_wf_facts(&self)
        requires
            self.wf(),
        ensures
            self.spec_interval() >= 1,
            self.spec_encoded().len() + 4 * self.spec_restarts().len() + 0x1_0006 <= u32::MAX,
            forall|j: int|
                0 <= j < self.spec_entries().len() ==> #[trigger] self.spec_entries()[j].0.len()
                    <= u32::MAX && self.spec_entries()[j].1.len() <= u32::MAX,
            self.spec_hash_live() ==> self.spec_hash_buckets() <= MAX_HASH_BUCKETS,
            self.spec_hash_buckets() >= 1,
    {
        let es = self.entries@;
        if es.len() == 0 {
            assert(self.spec_hash_buckets() == 1);
        }
    }

    /// A builder with a fixed configuration; a hash index is built only for
    /// `DataBlockBinaryAndHash` with a positive ratio (in percent).
    pub fn new(
        block_restart_interval: usize,
        use_delta_encoding: bool,
        index_type: DataBlockIndexType,
        data_block_hash_table_util_ratio: u32,
    ) -> (r: BlockBuilder)
        requires
            block_restart_interval >= 1,
        ensures
            r.wf(),
            r.spec_entries() == Seq::<(Seq<u8>, Seq<u8>)>::empty(),
            !r.spec_finished(),
            r.spec_interval() == block_restart_interval,
            r.spec_delta() == use_delta_encoding,
            r.spec_hash_ratio() == if index_type == DataBlockIndexType::DataBlockBinaryAndHash {
                data_block_hash_table_util_ratio as nat
            } else {
                0
            },
    {
        let mut hash_index_builder = DataBlockHashIndexBuilder::new();
        if index_type == DataBlockIndexType::DataBlockBinaryAndHash {
            hash_index_builder.init(data_block_hash_table_util_ratio);
        }
        let r = BlockBuilder {
            buff: Vec::new(),
            block_restart_interval,
            use_delta_encoding,
            hash_index_builder,
            restarts: vec![0u32],
            estimate: 8,
            abandoned_index_size: 0,
            count: 0,
            last_key: Vec::new(),
            entries: Ghost(Seq::empty()),
            finished: Ghost(false),
        };
        proof {
            assert(r.restarts@ =~= seq![0u32]);
        }
        r
    }

    /// Whether nothing has been written to the buffer.
    pub fn is_empty(&self) -> (r: bool)
        requires
            self.wf(),
        ensures
            r == (!self.spec_finished() && self.spec_entries().len() == 0),
    {
        proof {
            if self.finished@ {
                assert(self.buff@.len() >= 4);
            }
            if self.entries@.len() > 0 && !self.finished@ {
                let es = self.entries@;
                assert(self.spec_encoded().len() >= varint_bytes(0).len());
            }
        }
        self.buff.len() == 0
    }

    /// Appends one entry. Keys must come in ascending order; that is the
    /// caller's to keep. After every `interval` entries the new entry opens a
    /// restart point and stores its whole key. A hash index being built is given up for good once
    /// this entry's restart run has an index above 253 (a bucket holds one
    /// byte) or its bucket count would pass 65535 (stored as a `u16`); the
    /// size it had stays counted in the estimate, which never shrinks.
    #[verifier::rlimit(90)]
    pub fn add(&mut self, key: &[u8], value: &[u8])
        requires
            old(self).wf(),
            !old(self).spec_finished(),
            old(self).can_add(key@, value@),
        ensures
            final(self).wf(),
            !final(self).spec_finished(),
            final(self).spec_entries() == old(self).spec_entries().push((key@, value@)),
            final(self).spec_interval() == old(self).spec_interval(),
            final(self).spec_delta() == old(self).spec_delta(),
            final(self).spec_hash_ratio() == old(self).spec_hash_ratio(),
            final(self).spec_size_estimate() >= old(self).spec_size_estimate(),
            ({
                let n = old(self).spec_entries().len();
                let starts_run = n > 0 && run_pos(n, old(self).spec_interval()) == 0;
                &&& final(self).spec_restarts() == if starts_run {
                    old(self).spec_restarts().push(old(self).spec_encoded().len() as u32)
                } else {
                    old(self).spec_restarts()
                }
                &&& final(self).spec_encoded() == old(self).spec_encoded() + entry_bytes(
                    shared_len(final(self).spec_entries(), n as int, old(self).spec_interval(), old(self).spec_delta()),
                    key@,
                    value@,
                )
                &&& run_pos(n, old(self).spec_interval()) == 0 ==> shared_len(
                    final(self).spec_entries(),
                    n as int,
                    old(self).spec_interval(),
                    old(self).spec_delta(),
                ) == 0
            }),
    {
        let ghost es = self.entries@;
        let ghost n = es.len();
        let ghost interval = self.block_restart_interval as nat;
        let ghost delta = self.use_delta_encoding;
        let ghost es2 = es.push((key@, value@));
        let ghost enc = encoded_entries(es, interval, delta);
        let ghost ro = restart_offsets(es, interval, delta);
        proof {
            lemma_push_unfold(es, key@, value@, interval, delta, self.hash_index_builder.spec_ratio());
            lemma_restart_offsets_len(es, interval, false, delta);
            lemma_restart_offsets_len(es2, interval, false, delta);
            lemma_hash_pairs_len(es, interval);
            lemma_hash_estimate_grows(self.hash_index_builder.spec_ratio(), es, key@, value@, interval);
            assert(es2.drop_last() =~= es);
            if n > 0 {
                assert(run_pos(n, interval) == if self.count >= interval {
                    0
                } else {
                    self.count as nat
                });
            }
        }
        let restart = self.count >= self.block_restart_interval;
        let mut shared: usize = 0;
        if restart {
            self.restarts.push(self.buff.len() as u32);
            self.estimate += 4;
            self.count = 0;
            if self.use_delta_encoding {
                self.last_key = slice_to_vec(key);
            }
        } else if self.use_delta_encoding {
            shared = difference_offset(self.last_key.as_slice(), key);
            proof {
                if n > 0 {
                    lemma_common_prefix_len(es[n - 1].0, key@, shared as nat);
                }
            }
            self.last_key = slice_to_vec(key);
        }
        let ghost sh = shared_len(es2, n as int, interval, delta);
        proof {
            assert(shared as nat == sh);
            assert(self.restarts@ == restart_offsets(es2, interval, delta));
            lemma_entry_len(sh, key@, value@);
        }
        let non_shared = key.len() - shared;
        let curr_size = self.buff.len();
        put_varint32varint32(&mut self.buff, shared as u32, non_shared as u32);
        put_var_uint32(&mut self.buff, value.len() as u32);
        append_bytes(&mut self.buff, slice_subrange(key, shared, key.len()));
        append_bytes(&mut self.buff, value);
        proof {
            assert(self.buff@ =~= enc + entry_bytes(sh, key@, value@));
        }
        if self.hash_index_builder.valid() {
            let counted = self.hash_index_builder.estimate_size();
            self.hash_index_builder.add(extract_user_key(key), self.restarts.len() - 1);
            if !self.hash_index_builder.valid() {
                self.abandoned_index_size = counted;
            }
        }
        proof {
            assert(self.hash_index_builder.spec_valid() == hash_index_live(
                self.hash_index_builder.spec_ratio(),
                es2,
                interval,
            ));
            assert(self.hash_index_builder.spec_valid() ==> self.hash_index_builder.spec_pairs()
                == hash_pairs(es2, interval));
        }
        self.estimate += self.buff.len() - curr_size;
        self.count += 1;
        self.entries = Ghost(es2);
        proof {
            assert(self.count == run_pos(n, interval) + 1);
            assert(self.last_key@ == if delta {
                key@
            } else {
                Seq::<u8>::empty()
            });
            assert(self.estimate == self.spec_encoded().len() + 4 * self.restarts@.len() + 4);
            assert forall|j: int| 0 <= j < es2.len() implies #[trigger] es2[j].0.len() <= u32::MAX
                && es2[j].1.len() <= u32::MAX by {
                if j < n {
                    assert(es2[j] == es[j]);
                }
            }
        }
    }

    /// Appends the restart array, the hash index where it is kept, and the
    /// footer; returns the finished block. The hash index is kept only if it
    /// was requested with a positive ratio, was not given up by `add` (a
    /// restart index above 253 or more than 65535 buckets), and the size
    /// estimate is below `MAX_BLOCK_SIZE_SUPPORTED_BY_HASH_INDEX`.
    pub fn finish(&mut self) -> (r: &[u8])
        requires
            old(self).wf(),
            !old(self).spec_finished(),
        ensures
            final(self).wf(),
            final(self).spec_finished(),
            final(self).spec_entries() == old(self).spec_entries(),
            final(self).spec_interval() == old(self).spec_interval(),
            final(self).spec_delta() == old(self).spec_delta(),
            final(self).spec_hash_ratio() == old(self).spec_hash_ratio(),
            r@ == old(self).spec_block(),
    {
        let keep = self.hash_index_builder.valid() && self.current_size_estimate()
            < MAX_BLOCK_SIZE_SUPPORTED_BY_HASH_INDEX;
        let mut tail: Vec<u8> = Vec::new();
        let mut i: usize = 0;
        while i < self.restarts.len()
            invariant
                i <= self.restarts@.len(),
                tail@ == fixed32_concat(self.restarts@.take(i as int)),
            decreases self.restarts@.len() - i,
        {
            proof {
                assert(self.restarts@.take(i + 1).drop_last() =~= self.restarts@.take(i as int));
            }
            put_fixed32(&mut tail, self.restarts[i]);
            i += 1;
        }
        proof {
            assert(self.restarts@.take(i as int) =~= self.restarts@);
            lemma_hash_pairs_len(self.entries@, self.block_restart_interval as nat);
        }
        append_bytes(&mut self.buff, tail.as_slice());
        let index_type = if keep {
            self.hash_index_builder.finish(&mut self.buff);
            DataBlockIndexType::DataBlockBinaryAndHash
        } else {
            DataBlockIndexType::DataBlockBinarySearch
        };
        let footer = pack_index_type_and_num_restarts(index_type, self.restarts.len() as u32);
        put_fixed32(&mut self.buff, footer);
        self.finished = Ghost(true);
        proof {
            assert(self.buff@ =~= self.spec_block());
        }
        self.buff.as_slice()
    }

    /// Returns the builder to its just-constructed state, configuration kept.
    pub fn clear(&mut self)
        requires
            old(self).wf(),
        ensures
            final(self).wf(),
            !final(self).spec_finished(),
            final(self).spec_entries() == Seq::<(Seq<u8>, Seq<u8>)>::empty(),
            final(self).spec_interval() == old(self).spec_interval(),
            final(self).spec_delta() == old(self).spec_delta(),
            final(self).spec_hash_ratio() == old(self).spec_hash_ratio(),
    {
        self.buff.clear();
        self.restarts.clear();
        self.restarts.push(0);
        self.estimate = 8;
        self.abandoned_index_size = 0;
        self.count = 0;
        self.last_key.clear();
        self.hash_index_builder.clear();
        self.entries = Ghost(Seq::empty());
        self.finished = Ghost(false);
        proof {
            assert(self.restarts@ =~= seq![0u32]);
            assert(self.buff@ =~= Seq::<u8>::empty());
            assert(self.last_key@ =~= Seq::<u8>::empty());
        }
    }

    /// Size of the block if it were finished now, hash index included while
    /// one is being built.
    pub fn current_size_estimate(&self) -> (r: usize)
        requires
            self.wf(),
        ensures
            r == self.spec_size_estimate(),
    {
        proof {
            lemma_hash_pairs_len(self.entries@, self.block_restart_interval as nat);
        }
        proof {
            lemma_hash_estimate_bound(self.hash_index_builder.spec_ratio(), self.entries@, self.block_restart_interval as nat);
        }
        let x = if self.hash_index_builder.valid() {
            self.hash_index_builder.estimate_size()
        } else {
            self.abandoned_index_size
        };
        self.estimate + x
    }
}

/// The entry at every restart offset stores its key whole: its first byte,
/// the shared-prefix length, is zero, with or without delta encoding.
pub proof fn lemma_restart_entries_unshared(es: Seq<(Seq<u8>, Seq<u8>)>, interval: nat, delta: bool)
    requires
        es.len() > 0,
        encoded_entries(es, interval, delta).len() <= u32::MAX,
    ensures
        forall|j: int|
            0 <= j < restart_offsets(es, interval, delta).len() ==> {
                let off = #[trigger] restart_offsets(es, interval, delta)[j] as int;
                &&& off < encoded_entries(es, interval, delta).len()
                &&& encoded_entries(es, interval, delta)[off] == 0
            },
    decreases es.len(),
{
    let prev = es.drop_last();
    let enc = encoded_entries(es, interval, delta);
    let penc = encoded_entries(prev, interval, delta);
    let i = (es.len() - 1) as nat;
    let eb = entry_bytes(shared_len(es, i as int, interval, delta), es.last().0, es.last().1);
    crate::coding::lemma_varint_bytes_shape(shared_len(es, i as int, interval, delta));
    assert(enc == penc + eb);
    if prev.len() > 0 {
        lemma_restart_entries_unshared(prev, interval, delta);
        let pro = restart_offsets(prev, interval, delta);
        assert forall|j: int| 0 <= j < pro.len() implies {
            let off = #[trigger] pro[j] as int;
            &&& off < enc.len()
            &&& enc[off] == 0
        } by {
            assert(enc[pro[j] as int] == penc[pro[j] as int]);
        }
        if i > 0 && run_pos(i, interval) == 0 {
            assert(eb[0] == varint_bytes(0)[0]);
            assert(enc[penc.len() as int] == eb[0]);
            assert(restart_offsets(es, interval, delta) == pro.push(penc.len() as u32));
        }
    } else {
        assert(restart_offsets(prev, interval, delta) == seq![0u32]);
        assert(restart_offsets(es, interval, delta) =~= seq![0u32]);
        assert(penc.len() == 0);
        assert(eb[0] == varint_bytes(0)[0]);
    }
}

/// Two builders with one configuration that were given the same entries
/// finish with the same bytes. With `clear` restoring the empty entry list,
/// a cleared builder that replays a sequence of `add` calls produces what a
/// fresh builder does.
pub proof fn lemma_same_entries_same_block(a: &BlockBuilder, b: &BlockBuilder)
    requires
        a.wf(),
        b.wf(),
        a.spec_entries() == b.spec_entries(),
        a.spec_interval() == b.spec_interval(),
        a.spec_delta() == b.spec_delta(),
        a.spec_hash_ratio() == b.spec_hash_ratio(),
    ensures
        a.spec_block() == b.spec_block(),
{
}

} // verus!
