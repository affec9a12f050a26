use vstd::prelude::*;
use crate::coding::append_bytes;
use crate::format::{hash_key, key_hash};

verus! {

/// Bucket marker: no key hashed here.
pub const NO_ENTRY: u8 = 255;

/// Bucket marker: keys of more than one restart interval hashed here.
pub const COLLISION: u8 = 254;

/// The largest restart index that a bucket can record.
pub const MAX_RESTART_SUPPORTED_BY_HASH_INDEX: usize = 253;

/// The bucket count is stored as a `u16`.
pub const MAX_HASH_BUCKETS: u128 = 65535;

/// Number of buckets for `n` keys at a load factor of `ratio` percent:
/// `n * 100 / ratio`, at least one, rounded up to an odd number.
pub open spec fn bucket_count(n: nat, ratio: nat) -> nat {
    let b = if ratio == 0 {
        0
    } else {
        n * 100 / ratio
    };
    let b1 = if b == 0 {
        1
    } else {
        b
    };
    if b1 % 2 == 0 {
        b1 + 1
    } else {
        b1
    }
}

/// The bucket table after placing `pairs` (key hash, restart index) in
/// order into `nb` buckets.
pub open spec fn bucket_table(pairs: Seq<(u32, u8)>, nb: nat) -> Seq<u8>
    decreases pairs.len(),
{
    if pairs.len() == 0 {
        Seq::new(nb, |i: int| NO_ENTRY)
    } else {
        let t = bucket_table(pairs.drop_last(), nb);
        let i = pairs.last().0 as nat % nb;
        if t[i as int] == NO_ENTRY {
            t.update(i as int, pairs.last().1)
        } else if t[i as int] != pairs.last().1 {
            t.update(i as int, COLLISION)
        } else {
            t
        }
    }
}

pub proof fn lemma_bucket_table_len(pairs: Seq<(u32, u8)>, nb: nat)
    requires
        nb >= 1,
    ensures
        bucket_table(pairs, nb).len() == nb,
    decreases pairs.len(),
{
    if pairs.len() > 0 {
        lemma_bucket_table_len(pairs.drop_last(), nb);
    }
}

/// The serialized index: the bucket table, then the bucket count as a
/// little-endian `u16`.
pub open spec fn serialized_index(pairs: Seq<(u32, u8)>, nb: nat) -> Seq<u8> {
    bucket_table(pairs, nb) + seq![(nb % 256) as u8, (nb / 256) as u8]
}

/// Maps the hash of each key's user key to the restart interval holding
/// it, so that a point lookup can skip the binary search.
pub struct DataBlockHashIndexBuilder {
    valid: bool,
    util_ratio: u32,
    pairs: Vec<(u32, u8)>,
}

impl DataBlockHashIndexBuilder {
    pub closed spec fn spec_valid(&self) -> bool {
        self.valid
    }

    /// Load factor target, in percent; zero when never initialized.
    pub closed spec fn spec_ratio(&self) -> nat {
        self.util_ratio as nat
    }

    /// The (key hash, restart index) pairs recorded so far.
    pub closed spec fn spec_pairs(&self) -> Seq<(u32, u8)> {
        self.pairs@
    }

    pub closed spec fn wf(&self) -> bool {
        &&& self.valid ==> self.util_ratio > 0
        &&& self.valid ==> bucket_count(self.pairs@.len(), self.util_ratio as nat)
            <= MAX_HASH_BUCKETS
        &&& forall|i: int|
            0 <= i < self.pairs@.len() ==> #[trigger] self.pairs@[i].1
                <= MAX_RESTART_SUPPORTED_BY_HASH_INDEX
    }

    /// An inactive builder.
    pub fn new() -> (r: Self)
        ensures
            r.wf(),
            !r.spec_valid(),
            r.spec_ratio() == 0,
            r.spec_pairs() == Seq::<(u32, u8)>::empty(),
    {
        DataBlockHashIndexBuilder { valid: false, util_ratio: 0, pairs: Vec::new() }
    }

    /// Activates the builder with a load factor target in percent; a zero
    /// ratio leaves it inactive.
    pub fn init(&mut self, util_ratio: u32)
        requires
            old(self).wf(),
            old(self).spec_pairs().len() == 0,
        ensures
            final(self).wf(),
            final(self).spec_valid() == (util_ratio > 0),
            final(self).spec_ratio() == util_ratio,
            final(self).spec_pairs() == Seq::<(u32, u8)>::empty(),
    {
        self.util_ratio = util_ratio;
        self.valid = util_ratio > 0;
        proof {
            if util_ratio > 0 {
                assert(0nat * 100 / (util_ratio as nat) == 0) by (nonlinear_arith)
                    requires
                        util_ratio > 0,
                ;
            }
        }
    }

    pub fn valid(&self) -> (r: bool)
        ensures
            r == self.spec_valid(),
    {
        self.valid
    }

    /// Records that a key with this user key lies in restart interval
    /// `restart_index`. The index gives up (becomes invalid) once a restart
    /// index or the bucket count no longer fits its format.
    pub fn add(&mut self, user_key: &[u8], restart_index: usize)
        requires
            old(self).wf(),
        ensures
            final(self).wf(),
            final(self).spec_ratio() == old(self).spec_ratio(),
            final(self).spec_valid() == (old(self).spec_valid() && restart_index
                <= MAX_RESTART_SUPPORTED_BY_HASH_INDEX && bucket_count(
                old(self).spec_pairs().len() + 1,
                old(self).spec_ratio(),
            ) <= MAX_HASH_BUCKETS),
            final(self).spec_valid() ==> final(self).spec_pairs() == old(self).spec_pairs().push(
                (key_hash(user_key@), restart_index as u8),
            ),
    {
        if !self.valid {
            return;
        }
        if restart_index > MAX_RESTART_SUPPORTED_BY_HASH_INDEX {
            self.valid = false;
            return;
        }
        let nb = buckets_for(self.pairs.len() as u128 + 1, self.util_ratio);
        if nb > MAX_HASH_BUCKETS {
            self.valid = false;
            return;
        }
        let h = hash_key(user_key);
        self.pairs.push((h, restart_index as u8));
    }

    /// Bytes the index would take if serialized now.
    pub fn estimate_size(&self) -> (r: usize)
        requires
            self.wf(),
            self.spec_valid(),
        ensures
            r == bucket_count(self.spec_pairs().len(), self.spec_ratio()) + 2,
    {
        let nb = buckets_for(self.pairs.len() as u128, self.util_ratio);
        (nb + 2) as usize
    }

    /// Appends the serialized index to `buf`.
    pub fn finish(&self, buf: &mut Vec<u8>)
        requires
            self.wf(),
            self.spec_valid(),
        ensures
            final(buf)@ == old(buf)@ + serialized_index(
                self.spec_pairs(),
                bucket_count(self.spec_pairs().len(), self.spec_ratio()),
            ),
    {
        let nb = buckets_for(self.pairs.len() as u128, self.util_ratio) as usize;
        let ghost nbn = nb as nat;
        let mut table: Vec<u8> = Vec::new();
        while table.len() < nb
            invariant
                table.len() <= nb,
                forall|k: int| 0 <= k < table@.len() ==> table@[k] == NO_ENTRY,
            decreases nb - table.len(),
        {
            table.push(NO_ENTRY);
        }
        proof {
            assert(table@ =~= bucket_table(self.pairs@.take(0), nbn));
        }
        let mut i: usize = 0;
        while i < self.pairs.len()
            invariant
                i <= self.pairs@.len(),
                nb >= 1,
                nbn == nb as nat,
                table@ == bucket_table(self.pairs@.take(i as int), nbn),
                table@.len() == nb,
            decreases self.pairs@.len() - i,
        {
            let (h, r) = self.pairs[i];
            let idx = (h as usize) % nb;
            proof {
                assert(self.pairs@.take(i + 1).drop_last() =~= self.pairs@.take(i as int));
                assert(self.pairs@.take(i + 1).last() == (h, r));
            }
            let cur = table[idx];
            let ghost t0 = table@;
            proof {
                let p = self.pairs@.take(i + 1);
                assert(p.len() > 0);
                assert(p.last().0 == h);
                assert(nbn == nb as nat);
                assert((h as nat) % nbn == idx as nat);
                assert((p.last().0 as nat) % nbn == idx as nat);
                assert(bucket_table(p, nbn) == (if t0[idx as int] == NO_ENTRY {
                    t0.update(idx as int, r)
                } else if t0[idx as int] != r {
                    t0.update(idx as int, COLLISION)
                } else {
                    t0
                }));
            }
            if cur == NO_ENTRY {
                table.set(idx, r);
            } else if cur != r {
                table.set(idx, COLLISION);
            }
            i += 1;
        }
        proof {
            assert(self.pairs@.take(i as int) =~= self.pairs@);
        }
        let ghost b0 = buf@;
        append_bytes(buf, table.as_slice());
        buf.push((nb % 256) as u8);
        buf.push((nb / 256) as u8);
        proof {
            assert(buf@ =~= b0 + serialized_index(self.pairs@, nbn));
        }
    }

    /// Forgets every recorded key; an initialized builder becomes active
    /// again.
    pub fn clear(&mut self)
        requires
            old(self).wf(),
        ensures
            final(self).wf(),
            final(self).spec_ratio() == old(self).spec_ratio(),
            final(self).spec_valid() == (old(self).spec_ratio() > 0),
            final(self).spec_pairs() == Seq::<(u32, u8)>::empty(),
    {
        self.pairs.clear();
        self.valid = self.util_ratio > 0;
        proof {
            if self.util_ratio > 0 {
                assert(0nat * 100 / (self.util_ratio as nat) == 0) by (nonlinear_arith)
                    requires
                        self.util_ratio > 0,
                ;
            }
        }
    }
}

/// Computes `bucket_count(n, ratio)`.
fn buckets_for(n: u128, ratio: u32) -> (r: u128)
    requires
        n <= 0x1_0000_0000_0000_0000,
    ensures
        r == bucket_count(n as nat, ratio as nat),
{
    let b: u128 = if ratio == 0 {
        0
    } else {
        (n as u128) * 100 / (ratio as u128)
    };
    proof {
        if ratio > 0 {
            assert((n as nat) * 100 / (ratio as nat) <= (n as nat) * 100) by (nonlinear_arith)
                requires
                    ratio >= 1,
            ;
        }
    }
    let b1: u128 = if b == 0 {
        1
    } else {
        b
    };
    if b1 % 2 == 0 {
        b1 + 1
    } else {
        b1
    }
}

} // verus!
