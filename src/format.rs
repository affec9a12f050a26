use vstd::prelude::*;
use vstd::slice::slice_subrange;
use std::cmp::Ordering;
use crate::coding::{decode_fixed_uint64, le_value};

verus! {

/// The override value that leaves embedded sequence numbers untouched.
pub const DISABLE_GLOBAL_SEQUENCE_NUMBER: u64 = 0xffff_ffff_ffff_ffff;

/// Sequence numbers occupy the 56 high bits of an internal key's trailer.
pub const MAX_SEQUENCE_NUMBER: u64 = 0x00ff_ffff_ffff_ffff;

/// Bytes that follow the user key in an internal key.
pub const INTERNAL_KEY_TRAILER_LEN: usize = 8;

/// The operation recorded in an internal key's trailer; its tag is its
/// position in this list.
#[derive(PartialEq, Eq, Structural, Clone, Copy, Debug)]
pub enum ValueType {
    TypeDeletion,
    TypeValue,
    TypeMerge,
}

impl ValueType {
    pub open spec fn spec_tag(self) -> u8 {
        match self {
            ValueType::TypeDeletion => 0,
            ValueType::TypeValue => 1,
            ValueType::TypeMerge => 2,
        }
    }

    /// The one-byte tag stored in the trailer.
    pub fn tag(self) -> (r: u8)
        ensures
            r == self.spec_tag(),
    {
        match self {
            ValueType::TypeDeletion => 0,
            ValueType::TypeValue => 1,
            ValueType::TypeMerge => 2,
        }
    }
}

/// Sequence number in the high 56 bits, type tag in the low 8.
pub open spec fn packed_trailer(seq: u64, t: u8) -> u64 {
    (seq * 256 + t) as u64
}

/// Packs a sequence number and a type tag into an internal key trailer.
pub fn pack_sequence_and_type(seq: u64, t: u8) -> (r: u64)
    requires
        seq <= MAX_SEQUENCE_NUMBER,
    ensures
        r == packed_trailer(seq, t),
        r as nat == seq as nat * 256 + t as nat,
{
    seq * 256 + t as u64
}

/// The user key of an internal key: all but the eight trailer bytes. A key
/// shorter than a trailer is all user key.
pub open spec fn user_key(k: Seq<u8>) -> Seq<u8> {
    if k.len() >= 8 {
        k.take(k.len() - 8)
    } else {
        k
    }
}

/// The trailer of an internal key, read as a little-endian `u64`; zero for a
/// key shorter than a trailer.
pub open spec fn trailer(k: Seq<u8>) -> nat {
    if k.len() >= 8 {
        le_value(k.skip(k.len() - 8))
    } else {
        0
    }
}

/// Strips the trailer of an internal key.
pub fn extract_user_key(key: &[u8]) -> (r: &[u8])
    ensures
        r@ == user_key(key@),
{
    if key.len() >= INTERNAL_KEY_TRAILER_LEN {
        slice_subrange(key, 0, key.len() - INTERNAL_KEY_TRAILER_LEN)
    } else {
        key
    }
}

/// Reads the trailer of an internal key.
pub fn extract_trailer(key: &[u8]) -> (r: u64)
    ensures
        r == trailer(key@),
{
    if key.len() >= INTERNAL_KEY_TRAILER_LEN {
        let t = slice_subrange(key, key.len() - INTERNAL_KEY_TRAILER_LEN, key.len());
        proof {
            assert(t@.take(8) =~= key@.skip(key@.len() - 8));
        }
        decode_fixed_uint64(t)
    } else {
        0
    }
}

/// Lexicographic order on byte strings, shorter first on a common prefix.
pub open spec fn bytewise_cmp(a: Seq<u8>, b: Seq<u8>) -> Ordering
    decreases a.len(),
{
    if a.len() == 0 {
        if b.len() == 0 {
            Ordering::Equal
        } else {
            Ordering::Less
        }
    } else if b.len() == 0 {
        Ordering::Greater
    } else if a[0] < b[0] {
        Ordering::Less
    } else if a[0] > b[0] {
        Ordering::Greater
    } else {
        bytewise_cmp(a.drop_first(), b.drop_first())
    }
}

/// How keys are ordered within a block.
#[derive(PartialEq, Eq, Structural, Clone, Copy, Debug)]
pub enum KeyComparator {
    /// Plain byte strings, lexicographically.
    Bytewise,
    /// Internal keys: user key ascending, then trailer descending, so that
    /// newer versions of a user key come first.
    Internal,
}

impl KeyComparator {
    pub open spec fn spec_compare(self, a: Seq<u8>, b: Seq<u8>) -> Ordering {
        match self {
            KeyComparator::Bytewise => bytewise_cmp(a, b),
            KeyComparator::Internal => match bytewise_cmp(user_key(a), user_key(b)) {
                Ordering::Equal => if trailer(a) > trailer(b) {
                    Ordering::Less
                } else if trailer(a) < trailer(b) {
                    Ordering::Greater
                } else {
                    Ordering::Equal
                },
                o => o,
            },
        }
    }

    /// Orders two keys.
    pub fn compare_key(&self, a: &[u8], b: &[u8]) -> (r: Ordering)
        ensures
            r == self.spec_compare(a@, b@),
    {
        match self {
            KeyComparator::Bytewise => compare_bytes(a, b),
            KeyComparator::Internal => {
                match compare_bytes(extract_user_key(a), extract_user_key(b)) {
                    Ordering::Equal => {
                        let ta = extract_trailer(a);
                        let tb = extract_trailer(b);
                        if ta > tb {
                            Ordering::Less
                        } else if ta < tb {
                            Ordering::Greater
                        } else {
                            Ordering::Equal
                        }
                    },
                    o => o,
                }
            },
        }
    }
}

/// Lexicographic comparison of two byte strings.
pub fn compare_bytes(a: &[u8], b: &[u8]) -> (r: Ordering)
    ensures
        r == bytewise_cmp(a@, b@),
{
    let mut i: usize = 0;
    proof {
        assert(a@.skip(0) =~= a@);
        assert(b@.skip(0) =~= b@);
    }
    while i < a.len() && i < b.len() && a[i] == b[i]
        invariant
            i <= a@.len(),
            i <= b@.len(),
            bytewise_cmp(a@, b@) == bytewise_cmp(a@.skip(i as int), b@.skip(i as int)),
        decreases a@.len() - i,
    {
        proof {
            assert(a@.skip(i as int).drop_first() =~= a@.skip(i + 1));
            assert(b@.skip(i as int).drop_first() =~= b@.skip(i + 1));
        }
        i += 1;
    }
    proof {
        assert(a@.skip(i as int).len() == a@.len() - i);
        assert(b@.skip(i as int).len() == b@.len() - i);
    }
    if i == a.len() {
        if i == b.len() {
            Ordering::Equal
        } else {
            Ordering::Less
        }
    } else if i == b.len() {
        Ordering::Greater
    } else if a[i] < b[i] {
        Ordering::Less
    } else {
        Ordering::Greater
    }
}

pub proof fn lemma_bytewise_refl(a: Seq<u8>)
    ensures
        bytewise_cmp(a, a) == Ordering::Equal,
    decreases a.len(),
{
    if a.len() > 0 {
        lemma_bytewise_refl(a.drop_first());
    }
}

pub proof fn lemma_bytewise_equal(a: Seq<u8>, b: Seq<u8>)
    requires
        bytewise_cmp(a, b) == Ordering::Equal,
    ensures
        a == b,
    decreases a.len(),
{
    if a.len() > 0 {
        lemma_bytewise_equal(a.drop_first(), b.drop_first());
        assert(a =~= seq![a[0]] + a.drop_first());
        assert(b =~= seq![b[0]] + b.drop_first());
    } else {
        assert(b.len() == 0);
        assert(a =~= b);
    }
}

pub proof fn lemma_bytewise_trans(a: Seq<u8>, b: Seq<u8>, c: Seq<u8>)
    requires
        bytewise_cmp(a, b) == Ordering::Less,
        bytewise_cmp(b, c) == Ordering::Less,
    ensures
        bytewise_cmp(a, c) == Ordering::Less,
    decreases a.len(),
{
    if a.len() > 0 && b.len() > 0 && c.len() > 0 && a[0] == b[0] && b[0] == c[0] {
        lemma_bytewise_trans(a.drop_first(), b.drop_first(), c.drop_first());
    }
}

/// `Less` under either order is transitive.
pub proof fn lemma_compare_trans(cmp: KeyComparator, a: Seq<u8>, b: Seq<u8>, c: Seq<u8>)
    requires
        cmp.spec_compare(a, b) == Ordering::Less,
        cmp.spec_compare(b, c) == Ordering::Less,
    ensures
        cmp.spec_compare(a, c) == Ordering::Less,
{
    match cmp {
        KeyComparator::Bytewise => {
            lemma_bytewise_trans(a, b, c);
        },
        KeyComparator::Internal => {
            let (ua, ub, uc) = (user_key(a), user_key(b), user_key(c));
            if bytewise_cmp(ua, ub) == Ordering::Equal {
                lemma_bytewise_equal(ua, ub);
            }
            if bytewise_cmp(ub, uc) == Ordering::Equal {
                lemma_bytewise_equal(ub, uc);
            }
            if bytewise_cmp(ua, ub) == Ordering::Less && bytewise_cmp(ub, uc) == Ordering::Less {
                lemma_bytewise_trans(ua, ub, uc);
            }
            if ua == uc {
                lemma_bytewise_refl(ua);
            }
        },
    }
}

pub const HASH_OFFSET_BASIS: u32 = 0x811c_9dc5;

pub const HASH_PRIME: u32 = 0x0100_0193;

/// FNV-1a over the bytes of `s`.
pub open spec fn key_hash(s: Seq<u8>) -> u32
    decreases s.len(),
{
    if s.len() == 0 {
        HASH_OFFSET_BASIS
    } else {
        vstd::wrapping::u32_specs::wrapping_mul(key_hash(s.drop_last()) ^ (s.last() as u32), HASH_PRIME)
    }
}

/// FNV-1a hash of a key, used to place keys in a block's hash index.
pub fn hash_key(s: &[u8]) -> (r: u32)
    ensures
        r == key_hash(s@),
{
    let mut h: u32 = HASH_OFFSET_BASIS;
    let mut i: usize = 0;
    while i < s.len()
        invariant
            i <= s@.len(),
            h == key_hash(s@.take(i as int)),
        decreases s@.len() - i,
    {
        proof {
            assert(s@.take(i + 1).drop_last() =~= s@.take(i as int));
        }
        h = (h ^ (s[i] as u32)).wrapping_mul(HASH_PRIME);
        i += 1;
    }
    proof {
        assert(s@.take(i as int) =~= s@);
    }
    h
}

} // verus!
