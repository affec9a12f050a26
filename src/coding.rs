use vstd::prelude::*;
use vstd::slice::slice_subrange;

verus! {

/// 128 to the power `k`.
pub open spec fn pow128(k: nat) -> nat
    decreases k,
{
    if k == 0 {
        1
    } else {
        128 * pow128((k - 1) as nat)
    }
}

/// 256 to the power `k`.
pub open spec fn pow256(k: nat) -> nat
    decreases k,
{
    if k == 0 {
        1
    } else {
        256 * pow256((k - 1) as nat)
    }
}

/// The base-128 little-endian group encoding of `n`: every byte but the
/// last has its high bit set.
pub open spec fn varint_bytes(n: nat) -> Seq<u8>
    decreases n,
{
    if n < 128 {
        seq![n as u8]
    } else {
        seq![((n % 128) + 128) as u8] + varint_bytes(n / 128)
    }
}

/// The value carried by a run of varint groups, least significant first.
pub open spec fn group_value(t: Seq<u8>) -> nat
    decreases t.len(),
{
    if t.len() == 0 {
        0
    } else {
        (t[0] % 128) as nat + 128 * group_value(t.drop_first())
    }
}

/// `s` starts with a complete varint of exactly `l` bytes.
pub open spec fn varint_ends_at(s: Seq<u8>, l: nat) -> bool {
    &&& 1 <= l <= s.len()
    &&& s[l - 1] < 128
    &&& forall|j: int| 0 <= j < l - 1 ==> s[j] >= 128
}

/// The varint at the front of `s`, if one ends within `max` bytes:
/// its value and its length.
pub open spec fn varint_prefix(s: Seq<u8>, max: nat) -> Option<(nat, nat)> {
    if exists|l: nat| l <= max && varint_ends_at(s, l) {
        let l = choose|l: nat| l <= max && varint_ends_at(s, l);
        Some((group_value(s.take(l as int)), l))
    } else {
        None
    }
}

/// A little-endian fixed-width integer read from all of `s`.
pub open spec fn le_value(s: Seq<u8>) -> nat
    decreases s.len(),
{
    if s.len() == 0 {
        0
    } else {
        s[0] as nat + 256 * le_value(s.drop_first())
    }
}

/// The four little-endian bytes of `v`.
pub open spec fn fixed32_bytes(v: u32) -> Seq<u8> {
    seq![
        (v % 256) as u8,
        ((v / 256) % 256) as u8,
        ((v / 65536) % 256) as u8,
        (v / 16777216) as u8,
    ]
}

/// Length of the longest common prefix of `a` and `b`.
pub open spec fn is_common_prefix_len(a: Seq<u8>, b: Seq<u8>, r: nat) -> bool {
    &&& r <= a.len()
    &&& r <= b.len()
    &&& a.take(r as int) == b.take(r as int)
    &&& (r == a.len() || r == b.len() || a[r as int] != b[r as int])
}

/// The key that directly follows `k` in the sense used by callers that
/// need an exclusive upper bound: the last byte raised by one, or a zero
/// byte appended when the last byte is already 255.
pub open spec fn successor_key(k: Seq<u8>) -> Seq<u8>
    recommends
        k.len() > 0,
{
    if k.last() < 255 {
        k.update(k.len() - 1, (k.last() + 1) as u8)
    } else {
        k.push(0)
    }
}

pub const MASK_DELTA: u32 = 0xa282ead8u32;

/// `x` rotated right by 15 bits.
pub open spec fn rotr15(x: u32) -> u32 {
    ((x >> 15u32) | (x << 17u32)) as u32
}

/// `x` rotated left by 15 bits.
pub open spec fn rotl15(x: u32) -> u32 {
    ((x >> 17u32) | (x << 15u32)) as u32
}

/// Rotate right by 15 bits, then add the mask constant (wrapping).
pub open spec fn masked(crc: u32) -> u32 {
    vstd::wrapping::u32_specs::wrapping_add(rotr15(crc), MASK_DELTA)
}

/// Subtract the mask constant (wrapping), then rotate left by 15 bits.
pub open spec fn unmasked(m: u32) -> u32 {
    rotl15(vstd::wrapping::u32_specs::wrapping_sub(m, MASK_DELTA))
}

pub proof fn lemma_varint_bytes_shape(n: nat)
    ensures
        varint_ends_at(varint_bytes(n), varint_bytes(n).len()),
        group_value(varint_bytes(n)) == n,
        varint_bytes(n).len() >= 1,
    decreases n,
{
    if n >= 128 {
        lemma_varint_bytes_shape(n / 128);
        let s = varint_bytes(n);
        let t = varint_bytes(n / 128);
        assert(s.drop_first() =~= t);
        assert(s[0] == ((n % 128) + 128) as u8);
        assert(s[0] % 128 == n % 128);
        assert(n == n % 128 + 128 * (n / 128));
        assert(group_value(s) == (s[0] % 128) as nat + 128 * group_value(t));
        assert forall|j: int| 0 <= j < s.len() - 1 implies s[j] >= 128 by {
            if j > 0 {
                assert(s[j] == t[j - 1]);
            }
        }
    } else {
        assert(varint_bytes(n).drop_first().len() == 0);
        assert(group_value(varint_bytes(n).drop_first()) == 0);
    }
}

pub proof fn lemma_varint_len_bound(n: nat, k: nat)
    requires
        k >= 1,
        n < pow128(k),
    ensures
        varint_bytes(n).len() <= k,
    decreases k,
{
    if n >= 128 {
        assert(k >= 2) by {
            if k == 1 {
                assert(pow128(1) == 128) by {
                    reveal_with_fuel(pow128, 2);
                }
            }
        }
        assert(n / 128 < pow128((k - 1) as nat));
        lemma_varint_len_bound(n / 128, (k - 1) as nat);
    }
}

pub proof fn lemma_pow128_mono(a: nat, b: nat)
    requires
        a <= b,
    ensures
        pow128(a) <= pow128(b),
    decreases b,
{
    if a < b {
        lemma_pow128_mono(a, (b - 1) as nat);
    }
}

pub proof fn lemma_pow128_values()
    ensures
        pow128(1) == 128,
        pow128(5) == 0x8_0000_0000,
        pow128(10) == 0x40_0000_0000_0000_0000,
{
    reveal_with_fuel(pow128, 11);
}

pub proof fn lemma_varint_end_unique(s: Seq<u8>, l1: nat, l2: nat)
    requires
        varint_ends_at(s, l1),
        varint_ends_at(s, l2),
    ensures
        l1 == l2,
{
    if l1 < l2 {
        assert(s[l1 - 1] >= 128);
    }
    if l2 < l1 {
        assert(s[l2 - 1] >= 128);
    }
}

/// Decoding what was encoded gives back the value and the encoded length,
/// whatever bytes follow it.
pub proof fn lemma_varint_round_trip(n: nat, rest: Seq<u8>, max: nat)
    requires
        varint_bytes(n).len() <= max,
    ensures
        varint_prefix(varint_bytes(n) + rest, max) == Some((n, varint_bytes(n).len())),
{
    let e = varint_bytes(n);
    let s = e + rest;
    lemma_varint_bytes_shape(n);
    assert(varint_ends_at(s, e.len()));
    let l = choose|l: nat| l <= max && varint_ends_at(s, l);
    lemma_varint_end_unique(s, l, e.len());
    assert(s.take(e.len() as int) =~= e);
}

/// Unmasking a masked checksum gives the checksum back.
pub proof fn lemma_crc_unmask_mask(crc: u32)
    ensures
        unmasked(masked(crc)) == crc,
{
    let x = rotr15(crc);
    assert(vstd::wrapping::u32_specs::wrapping_sub(
        vstd::wrapping::u32_specs::wrapping_add(x, MASK_DELTA),
        MASK_DELTA,
    ) == x);
    assert(((x >> 17u32) | (x << 15u32)) == crc) by (bit_vector)
        requires
            x == ((crc >> 15u32) | (crc << 17u32)),
    ;
}

/// Reads a little-endian `u32` from the first four bytes.
pub fn decode_fixed_uint32(key: &[u8]) -> (r: u32)
    requires
        key@.len() >= 4,
    ensures
        r == le_value(key@.take(4)),
{
    let r: u32 = (key[0] as u32) + (key[1] as u32) * 256 + (key[2] as u32) * 65536 + (key[3] as u32)
        * 16777216;
    proof {
        reveal_with_fuel(le_value, 5);
        let t = key@.take(4);
        assert(t.drop_first().drop_first().drop_first().drop_first().len() == 0);
    }
    r
}

/// Reads a little-endian `u16` from the first two bytes.
pub fn decode_fixed_uint16(key: &[u8]) -> (r: u16)
    requires
        key@.len() >= 2,
    ensures
        r == le_value(key@.take(2)),
{
    let r: u16 = (key[0] as u16) + (key[1] as u16) * 256;
    proof {
        reveal_with_fuel(le_value, 3);
        assert(key@.take(2).drop_first().drop_first().len() == 0);
    }
    r
}

/// Reads a little-endian `u64` from the first eight bytes.
pub fn decode_fixed_uint64(key: &[u8]) -> (r: u64)
    requires
        key@.len() >= 8,
    ensures
        r == le_value(key@.take(8)),
{
    let lo = decode_fixed_uint32(key);
    let hi = decode_fixed_uint32(slice_subrange(key, 4, 8));
    let r: u64 = (lo as u64) + (hi as u64) * 0x1_0000_0000;
    proof {
        reveal_with_fuel(le_value, 9);
        let t = key@.take(8);
        let h = key@.subrange(4, 8);
        assert(h.take(4) =~= t.drop_first().drop_first().drop_first().drop_first());
        assert(key@.take(4) =~= t.take(4));
        assert(t.drop_first().drop_first().drop_first().drop_first().drop_first().drop_first().drop_first().drop_first().len() == 0);
    }
    r
}

/// Length of the longest common prefix of `origin` and `target`.
pub fn difference_offset(origin: &[u8], target: &[u8]) -> (r: usize)
    ensures
        is_common_prefix_len(origin@, target@, r as nat),
{
    let mut off: usize = 0;
    let len: usize = if origin.len() < target.len() {
        origin.len()
    } else {
        target.len()
    };
    while off < len && origin[off] == target[off]
        invariant
            len <= origin@.len(),
            len <= target@.len(),
            len == origin@.len() || len == target@.len(),
            off <= len,
            origin@.take(off as int) == target@.take(off as int),
        decreases len - off,
    {
        assert(origin@.take(off + 1) =~= origin@.take(off as int).push(origin@[off as int]));
        assert(target@.take(off + 1) =~= target@.take(off as int).push(target@[off as int]));
        off += 1;
    }
    off
}

/// Number of bytes that the varint encoding of `v` takes.
pub fn varint_length(v: usize) -> (r: usize)
    ensures
        r == varint_bytes(v as nat).len(),
{
    let ghost v0 = v as nat;
    let mut v = v;
    let mut len: usize = 1;
    proof {
        lemma_pow128_values();
    }
    while v >= 128
        invariant
            len + varint_bytes(v as nat).len() == varint_bytes(v0).len() + 1,
            1 <= len <= 10,
            v < pow128((11 - len) as nat),
        decreases v,
    {
        proof {
            lemma_pow128_values();
            if len == 10 {
                assert(false);
            }
        }
        v = v / 128;
        len += 1;
    }
    len
}

/// The varint at the front of `s`, when it ends within `max` bytes and its
/// value is below `bound`.
pub open spec fn bounded_varint(s: Seq<u8>, max: nat, bound: nat) -> Option<(nat, nat)> {
    match varint_prefix(s, max) {
        Some((v, l)) => if v < bound {
            Some((v, l))
        } else {
            None
        },
        None => None,
    }
}

/// Encodes `n` as a varint into the front of `data`; returns the number of
/// bytes written.
pub fn encode_var_uint64(data: &mut [u8], n: u64) -> (r: usize)
    requires
        old(data)@.len() >= varint_bytes(n as nat).len(),
    ensures
        r == varint_bytes(n as nat).len(),
        final(data)@.len() == old(data)@.len(),
        final(data)@.take(r as int) == varint_bytes(n as nat),
        final(data)@.skip(r as int) == old(data)@.skip(r as int),
{
    let ghost d0 = data@;
    let mut v = n;
    let mut offset: usize = 0;
    proof {
        lemma_varint_bytes_shape(v as nat);
        assert(data@.take(0) + varint_bytes(v as nat) =~= varint_bytes(v as nat));
    }
    while v >= 128
        invariant
            data@.len() == d0.len(),
            d0.len() >= varint_bytes(n as nat).len(),
            offset + varint_bytes(v as nat).len() == varint_bytes(n as nat).len(),
            data@.take(offset as int) + varint_bytes(v as nat) == varint_bytes(n as nat),
            data@.skip(offset as int) == d0.skip(offset as int),
        decreases v,
    {
        let ghost before = data@;
        let b: u8 = ((v % 128) + 128) as u8;
        proof {
            assert(varint_bytes(v as nat) == seq![b] + varint_bytes((v / 128) as nat));
            lemma_varint_bytes_shape((v / 128) as nat);
        }
        data[offset] = b;
        proof {
            assert(data@.take(offset + 1) =~= before.take(offset as int).push(b));
            assert(data@.take(offset + 1) + varint_bytes((v / 128) as nat) =~= before.take(
                offset as int,
            ) + (seq![b] + varint_bytes((v / 128) as nat)));
            assert(data@.skip(offset + 1) =~= before.skip(offset as int).skip(1));
            assert(d0.skip(offset + 1) =~= d0.skip(offset as int).skip(1));
        }
        v = v / 128;
        offset += 1;
    }
    let ghost before = data@;
    data[offset] = v as u8;
    proof {
        assert(varint_bytes(v as nat) == seq![v as u8]);
        assert(data@.take(offset + 1) =~= before.take(offset as int).push(v as u8));
        assert(data@.skip(offset + 1) =~= before.skip(offset as int).skip(1));
        assert(d0.skip(offset + 1) =~= d0.skip(offset as int).skip(1));
    }
    offset + 1
}

/// Encodes `n` as a varint into the front of `data`; returns the number of
/// bytes written (one to five).
pub fn encode_var_uint32(data: &mut [u8], n: u32) -> (r: usize)
    requires
        old(data)@.len() >= varint_bytes(n as nat).len(),
    ensures
        r == varint_bytes(n as nat).len(),
        1 <= r <= 5,
        final(data)@.len() == old(data)@.len(),
        final(data)@.take(r as int) == varint_bytes(n as nat),
        final(data)@.skip(r as int) == old(data)@.skip(r as int),
{
    proof {
        lemma_pow128_values();
        lemma_varint_len_bound(n as nat, 5);
        lemma_varint_bytes_shape(n as nat);
    }
    encode_var_uint64(data, n as u64)
}

/// Appends the varint encoding of `n`.
fn push_varint(data: &mut Vec<u8>, n: u64)
    ensures
        final(data)@ == old(data)@ + varint_bytes(n as nat),
{
    let ghost d0 = data@;
    let mut v = n;
    proof {
        assert(d0 + varint_bytes(v as nat) == d0 + varint_bytes(n as nat));
    }
    while v >= 128
        invariant
            data@ + varint_bytes(v as nat) == d0 + varint_bytes(n as nat),
        decreases v,
    {
        let b: u8 = ((v % 128) + 128) as u8;
        proof {
            assert(varint_bytes(v as nat) == seq![b] + varint_bytes((v / 128) as nat));
            assert(data@.push(b) + varint_bytes((v / 128) as nat) =~= data@ + (seq![b]
                + varint_bytes((v / 128) as nat)));
        }
        data.push(b);
        v = v / 128;
    }
    proof {
        assert(varint_bytes(v as nat) == seq![v as u8]);
        assert(data@.push(v as u8) =~= data@ + varint_bytes(v as nat));
    }
    data.push(v as u8);
}

/// Appends the varint encoding of `n`.
pub fn put_var_uint32(data: &mut Vec<u8>, n: u32)
    ensures
        final(data)@ == old(data)@ + varint_bytes(n as nat),
{
    push_varint(data, n as u64);
}

/// Appends the varint encoding of `n`.
pub fn put_var_uint64(data: &mut Vec<u8>, n: u64)
    ensures
        final(data)@ == old(data)@ + varint_bytes(n as nat),
{
    push_varint(data, n);
}

/// Appends the varint encodings of `v1` and `v2`.
pub fn put_varint32varint32(dist: &mut Vec<u8>, v1: u32, v2: u32)
    ensures
        final(dist)@ == old(dist)@ + varint_bytes(v1 as nat) + varint_bytes(v2 as nat),
{
    push_varint(dist, v1 as u64);
    push_varint(dist, v2 as u64);
}

/// Appends the varint encodings of `v1` and `v2`.
pub fn put_varint32varint64(dist: &mut Vec<u8>, v1: u32, v2: u64)
    ensures
        final(dist)@ == old(dist)@ + varint_bytes(v1 as nat) + varint_bytes(v2 as nat),
{
    push_varint(dist, v1 as u64);
    push_varint(dist, v2);
}

/// Appends the varint encodings of `v1` and `v2`.
pub fn put_varint64varint64(dist: &mut Vec<u8>, v1: u64, v2: u64)
    ensures
        final(dist)@ == old(dist)@ + varint_bytes(v1 as nat) + varint_bytes(v2 as nat),
{
    push_varint(dist, v1);
    push_varint(dist, v2);
}

/// Appends the varint encodings of `v1`, `v2` and `v3`.
pub fn put_varint32varint32varint64(dist: &mut Vec<u8>, v1: u32, v2: u32, v3: u64)
    ensures
        final(dist)@ == old(dist)@ + varint_bytes(v1 as nat) + varint_bytes(v2 as nat)
            + varint_bytes(v3 as nat),
{
    push_varint(dist, v1 as u64);
    push_varint(dist, v2 as u64);
    push_varint(dist, v3);
}

/// Appends every byte of `data`.
pub fn append_bytes(buf: &mut Vec<u8>, data: &[u8])
    ensures
        final(buf)@ == old(buf)@ + data@,
{
    let ghost b0 = buf@;
    let mut i: usize = 0;
    while i < data.len()
        invariant
            i <= data@.len(),
            buf@ == b0 + data@.take(i as int),
        decreases data@.len() - i,
    {
        proof {
            assert(data@.take(i + 1) =~= data@.take(i as int).push(data@[i as int]));
        }
        buf.push(data[i]);
        i += 1;
    }
    proof {
        assert(data@.take(i as int) =~= data@);
    }
}

/// Appends `data` preceded by its length as a varint.
pub fn put_length_prefixed_slice(buf: &mut Vec<u8>, data: &[u8])
    requires
        data@.len() <= u32::MAX,
    ensures
        final(buf)@ == old(buf)@ + varint_bytes(data@.len()) + data@,
{
    put_var_uint32(buf, data.len() as u32);
    append_bytes(buf, data);
}

/// Appends the four little-endian bytes of `v`.
pub fn put_fixed32(buf: &mut Vec<u8>, v: u32)
    ensures
        final(buf)@ == old(buf)@ + fixed32_bytes(v),
{
    let ghost b0 = buf@;
    buf.push((v % 256) as u8);
    buf.push(((v / 256) % 256) as u8);
    buf.push(((v / 65536) % 256) as u8);
    buf.push((v / 16777216) as u8);
    proof {
        assert(buf@ =~= b0 + fixed32_bytes(v));
    }
}

pub proof fn lemma_fixed32_round_trip(v: u32)
    ensures
        le_value(fixed32_bytes(v)) == v,
{
    reveal_with_fuel(le_value, 5);
    let s = fixed32_bytes(v);
    assert(s.drop_first().drop_first().drop_first().drop_first().len() == 0);
    assert(s.drop_first() =~= seq![s[1], s[2], s[3]]);
    assert(s.drop_first().drop_first() =~= seq![s[2], s[3]]);
    assert(s.drop_first().drop_first().drop_first() =~= seq![s[3]]);
}

/// Finds the varint at the front of `data`, if one ends within `max` bytes.
fn parse_varint(data: &[u8], max: usize) -> (r: Option<(u128, usize)>)
    requires
        max <= 10,
    ensures
        r is None <==> varint_prefix(data@, max as nat) is None,
        r matches Some((v, l)) ==> varint_prefix(data@, max as nat) == Some((v as nat, l as nat)),
{
    let mut l: usize = 0;
    while l < max && l < data.len() && data[l] >= 128
        invariant
            l <= max,
            l <= data@.len(),
            forall|j: int| 0 <= j < l ==> data@[j] >= 128,
        decreases max - l,
    {
        l += 1;
    }
    if l == max || l == data.len() {
        proof {
            if exists|k: nat| k <= max && varint_ends_at(data@, k) {
                let k = choose|k: nat| k <= max && varint_ends_at(data@, k);
                assert(data@[k - 1] >= 128);
            }
        }
        return None;
    }
    let end = l + 1;
    proof {
        assert(varint_ends_at(data@, end as nat));
        let k = choose|k: nat| k <= max && varint_ends_at(data@, k);
        lemma_varint_end_unique(data@, k, end as nat);
        lemma_pow128_values();
    }
    let mut ret: u128 = 0;
    let mut j: usize = end;
    proof {
        assert(data@.subrange(j as int, end as int).len() == 0);
        reveal_with_fuel(pow128, 1);
    }
    while j > 0
        invariant
            j <= end <= 10,
            end <= data@.len(),
            ret == group_value(data@.subrange(j as int, end as int)),
            ret < pow128((end - j) as nat),
        decreases j,
    {
        j -= 1;
        let low: u8 = data[j] % 128;
        proof {
            let t = data@.subrange(j as int, end as int);
            assert(t.drop_first() =~= data@.subrange(j + 1, end as int));
            lemma_pow128_mono((end - j - 1) as nat, 10);
            lemma_pow128_values();
            let p = pow128((end - j - 1) as nat);
            assert(ret * 128 + low < 128 * p) by (nonlinear_arith)
                requires
                    ret < p,
                    low < 128,
            ;
        }
        ret = ret * 128 + low as u128;
    }
    proof {
        assert(data@.subrange(0, end as int) =~= data@.take(end as int));
    }
    Some((ret, end))
}

/// Reads a varint of at most five bytes whose value fits in `u32` from the
/// front of `data`, and advances `offset` past it. Returns `None`, with
/// `offset` unchanged, where no such varint is there.
pub fn get_var_uint32(data: &[u8], offset: &mut usize) -> (r: Option<u32>)
    requires
        *old(offset) + data@.len() <= usize::MAX,
    ensures
        match bounded_varint(data@, 5, 0x1_0000_0000) {
            Some((v, l)) => r == Some(v as u32) && *final(offset) == *old(offset) + l,
            None => r is None && *final(offset) == *old(offset),
        },
{
    match parse_varint(data, 5) {
        Some((v, l)) => {
            if v <= 0xffff_ffff {
                *offset = *offset + l;
                Some(v as u32)
            } else {
                None
            }
        },
        None => None,
    }
}

/// Reads a varint of at most ten bytes whose value fits in `u64` from the
/// front of `data`, and advances `next_offset` past it. Returns `None`, with
/// `next_offset` unchanged, where no such varint is there.
pub fn get_var_uint64(data: &[u8], next_offset: &mut usize) -> (r: Option<u64>)
    requires
        *old(next_offset) + data@.len() <= usize::MAX,
    ensures
        match bounded_varint(data@, 10, 0x1_0000_0000_0000_0000) {
            Some((v, l)) => r == Some(v as u64) && *final(next_offset) == *old(next_offset) + l,
            None => r is None && *final(next_offset) == *old(next_offset),
        },
{
    match parse_varint(data, 10) {
        Some((v, l)) => {
            if v <= 0xffff_ffff_ffff_ffff {
                *next_offset = *next_offset + l;
                Some(v as u64)
            } else {
                None
            }
        },
        None => None,
    }
}

/// Reads a slice preceded by its varint length from the front of `buf`, and
/// advances `offset` past both. Returns `None`, with `offset` unchanged,
/// where the length is malformed or runs past the end of `buf`.
pub fn get_length_prefixed_slice<'a>(buf: &'a [u8], offset: &mut usize) -> (r: Option<&'a [u8]>)
    requires
        *old(offset) + buf@.len() <= usize::MAX,
    ensures
        match bounded_varint(buf@, 5, 0x1_0000_0000) {
            Some((v, l)) => if l + v <= buf@.len() {
                r matches Some(s) && s@ == buf@.subrange(l as int, (l + v) as int) && *final(offset) == *old(
                    offset,
                ) + l + v
            } else {
                r is None && *final(offset) == *old(offset)
            },
            None => r is None && *final(offset) == *old(offset),
        },
{
    let mut l: usize = 0;
    match get_var_uint32(buf, &mut l) {
        Some(val) => {
            if val as usize <= buf.len() - l {
                let limit = l + val as usize;
                *offset = *offset + limit;
                Some(slice_subrange(buf, l, limit))
            } else {
                None
            }
        },
        None => None,
    }
}

/// Raises `key` to its successor: the last byte plus one, or a zero byte
/// appended where the last byte is 255.
pub fn next_key(key: &mut Vec<u8>)
    requires
        old(key)@.len() > 0,
    ensures
        final(key)@ == successor_key(old(key)@),
{
    let last = key.len() - 1;
    let b = key[last];
    if b < 255 {
        key.set(last, b + 1);
    } else {
        key.push(0);
    }
}

/// The successor of `key`: the last byte plus one, or a zero byte appended
/// where the last byte is 255.
pub fn get_next_key(key: &[u8]) -> (r: Vec<u8>)
    requires
        key@.len() > 0,
    ensures
        r@ == successor_key(key@),
{
    let mut data: Vec<u8> = Vec::new();
    append_bytes(&mut data, key);
    proof {
        assert(data@ =~= key@);
    }
    next_key(&mut data);
    data
}

/// Masks a checksum: rotate right by 15 bits, then add a constant.
pub fn crc_mask(crc: u32) -> (r: u32)
    ensures
        r == masked(crc),
{
    let rot: u32 = (crc >> 15u32) | (crc << 17u32);
    rot.wrapping_add(MASK_DELTA)
}

/// Undoes `crc_mask`: subtract the constant, then rotate left by 15 bits.
pub fn crc_unmask(masked_crc: u32) -> (r: u32)
    ensures
        r == unmasked(masked_crc),
{
    let rot: u32 = masked_crc.wrapping_sub(MASK_DELTA);
    (rot >> 17u32) | (rot << 15u32)
}

} // verus!
