//! Base-128 varints and the zigzag mapping of signed integers.
use vstd::prelude::*;

verus! {

/// The LEB128 encoding of `v`: seven bits per byte, least significant group
/// first, with the continuation bit set on every byte but the last.
pub open spec fn varint_bytes(v: nat) -> Seq<u8>
    decreases v,
{
    if v < 128 {
        seq![v as u8]
    } else {
        seq![(v % 128 + 128) as u8] + varint_bytes(v / 128)
    }
}

/// Reads a LEB128 number from the front of `s`, using at most `max` bytes.
/// Gives the value and the number of bytes it took.
pub open spec fn varint_prefix(s: Seq<u8>, max: nat) -> Option<(nat, nat)>
    decreases max,
{
    if max == 0 || s.len() == 0 {
        None
    } else if s[0] < 128 {
        Some((s[0] as nat, 1))
    } else {
        match varint_prefix(s.drop_first(), (max - 1) as nat) {
            Some((v, n)) => Some(((s[0] - 128) as nat + 128 * v, n + 1)),
            None => None,
        }
    }
}

/// The 64-bit varint at the front of `s`: at most ten bytes, and a value
/// that fits in 64 bits.
pub open spec fn varint_at(s: Seq<u8>) -> Option<(u64, nat)> {
    match varint_prefix(s, 10) {
        Some((v, n)) => if v <= u64::MAX {
            Some((v as u64, n))
        } else {
            None
        },
        None => None,
    }
}

pub open spec fn pow128(k: nat) -> nat
    decreases k,
{
    if k == 0 {
        1
    } else {
        128 * pow128((k - 1) as nat)
    }
}

/// A value below 128^k takes at most k bytes.
pub proof fn lemma_varint_len_bound(v: nat, k: nat)
    requires
        1 <= k,
        v < pow128(k),
    ensures
        1 <= varint_bytes(v).len() <= k,
    decreases v,
{
    if v >= 128 {
        reveal_with_fuel(pow128, 2);
        assert(k > 1);
        let p = pow128((k - 1) as nat);
        assert(v / 128 < p) by (nonlinear_arith)
            requires v < 128 * p;
        lemma_varint_len_bound(v / 128, (k - 1) as nat);
    }
}

/// A 64-bit value takes between one and ten bytes.
pub proof fn lemma_varint_len_u64(v: u64)
    ensures
        1 <= varint_bytes(v as nat).len() <= 10,
{
    assert(pow128(0) == 1);
    assert(pow128(1) == 128);
    assert(pow128(2) == 16384);
    assert(pow128(3) == 2097152);
    assert(pow128(4) == 268435456);
    assert(pow128(5) == 34359738368);
    assert(pow128(6) == 4398046511104);
    assert(pow128(7) == 562949953421312);
    assert(pow128(8) == 72057594037927936);
    assert(pow128(9) == 9223372036854775808);
    assert(pow128(10) == 1180591620717411303424);
    lemma_varint_len_bound(v as nat, 10);
}

proof fn lemma_varint_prefix_of_bytes(v: nat, rest: Seq<u8>, max: nat)
    requires
        varint_bytes(v).len() <= max,
    ensures
        varint_prefix(varint_bytes(v) + rest, max) == Some((v, varint_bytes(v).len())),
    decreases v,
{
    let s = varint_bytes(v) + rest;
    if v >= 128 {
        let tail = varint_bytes(v / 128);
        assert(s.drop_first() =~= tail + rest);
        lemma_varint_prefix_of_bytes(v / 128, rest, (max - 1) as nat);
    }
}

/// Decoding the encoding of a 64-bit value, followed by any bytes, gives the
/// value back and consumes exactly the encoding.
pub proof fn lemma_varint_round_trip(v: u64, rest: Seq<u8>)
    ensures
        varint_at(varint_bytes(v as nat) + rest) == Some((v, varint_bytes(v as nat).len())),
{
    lemma_varint_len_u64(v);
    lemma_varint_prefix_of_bytes(v as nat, rest, 10);
}

/// Appends the varint encoding of `value` to `buf`.
pub fn encode_varint(value: u64, buf: &mut Vec<u8>)
    ensures
        final(buf)@ == old(buf)@ + varint_bytes(value as nat),
{
    let mut v: u64 = value;
    while v >= 128
        invariant
            buf@ + varint_bytes(v as nat) == old(buf)@ + varint_bytes(value as nat),
        decreases v,
    {
        let b: u8 = (v % 128 + 128) as u8;
        let ghost before = buf@;
        buf.push(b);
        assert(buf@ + varint_bytes((v / 128) as nat) =~= before + varint_bytes(v as nat));
        v = v / 128;
    }
    let ghost before = buf@;
    buf.push(v as u8);
    assert(buf@ =~= before + varint_bytes(v as nat));
}

/// The number of bytes that `encode_varint` writes for `value`.
pub fn encoded_len_varint(value: u64) -> (r: usize)
    ensures
        r == varint_bytes(value as nat).len(),
        1 <= r <= 10,
{
    proof {
        lemma_varint_len_u64(value);
    }
    let mut v: u64 = value;
    let mut n: usize = 1;
    while v >= 128
        invariant
            n + varint_bytes(v as nat).len() == 1 + varint_bytes(value as nat).len(),
            varint_bytes(value as nat).len() <= 10,
        decreases v,
    {
        v = v / 128;
        n = n + 1;
    }
    n
}

proof fn lemma_varint_prefix_len(s: Seq<u8>, max: nat)
    ensures
        varint_prefix(s, max) matches Some((_, n)) ==> 1 <= n <= max && n <= s.len(),
    decreases max,
{
    if max > 0 && s.len() > 0 && s[0] >= 128 {
        lemma_varint_prefix_len(s.drop_first(), (max - 1) as nat);
    }
}

fn varint_from(data: &[u8], pos: usize, max: usize) -> (r: Option<(u64, usize)>)
    requires
        pos <= data@.len(),
        max <= 10,
    ensures
        r == (match varint_prefix(data@.skip(pos as int), max as nat) {
            Some((v, n)) => if v <= u64::MAX {
                Some((v as u64, n as usize))
            } else {
                None
            },
            None => None,
        }),
        r matches Some((_, n)) ==> 1 <= n <= max && pos + n <= data@.len(),
    decreases max,
{
    let ghost s = data@.skip(pos as int);
    if max == 0 || pos == data.len() {
        return None;
    }
    let b = data[pos];
    if b < 128 {
        return Some((b as u64, 1));
    }
    assert(s.drop_first() =~= data@.skip(pos + 1));
    proof {
        lemma_varint_prefix_len(s, max as nat);
        lemma_varint_prefix_len(s.drop_first(), (max - 1) as nat);
    }
    match varint_from(data, pos + 1, max - 1) {
        Some((v, n)) => {
            if v > 0x1ff_ffff_ffff_ffff {
                assert((b - 128) as nat + 128 * v > u64::MAX);
                None
            } else {
                Some(((b - 128) as u64 + 128 * v, n + 1))
            }
        },
        None => {
            assert(varint_prefix(s.drop_first(), (max - 1) as nat) matches Some((w, _)) ==> w
                > u64::MAX ==> (b - 128) as nat + 128 * w > u64::MAX);
            None
        },
    }
}

/// Reads the varint that starts at `pos` in `data`; gives its value and its
/// length in bytes, or `None` where the bytes run out, the varint is longer
/// than ten bytes, or its value does not fit in 64 bits.
pub fn decode_varint(data: &[u8], pos: usize) -> (r: Option<(u64, usize)>)
    requires
        pos <= data@.len(),
    ensures
        match varint_at(data@.skip(pos as int)) {
            Some((v, n)) => r == Some((v, n as usize)) && 1 <= n <= 10 && pos + n <= data@.len(),
            None => r is None,
        },
{
    proof {
        lemma_varint_prefix_len(data@.skip(pos as int), 10);
    }
    varint_from(data, pos, 10)
}

/// Zigzag mapping of a signed value: 0, -1, 1, -2, 2, ... become 0, 1, 2, 3, 4, ...
pub open spec fn zigzag(n: int) -> nat {
    if n >= 0 {
        (2 * n) as nat
    } else {
        (-2 * n - 1) as nat
    }
}

/// Inverse of the zigzag mapping.
pub open spec fn unzigzag(u: nat) -> int {
    if u % 2 == 0 {
        (u / 2) as int
    } else {
        -((u + 1) / 2)
    }
}

/// Zigzag-encodes a 32-bit signed value (`sint32`).
pub fn zigzag_encode32(n: i32) -> (r: u32)
    ensures
        r == zigzag(n as int),
{
    if n >= 0 {
        (n as u32) * 2
    } else {
        (-(n as i64) - 1) as u32 * 2 + 1
    }
}

/// Recovers a 32-bit signed value from its zigzag form.
pub fn zigzag_decode32(u: u32) -> (r: i32)
    ensures
        r == unzigzag(u as nat),
{
    if u % 2 == 0 {
        (u / 2) as i32
    } else {
        -((u / 2) as i32) - 1
    }
}

/// Zigzag-encodes a 64-bit signed value (`sint64`).
pub fn zigzag_encode64(n: i64) -> (r: u64)
    ensures
        r == zigzag(n as int),
{
    if n >= 0 {
        (n as u64) * 2
    } else {
        (-(n as i128) - 1) as u64 * 2 + 1
    }
}

/// Recovers a 64-bit signed value from its zigzag form.
pub fn zigzag_decode64(u: u64) -> (r: i64)
    ensures
        r == unzigzag(u as nat),
{
    if u % 2 == 0 {
        (u / 2) as i64
    } else {
        -((u / 2) as i64) - 1
    }
}

/// A 32-bit signed value, zigzag-mapped and written as a varint, reads back
/// as itself.
pub proof fn lemma_sint32_round_trip(n: i32, rest: Seq<u8>)
    ensures
        zigzag(n as int) <= u32::MAX,
        varint_at(varint_bytes(zigzag(n as int)) + rest) == Some(
            (zigzag(n as int) as u64, varint_bytes(zigzag(n as int)).len()),
        ),
        unzigzag(zigzag(n as int)) == n,
{
    lemma_varint_round_trip(zigzag(n as int) as u64, rest);
}

/// A 64-bit signed value, zigzag-mapped and written as a varint, reads back
/// as itself.
pub proof fn lemma_sint64_round_trip(n: i64, rest: Seq<u8>)
    ensures
        zigzag(n as int) <= u64::MAX,
        varint_at(varint_bytes(zigzag(n as int)) + rest) == Some(
            (zigzag(n as int) as u64, varint_bytes(zigzag(n as int)).len()),
        ),
        unzigzag(zigzag(n as int)) == n,
{
    lemma_varint_round_trip(zigzag(n as int) as u64, rest);
}

} // verus!
