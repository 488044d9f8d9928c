//! Keys, wire types, decode errors, the decode context, unknown-field
//! skipping and the fixed-width and length-delimited field primitives.
use vstd::prelude::*;

use crate::varint::{lemma_varint_len_bound, pow128, decode_varint, encode_varint, encoded_len_varint, varint_at, varint_bytes};

verus! {

/// Depth budget a top-level decode starts with.
pub const RECURSION_LIMIT: u32 = 100;

/// Largest field tag the wire format allows.
pub const MAX_TAG: u32 = 536870911;

/// Physical layout of the value that follows a key.
#[derive(Clone, Copy, Debug, PartialEq, Eq, Structural)]
pub enum WireType {
    Varint,
    SixtyFourBit,
    LengthDelimited,
    StartGroup,
    EndGroup,
    ThirtyTwoBit,
}

/// Why a decode failed.
#[derive(Clone, Copy, Debug, PartialEq, Eq, Structural)]
pub enum DecodeError {
    /// A varint ran past the input, past ten bytes, or past 64 bits.
    InvalidVarint,
    /// A key does not fit in 32 bits.
    InvalidKey,
    /// The low three bits of a key are not a known wire type.
    InvalidWireType,
    /// A key holds the tag zero.
    InvalidTag,
    /// A known field arrived with a wire type other than its own.
    WireTypeMismatch,
    /// An end-group marker with no matching start, or with another tag.
    UnexpectedEndGroup,
    /// A fixed-width or length-delimited value runs past the input.
    BufferUnderflow,
    /// Nesting went deeper than the decode context allows.
    RecursionLimit,
    /// A string field holds bytes that are not UTF-8.
    InvalidUtf8,
}

impl DecodeError {
    /// A short description of the failure.
    pub fn description(&self) -> (r: &'static str) {
        match self {
            DecodeError::InvalidVarint => "invalid varint",
            DecodeError::InvalidKey => "invalid key value",
            DecodeError::InvalidWireType => "invalid wire type value",
            DecodeError::InvalidTag => "invalid tag value: 0",
            DecodeError::WireTypeMismatch => "invalid wire type",
            DecodeError::UnexpectedEndGroup => "unexpected end group tag",
            DecodeError::BufferUnderflow => "buffer underflow",
            DecodeError::RecursionLimit => "recursion limit reached",
            DecodeError::InvalidUtf8 => "invalid string value: data is not UTF-8 encoded",
        }
    }
}

/// Remaining nesting budget, handed by value to each nested decode, so that
/// leaving a nested decode, normally or by an error, restores the caller's
/// budget.
#[derive(Clone, Copy, Debug, PartialEq, Eq, Structural)]
pub struct DecodeContext {
    pub recursion_limit: u32,
}

impl DecodeContext {
    /// The context a top-level decode starts with.
    pub fn new() -> (r: DecodeContext)
        ensures
            r.recursion_limit == RECURSION_LIMIT,
    {
        DecodeContext { recursion_limit: RECURSION_LIMIT }
    }

    /// Fails once the budget is spent.
    pub fn limit_reached(&self) -> (r: Result<(), DecodeError>)
        ensures
            r == (if self.recursion_limit == 0 {
                Err(DecodeError::RecursionLimit)
            } else {
                Ok(())
            }),
    {
        if self.recursion_limit == 0 {
            Err(DecodeError::RecursionLimit)
        } else {
            Ok(())
        }
    }

    /// The context for one level further down.
    pub fn enter_recursion(&self) -> (r: DecodeContext)
        requires
            self.recursion_limit > 0,
        ensures
            r.recursion_limit == self.recursion_limit - 1,
    {
        DecodeContext { recursion_limit: self.recursion_limit - 1 }
    }
}

pub open spec fn wire_type_value(wt: WireType) -> nat {
    match wt {
        WireType::Varint => 0,
        WireType::SixtyFourBit => 1,
        WireType::LengthDelimited => 2,
        WireType::StartGroup => 3,
        WireType::EndGroup => 4,
        WireType::ThirtyTwoBit => 5,
    }
}

pub open spec fn wire_type_of(v: nat) -> Option<WireType> {
    if v == 0 {
        Some(WireType::Varint)
    } else if v == 1 {
        Some(WireType::SixtyFourBit)
    } else if v == 2 {
        Some(WireType::LengthDelimited)
    } else if v == 3 {
        Some(WireType::StartGroup)
    } else if v == 4 {
        Some(WireType::EndGroup)
    } else if v == 5 {
        Some(WireType::ThirtyTwoBit)
    } else {
        None
    }
}

/// The wire type whose number is `value`.
pub fn wire_type_from_value(value: u64) -> (r: Option<WireType>)
    ensures
        r == wire_type_of(value as nat),
{
    if value == 0 {
        Some(WireType::Varint)
    } else if value == 1 {
        Some(WireType::SixtyFourBit)
    } else if value == 2 {
        Some(WireType::LengthDelimited)
    } else if value == 3 {
        Some(WireType::StartGroup)
    } else if value == 4 {
        Some(WireType::EndGroup)
    } else if value == 5 {
        Some(WireType::ThirtyTwoBit)
    } else {
        None
    }
}

/// The bytes of the key for `tag` and `wt`.
pub open spec fn key_bytes(tag: nat, wt: WireType) -> Seq<u8> {
    varint_bytes(tag * 8 + wire_type_value(wt))
}

/// The key at the front of `s`: its tag, its wire type and its length.
pub open spec fn key_at(s: Seq<u8>) -> Result<(u32, WireType, nat), DecodeError> {
    match varint_at(s) {
        None => Err(DecodeError::InvalidVarint),
        Some((k, n)) => if k > u32::MAX {
            Err(DecodeError::InvalidKey)
        } else {
            match wire_type_of((k % 8) as nat) {
                None => Err(DecodeError::InvalidWireType),
                Some(wt) => if k / 8 == 0 {
                    Err(DecodeError::InvalidTag)
                } else {
                    Ok(((k / 8) as u32, wt, n))
                },
            }
        },
    }
}

/// Appends the key for `tag` and `wt`.
pub fn encode_key(tag: u32, wt: WireType, buf: &mut Vec<u8>)
    requires
        1 <= tag <= MAX_TAG,
    ensures
        final(buf)@ == old(buf)@ + key_bytes(tag as nat, wt),
{
    let v: u32 = match wt {
        WireType::Varint => 0,
        WireType::SixtyFourBit => 1,
        WireType::LengthDelimited => 2,
        WireType::StartGroup => 3,
        WireType::EndGroup => 4,
        WireType::ThirtyTwoBit => 5,
    };
    encode_varint((tag as u64) * 8 + v as u64, buf);
}

/// The length of the key for `tag` and any wire type.
pub fn key_len(tag: u32) -> (r: usize)
    requires
        1 <= tag <= MAX_TAG,
    ensures
        forall|wt: WireType| r == #[trigger] key_bytes(tag as nat, wt).len(),
        1 <= r <= 5,
{
    let r = encoded_len_varint((tag as u64) * 8);
    assert forall|wt: WireType| r == #[trigger] key_bytes(tag as nat, wt).len() by {
        lemma_varint_len_same_group(tag as nat * 8, wire_type_value(wt));
    }
    proof {
        lemma_varint_len_below(tag as nat * 8 + 7);
    }
    r
}

proof fn lemma_varint_len_same_group(base: nat, low: nat)
    requires
        base % 8 == 0,
        low < 8,
    ensures
        varint_bytes(base + low).len() == varint_bytes(base).len(),
{
    if base >= 128 {
        assert(base % 128 <= 120);
        assert((base + low) / 128 == base / 128);
        lemma_varint_len_eq_quot(base + low, base);
    } else {
        assert(base <= 120);
    }
}

proof fn lemma_varint_len_eq_quot(a: nat, b: nat)
    requires
        a / 128 == b / 128,
        a >= 128,
        b >= 128,
    ensures
        varint_bytes(a).len() == varint_bytes(b).len(),
{
}

proof fn lemma_varint_len_below(v: nat)
    requires
        v < 0x1_0000_0000,
    ensures
        varint_bytes(v).len() <= 5,
{
    reveal_with_fuel(pow128, 6);
    assert(pow128(5) == 34359738368);
    lemma_varint_len_bound(v, 5);
}

/// Reads the key at `*pos`.
pub fn decode_key(data: &[u8], pos: &mut usize) -> (r: Result<(u32, WireType), DecodeError>)
    requires
        *old(pos) <= data@.len(),
    ensures
        *final(pos) <= data@.len(),
        match key_at(data@.skip(*old(pos) as int)) {
            Ok((t, wt, n)) => r == Ok::<(u32, WireType), DecodeError>((t, wt)) && *final(pos)
                == *old(pos) + n,
            Err(e) => r == Err::<(u32, WireType), DecodeError>(e),
        },
        r is Ok ==> *old(pos) < *final(pos),
{
    let res = decode_varint(data, *pos);
    if res.is_none() {
        return Err(DecodeError::InvalidVarint);
    }
    let (key, n) = res.unwrap();
    let len = data.len();
    if key > 0xffff_ffff {
        return Err(DecodeError::InvalidKey);
    }
    let wt = match wire_type_from_value(key % 8) {
        Some(wt) => wt,
        None => return Err(DecodeError::InvalidWireType),
    };
    let tag = key / 8;
    if tag == 0 {
        return Err(DecodeError::InvalidTag);
    }
    *pos = *pos + n;
    Ok((tag as u32, wt))
}

/// Fails unless `actual` is `expected`.
pub fn check_wire_type(expected: WireType, actual: WireType) -> (r: Result<(), DecodeError>)
    ensures
        r == (if expected == actual {
            Ok(())
        } else {
            Err(DecodeError::WireTypeMismatch)
        }),
{
    if expected == actual {
        Ok(())
    } else {
        Err(DecodeError::WireTypeMismatch)
    }
}

/// Bytes taken by one occurrence of an unrecognised field whose value starts
/// at the front of `s`, with `depth` levels of nesting allowed.
pub open spec fn skip_len(wt: WireType, tag: u32, s: Seq<u8>, depth: nat) -> Result<nat, DecodeError>
    decreases s.len(), 1nat,
{
    if depth == 0 {
        Err(DecodeError::RecursionLimit)
    } else {
        match wt {
            WireType::Varint => match varint_at(s) {
                Some((_, n)) => Ok(n),
                None => Err(DecodeError::InvalidVarint),
            },
            WireType::SixtyFourBit => if s.len() >= 8 {
                Ok(8)
            } else {
                Err(DecodeError::BufferUnderflow)
            },
            WireType::ThirtyTwoBit => if s.len() >= 4 {
                Ok(4)
            } else {
                Err(DecodeError::BufferUnderflow)
            },
            WireType::LengthDelimited => match varint_at(s) {
                Some((len, n)) => if len <= s.len() - n {
                    Ok((n + len) as nat)
                } else {
                    Err(DecodeError::BufferUnderflow)
                },
                None => Err(DecodeError::InvalidVarint),
            },
            WireType::StartGroup => group_len(tag, s, (depth - 1) as nat),
            WireType::EndGroup => Err(DecodeError::UnexpectedEndGroup),
        }
    }
}

/// Bytes taken by the fields of a group opened with `tag`, up to and
/// including its end marker.
pub open spec fn group_len(tag: u32, s: Seq<u8>, depth: nat) -> Result<nat, DecodeError>
    decreases s.len(), 0nat,
{
    match key_at(s) {
        Err(e) => Err(e),
        Ok((t, wt, k)) => if !(1 <= k <= s.len()) {
            Err(DecodeError::InvalidVarint)
        } else if wt == WireType::EndGroup {
            if t == tag {
                Ok(k)
            } else {
                Err(DecodeError::UnexpectedEndGroup)
            }
        } else {
            match skip_len(wt, t, s.skip(k as int), depth) {
                Err(e) => Err(e),
                Ok(n) => if n > s.len() - k {
                    Err(DecodeError::BufferUnderflow)
                } else {
                    match group_len(tag, s.skip((k + n) as int), depth) {
                        Ok(m) => Ok((k + n + m) as nat),
                        Err(e) => Err(e),
                    }
                },
            }
        },
    }
}

/// Consumes one occurrence of an unrecognised field, whose key has been
/// read, without producing a value.
pub fn skip_field(wt: WireType, tag: u32, data: &[u8], pos: &mut usize, ctx: DecodeContext) -> (r:
    Result<(), DecodeError>)
    requires
        *old(pos) <= data@.len(),
    ensures
        *final(pos) <= data@.len(),
        match skip_len(wt, tag, data@.skip(*old(pos) as int), ctx.recursion_limit as nat) {
            Ok(n) => r is Ok && *final(pos) == *old(pos) + n,
            Err(e) => r == Err::<(), DecodeError>(e),
        },
    decreases ctx.recursion_limit,
{
    let len = data.len();
    ctx.limit_reached()?;
    let ghost s = data@.skip(*pos as int);
    match wt {
        WireType::Varint => {
            match decode_varint(data, *pos) {
                Some((_, n)) => {
                    *pos = *pos + n;
                    Ok(())
                },
                None => Err(DecodeError::InvalidVarint),
            }
        },
        WireType::SixtyFourBit => {
            if len - *pos >= 8 {
                *pos = *pos + 8;
                Ok(())
            } else {
                Err(DecodeError::BufferUnderflow)
            }
        },
        WireType::ThirtyTwoBit => {
            if len - *pos >= 4 {
                *pos = *pos + 4;
                Ok(())
            } else {
                Err(DecodeError::BufferUnderflow)
            }
        },
        WireType::LengthDelimited => {
            match decode_varint(data, *pos) {
                Some((l, n)) => {
                    if l <= (len - *pos - n) as u64 {
                        *pos = *pos + n + l as usize;
                        Ok(())
                    } else {
                        Err(DecodeError::BufferUnderflow)
                    }
                },
                None => Err(DecodeError::InvalidVarint),
            }
        },
        WireType::EndGroup => Err(DecodeError::UnexpectedEndGroup),
        WireType::StartGroup => {
            let inner = ctx.enter_recursion();
            let ghost d = inner.recursion_limit as nat;
            let ghost start = *pos;
            assert(skip_len(wt, tag, data@.skip(start as int), ctx.recursion_limit as nat) == group_len(
                tag,
                data@.skip(start as int),
                d,
            ));
            loop
                invariant
                    start <= *pos <= data@.len(),
                    len == data@.len(),
                    d == inner.recursion_limit,
                    inner.recursion_limit < ctx.recursion_limit,
                    start == *old(pos),
                    skip_len(wt, tag, data@.skip(start as int), ctx.recursion_limit as nat)
                        == group_len(tag, data@.skip(start as int), d),
                    group_len(tag, data@.skip(start as int), d) == (match group_len(
                        tag,
                        data@.skip(*pos as int),
                        d,
                    ) {
                        Ok(m) => Ok((*pos - start + m) as nat),
                        Err(e) => Err(e),
                    }),
                decreases data@.len() - *pos,
            {
                let ghost here = *pos;
                let ghost t = data@.skip(here as int);
                let (inner_tag, inner_wt) = match decode_key(data, pos) {
                    Ok(kv) => kv,
                    Err(e) => {
                        assert(group_len(tag, t, d) == Err::<nat, DecodeError>(e));
                        return Err(e);
                    },
                };
                let ghost k = (*pos - here) as nat;
                assert(key_at(t) == Ok::<(u32, WireType, nat), DecodeError>((inner_tag, inner_wt, k)));
                if inner_wt == WireType::EndGroup {
                    if inner_tag != tag {
                        assert(group_len(tag, t, d) == Err::<nat, DecodeError>(DecodeError::UnexpectedEndGroup));
                        return Err(DecodeError::UnexpectedEndGroup);
                    }
                    assert(group_len(tag, t, d) == Ok::<nat, DecodeError>(k));
                    return Ok(());
                }
                assert(t.skip(k as int) =~= data@.skip(*pos as int));
                let ghost mid = *pos;
                match skip_field(inner_wt, inner_tag, data, pos, inner) {
                    Ok(()) => {},
                    Err(e) => {
                        assert(group_len(tag, t, d) == Err::<nat, DecodeError>(e));
                        return Err(e);
                    },
                }
                assert(t.skip((k + (*pos - mid)) as int) =~= data@.skip(*pos as int));
            }
        },
    }
}

/// Value and length of a varint field whose value starts at the front of `s`.
pub open spec fn varint_field(wt: WireType, s: Seq<u8>) -> Result<(u64, nat), DecodeError> {
    if wt != WireType::Varint {
        Err(DecodeError::WireTypeMismatch)
    } else {
        match varint_at(s) {
            Some((v, n)) => Ok((v, n)),
            None => Err(DecodeError::InvalidVarint),
        }
    }
}

/// Payload and length of a length-delimited field whose value starts at the
/// front of `s`.
pub open spec fn delimited_field(wt: WireType, s: Seq<u8>) -> Result<(Seq<u8>, nat), DecodeError> {
    if wt != WireType::LengthDelimited {
        Err(DecodeError::WireTypeMismatch)
    } else {
        match varint_at(s) {
            Some((len, n)) => if len <= s.len() - n {
                Ok((s.subrange(n as int, n + len), (n + len) as nat))
            } else {
                Err(DecodeError::BufferUnderflow)
            },
            None => Err(DecodeError::InvalidVarint),
        }
    }
}

/// Reads the value of a varint field.
pub fn decode_varint_field(wt: WireType, data: &[u8], pos: &mut usize) -> (r: Result<u64, DecodeError>)
    requires
        *old(pos) <= data@.len(),
    ensures
        *final(pos) <= data@.len(),
        match varint_field(wt, data@.skip(*old(pos) as int)) {
            Ok((v, n)) => r == Ok::<u64, DecodeError>(v) && *final(pos) == *old(pos) + n,
            Err(e) => r == Err::<u64, DecodeError>(e),
        },
{
    let len = data.len();
    check_wire_type(WireType::Varint, wt)?;
    match decode_varint(data, *pos) {
        Some((v, n)) => {
            *pos = *pos + n;
            Ok(v)
        },
        None => Err(DecodeError::InvalidVarint),
    }
}

/// Reads the length prefix of a length-delimited field; gives the range of
/// its payload in `data` and moves past it.
pub fn decode_delimited_field(wt: WireType, data: &[u8], pos: &mut usize) -> (r: Result<
    (usize, usize),
    DecodeError,
>)
    requires
        *old(pos) <= data@.len(),
    ensures
        *final(pos) <= data@.len(),
        match delimited_field(wt, data@.skip(*old(pos) as int)) {
            Ok((p, n)) => r matches Ok((a, b)) && a <= b == *final(pos) && *final(pos) == *old(pos)
                + n && data@.subrange(a as int, b as int) == p,
            Err(e) => r == Err::<(usize, usize), DecodeError>(e),
        },
{
    let len = data.len();
    check_wire_type(WireType::LengthDelimited, wt)?;
    match decode_varint(data, *pos) {
        Some((l, n)) => {
            if l <= (len - *pos - n) as u64 {
                let start = *pos + n;
                let end = start + l as usize;
                *pos = end;
                assert(data@.subrange(start as int, end as int) =~= data@.skip(
                    *old(pos) as int,
                ).subrange(n as int, n + l));
                Ok((start, end))
            } else {
                Err(DecodeError::BufferUnderflow)
            }
        },
        None => Err(DecodeError::InvalidVarint),
    }
}

/// `s` written `k` times in a row.
pub open spec fn repeat(s: Seq<u8>, k: nat) -> Seq<u8>
    decreases k,
{
    if k == 0 {
        Seq::empty()
    } else {
        s + repeat(s, (k - 1) as nat)
    }
}

proof fn lemma_repeat_snoc(s: Seq<u8>, k: nat)
    requires
        k >= 1,
    ensures
        repeat(s, k) == repeat(s, (k - 1) as nat) + s,
    decreases k,
{
    if k == 1 {
        assert(repeat(s, 0) == Seq::<u8>::empty());
        assert(repeat(s, 1) =~= Seq::<u8>::empty() + s);
    } else {
        lemma_repeat_snoc(s, (k - 1) as nat);
        assert(repeat(s, k) =~= repeat(s, (k - 1) as nat) + s);
    }
}

/// The key for `tag` and `wt` reads back as itself, whatever follows it.
pub proof fn lemma_key_at(tag: u32, wt: WireType, tail: Seq<u8>)
    requires
        1 <= tag <= MAX_TAG,
    ensures
        key_bytes(tag as nat, wt).len() >= 1,
        key_at(key_bytes(tag as nat, wt) + tail) == Ok::<(u32, WireType, nat), DecodeError>(
            (tag, wt, key_bytes(tag as nat, wt).len()),
        ),
{
    let key = (tag as nat * 8 + wire_type_value(wt)) as u64;
    crate::varint::lemma_varint_round_trip(key, tail);
    crate::varint::lemma_varint_len_u64(key);
    assert(key % 8 == wire_type_value(wt));
    assert(key / 8 == tag);
}

/// Skipping a group whose start key has been read, when `k - 1` further
/// groups with the same tag nest inside it, succeeds exactly when the depth
/// budget allows `k` levels, and then takes the whole chain.
pub proof fn lemma_nested_group_skip(tag: u32, k: nat, depth: nat, rest: Seq<u8>)
    requires
        1 <= tag <= MAX_TAG,
        k >= 1,
    ensures
        ({
            let st = key_bytes(tag as nat, WireType::StartGroup);
            let en = key_bytes(tag as nat, WireType::EndGroup);
            let s = repeat(st, (k - 1) as nat) + repeat(en, k) + rest;
            &&& k <= depth ==> skip_len(WireType::StartGroup, tag, s, depth) == Ok::<nat, DecodeError>(
                (repeat(st, (k - 1) as nat).len() + repeat(en, k).len()) as nat,
            )
            &&& k > depth ==> skip_len(WireType::StartGroup, tag, s, depth) == Err::<nat, DecodeError>(
                DecodeError::RecursionLimit,
            )
        }),
    decreases k,
{
    let st = key_bytes(tag as nat, WireType::StartGroup);
    let en = key_bytes(tag as nat, WireType::EndGroup);
    let s = repeat(st, (k - 1) as nat) + repeat(en, k) + rest;
    if depth == 0 {
        return;
    }
    let d = (depth - 1) as nat;
    lemma_repeat_snoc(en, k);
    if k == 1 {
        assert(repeat(st, 0) == Seq::<u8>::empty());
        assert(repeat(en, 0) == Seq::<u8>::empty());
        assert(s =~= en + rest);
        lemma_key_at(tag, WireType::EndGroup, rest);
        assert(group_len(tag, s, d) == Ok::<nat, DecodeError>(en.len()));
    } else {
        let inner = repeat(st, (k - 2) as nat) + repeat(en, (k - 1) as nat) + (en + rest);
        assert(repeat(st, (k - 1) as nat) == st + repeat(st, (k - 2) as nat));
        assert(s =~= st + inner);
        lemma_key_at(tag, WireType::StartGroup, inner);
        assert(s.skip(st.len() as int) =~= inner);
        lemma_nested_group_skip(tag, (k - 1) as nat, d, en + rest);
        if k - 1 <= d {
            let n = (repeat(st, (k - 2) as nat).len() + repeat(en, (k - 1) as nat).len()) as nat;
            assert(skip_len(WireType::StartGroup, tag, inner, d) == Ok::<nat, DecodeError>(n));
            let after = s.skip((st.len() + n) as int);
            assert(after =~= en + rest);
            lemma_key_at(tag, WireType::EndGroup, rest);
            assert(group_len(tag, after, d) == Ok::<nat, DecodeError>(en.len()));
            assert(group_len(tag, s, d) == Ok::<nat, DecodeError>((st.len() + n + en.len()) as nat));
        } else {
            assert(group_len(tag, s, d) == Err::<nat, DecodeError>(DecodeError::RecursionLimit));
        }
    }
}

/// The `n` low bytes of `v`, least significant first.
pub open spec fn le_bytes(v: nat, n: nat) -> Seq<u8>
    decreases n,
{
    if n == 0 {
        Seq::empty()
    } else {
        seq![(v % 256) as u8] + le_bytes(v / 256, (n - 1) as nat)
    }
}

/// The number whose bytes, least significant first, are `s`.
pub open spec fn le_value(s: Seq<u8>) -> nat
    decreases s.len(),
{
    if s.len() == 0 {
        0
    } else {
        s[0] as nat + 256 * le_value(s.drop_first())
    }
}

pub open spec fn pow256(n: nat) -> nat
    decreases n,
{
    if n == 0 {
        1
    } else {
        256 * pow256((n - 1) as nat)
    }
}

/// Reading back `n` little-endian bytes of a value below 256^n gives it.
pub proof fn lemma_le_round_trip(v: nat, n: nat)
    requires
        v < pow256(n),
    ensures
        le_bytes(v, n).len() == n,
        le_value(le_bytes(v, n)) == v,
    decreases n,
{
    if n > 0 {
        let p = pow256((n - 1) as nat);
        assert(v / 256 < p) by (nonlinear_arith)
            requires
                v < 256 * p,
        ;
        lemma_le_round_trip(v / 256, (n - 1) as nat);
        assert(le_bytes(v, n).drop_first() =~= le_bytes(v / 256, (n - 1) as nat));
    } else {
        reveal_with_fuel(pow256, 1);
    }
}

/// Appends the `n` low bytes of `v`, least significant first.
pub fn encode_fixed(v: u64, n: usize, buf: &mut Vec<u8>)
    requires
        n <= 8,
    ensures
        final(buf)@ == old(buf)@ + le_bytes(v as nat, n as nat),
{
    let mut x: u64 = v;
    let mut i: usize = 0;
    while i < n
        invariant
            i <= n,
            buf@ + le_bytes(x as nat, (n - i) as nat) == old(buf)@ + le_bytes(v as nat, n as nat),
        decreases n - i,
    {
        let ghost before = buf@;
        buf.push((x % 256) as u8);
        assert(before + le_bytes(x as nat, (n - i) as nat) =~= buf@ + le_bytes(
            (x / 256) as nat,
            (n - i - 1) as nat,
        ));
        x = x / 256;
        i = i + 1;
    }
    assert(le_bytes(x as nat, 0) =~= Seq::<u8>::empty());
    assert(buf@ =~= old(buf)@ + le_bytes(v as nat, n as nat));
}

proof fn lemma_le_value_bound(s: Seq<u8>)
    ensures
        le_value(s) < pow256(s.len()),
    decreases s.len(),
{
    if s.len() > 0 {
        lemma_le_value_bound(s.drop_first());
        let r = le_value(s.drop_first());
        let p = pow256((s.len() - 1) as nat);
        assert(s[0] as nat + 256 * r < 256 * p) by (nonlinear_arith)
            requires
                r < p,
                s[0] < 256,
        ;
    }
}

/// Reads the `n` bytes at `pos` as a little-endian number.
pub fn decode_fixed(data: &[u8], pos: usize, n: usize) -> (r: u64)
    requires
        n <= 8,
        pos + n <= data@.len(),
    ensures
        r == le_value(data@.subrange(pos as int, pos + n)),
{
    let len = data.len();
    let mut acc: u64 = 0;
    let mut i: usize = n;
    proof {
        reveal_with_fuel(pow256, 8);
        assert(pow256(0) == 1);
    }
    while i > 0
        invariant
            i <= n <= 8,
            pos + n <= data@.len(),
            acc == le_value(data@.subrange(pos + i, pos + n)),
            acc < pow256((n - i) as nat),
            pow256(7) == 0x100_0000_0000_0000,
            len == data@.len(),
        decreases i,
    {
        let ghost tail = data@.subrange(pos + i, pos + n);
        let b = data[pos + i - 1];
        let ghost s = data@.subrange(pos + i - 1, pos + n);
        assert(s.drop_first() =~= tail);
        assert(acc < pow256(7)) by {
            assert((n - i) as nat <= 7);
            lemma_pow256_mono((n - i) as nat, 7);
        }
        acc = b as u64 + 256 * acc;
        i = i - 1;
        proof {
            lemma_le_value_bound(s);
        }
    }
    acc
}

proof fn lemma_pow256_mono(a: nat, b: nat)
    requires
        a <= b,
    ensures
        pow256(a) <= pow256(b),
    decreases b,
{
    if a < b {
        lemma_pow256_mono(a, (b - 1) as nat);
    }
}

/// Value and length of a fixed-width field of `n` bytes whose value starts
/// at the front of `s`.
pub open spec fn fixed_field(expected: WireType, n: nat, wt: WireType, s: Seq<u8>) -> Result<
    (nat, nat),
    DecodeError,
> {
    if wt != expected {
        Err(DecodeError::WireTypeMismatch)
    } else if s.len() < n {
        Err(DecodeError::BufferUnderflow)
    } else {
        Ok((le_value(s.take(n as int)), n))
    }
}

/// Reads the value of a fixed-width field of `n` bytes whose wire type must
/// be `expected`.
pub fn decode_fixed_field(
    expected: WireType,
    n: usize,
    wt: WireType,
    data: &[u8],
    pos: &mut usize,
) -> (r: Result<u64, DecodeError>)
    requires
        n <= 8,
        *old(pos) <= data@.len(),
    ensures
        *final(pos) <= data@.len(),
        match fixed_field(expected, n as nat, wt, data@.skip(*old(pos) as int)) {
            Ok((v, k)) => r == Ok::<u64, DecodeError>(v as u64) && *final(pos) == *old(pos) + k,
            Err(e) => r == Err::<u64, DecodeError>(e),
        },
{
    check_wire_type(expected, wt)?;
    if data.len() - *pos < n {
        return Err(DecodeError::BufferUnderflow);
    }
    let v = decode_fixed(data, *pos, n);
    assert(data@.skip(*pos as int).take(n as int) =~= data@.subrange(*pos as int, *pos + n));
    *pos = *pos + n;
    Ok(v)
}

} // verus!
