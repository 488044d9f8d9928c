//! The message capability and its bindings for scalar and buffer types,
//! each modelling a well-known wrapper message with its value at field 1.
use vstd::prelude::*;

use vstd::slice::slice_to_vec;
use vstd::utf8::{decode_utf8, encode_utf8, encode_utf8_decode_utf8, encode_utf8_valid_utf8, valid_utf8};

use crate::external::{
    bytes_as_slice, bytes_clear, bytes_copy_from_slice, bytes_len, bytes_view, utf8_text,
};
use crate::varint::{encode_varint, encoded_len_varint, lemma_varint_round_trip, varint_bytes};
use crate::wire::{
    decode_delimited_field, decode_fixed_field, decode_key, decode_varint_field, delimited_field,
    encode_fixed, encode_key, fixed_field, key_at, key_bytes, key_len, le_bytes, lemma_key_at,
    lemma_le_round_trip, lemma_nested_group_skip, pow256, repeat, skip_field, skip_len,
    varint_field, DecodeContext, DecodeError, WireType, MAX_TAG, RECURSION_LIMIT,
};

verus! {

/// What one occurrence of an unrecognised field does to `m`: nothing, once
/// its bytes are consumed.
pub open spec fn skipped<M>(m: M, wt: WireType, tag: u32, s: Seq<u8>, depth: nat) -> Result<
    (M, nat),
    DecodeError,
> {
    match skip_len(wt, tag, s, depth) {
        Ok(n) => Ok((m, n)),
        Err(e) => Err(e),
    }
}

/// The capability every serialisable value has: encode its fields, merge one
/// field occurrence, measure its encoding, and reset to its default.
pub trait Message: Sized {
    /// What a value of the type stands for.
    type Model;

    spec fn model(&self) -> Self::Model;

    /// The field encodings of a value, without a length prefix of its own.
    spec fn encoding(m: Self::Model) -> Seq<u8>;

    /// The value after one field occurrence with `tag` and `wt` whose value
    /// starts at the front of `s`, and the number of bytes that value takes.
    spec fn merge_field_spec(m: Self::Model, tag: u32, wt: WireType, s: Seq<u8>, depth: nat) -> Result<
        (Self::Model, nat),
        DecodeError,
    >;

    /// The default value of the type.
    spec fn default_model() -> Self::Model;

    /// The default value encodes to nothing.
    proof fn lemma_default_encodes_nothing()
        ensures
            Self::encoding(Self::default_model()) == Seq::<u8>::empty(),
    ;

    /// Appends this value's field encodings to `buf`.
    fn encode_raw(&self, buf: &mut Vec<u8>)
        ensures
            final(buf)@ == old(buf)@ + Self::encoding(self.model()),
    ;

    /// Merges one field occurrence, whose key has been read, into `self`.
    fn merge_field(
        &mut self,
        tag: u32,
        wire_type: WireType,
        data: &[u8],
        pos: &mut usize,
        ctx: DecodeContext,
    ) -> (r: Result<(), DecodeError>)
        requires
            *old(pos) <= data@.len(),
        ensures
            *final(pos) <= data@.len(),
            match Self::merge_field_spec(
                old(self).model(),
                tag,
                wire_type,
                data@.skip(*old(pos) as int),
                ctx.recursion_limit as nat,
            ) {
                Ok((m, n)) => r is Ok && final(self).model() == m && *final(pos) == *old(pos) + n,
                Err(e) => r == Err::<(), DecodeError>(e),
            },
    ;

    /// The number of bytes `encode_raw` appends.
    fn encoded_len(&self) -> (r: usize)
        requires
            Self::encoding(self.model()).len() <= usize::MAX,
        ensures
            r == Self::encoding(self.model()).len(),
    ;

    /// Resets the value to its default.
    fn clear(&mut self)
        ensures
            final(self).model() == Self::default_model(),
            Self::encoding(final(self).model()) == Seq::<u8>::empty(),
    ;
}

/// The value obtained by merging every field of `s` into `m`, in order.
pub open spec fn merge_spec<M: Message>(m: M::Model, s: Seq<u8>, depth: nat) -> Result<
    M::Model,
    DecodeError,
>
    decreases s.len(),
{
    if s.len() == 0 {
        Ok(m)
    } else {
        match key_at(s) {
            Err(e) => Err(e),
            Ok((tag, wt, k)) => if !(1 <= k <= s.len()) {
                Err(DecodeError::InvalidVarint)
            } else {
                match M::merge_field_spec(m, tag, wt, s.skip(k as int), depth) {
                    Err(e) => Err(e),
                    Ok((m2, n)) => if n > s.len() - k {
                        Err(DecodeError::BufferUnderflow)
                    } else {
                        merge_spec::<M>(m2, s.skip((k + n) as int), depth)
                    },
                }
            },
        }
    }
}

/// Merges every field of `data` into `msg`.
pub fn merge<M: Message>(msg: &mut M, data: &[u8]) -> (r: Result<(), DecodeError>)
    ensures
        match merge_spec::<M>(old(msg).model(), data@, RECURSION_LIMIT as nat) {
            Ok(m) => r is Ok && final(msg).model() == m,
            Err(e) => r == Err::<(), DecodeError>(e),
        },
{
    let ctx = DecodeContext::new();
    let len = data.len();
    let mut pos: usize = 0;
    let ghost total = merge_spec::<M>(msg.model(), data@, RECURSION_LIMIT as nat);
    assert(data@.skip(0) =~= data@);
    while pos < len
        invariant
            pos <= len == data@.len(),
            ctx.recursion_limit == RECURSION_LIMIT,
            total == merge_spec::<M>(msg.model(), data@.skip(pos as int), RECURSION_LIMIT as nat),
            total == merge_spec::<M>(old(msg).model(), data@, RECURSION_LIMIT as nat),
        decreases len - pos,
    {
        let ghost here = pos;
        let ghost t = data@.skip(pos as int);
        let (tag, wt) = match decode_key(data, &mut pos) {
            Ok(kv) => kv,
            Err(e) => {
                assert(merge_spec::<M>(msg.model(), t, RECURSION_LIMIT as nat) == Err::<M::Model, DecodeError>(e));
                return Err(e);
            },
        };
        let ghost k = (pos - here) as nat;
        assert(t.skip(k as int) =~= data@.skip(pos as int));
        let ghost mid = pos;
        let ghost m0 = msg.model();
        match msg.merge_field(tag, wt, data, &mut pos, ctx) {
            Ok(()) => {},
            Err(e) => {
                assert(merge_spec::<M>(m0, t, RECURSION_LIMIT as nat) == Err::<M::Model, DecodeError>(e));
                return Err(e);
            },
        }
        assert(t.skip((k + (pos - mid)) as int) =~= data@.skip(pos as int));
    }
    assert(data@.skip(pos as int) =~= Seq::<u8>::empty());
    Ok(())
}

/// Decodes `data` into `msg`, which is first reset to its default.
pub fn decode<M: Message>(msg: &mut M, data: &[u8]) -> (r: Result<(), DecodeError>)
    ensures
        match merge_spec::<M>(M::default_model(), data@, RECURSION_LIMIT as nat) {
            Ok(m) => r is Ok && final(msg).model() == m,
            Err(e) => r == Err::<(), DecodeError>(e),
        },
{
    msg.clear();
    merge(msg, data)
}

/// The encoding of `msg` in a fresh buffer.
pub fn encode_to_vec<M: Message>(msg: &M) -> (r: Vec<u8>)
    ensures
        r@ == M::encoding(msg.model()),
{
    let mut buf: Vec<u8> = Vec::new();
    msg.encode_raw(&mut buf);
    assert(buf@ =~= M::encoding(msg.model()));
    buf
}

proof fn lemma_key_one(wt: WireType, rest: Seq<u8>)
    ensures
        key_bytes(1, wt).len() == 1,
        key_at(key_bytes(1, wt) + rest) == Ok::<(u32, WireType, nat), DecodeError>((1, wt, 1)),
{
    let v = 8 + crate::wire::wire_type_value(wt);
    assert(varint_bytes(v) == seq![v as u8]);
    lemma_varint_round_trip(v as u64, rest);
}

/// A value whose encoding is one field with tag 1 decodes, from the default,
/// to what that one field gives.
pub(crate) proof fn lemma_single_field<M: Message>(m: M::Model, wt: WireType, payload: Seq<u8>, v: M::Model)
    requires
        M::merge_field_spec(m, 1, wt, payload, RECURSION_LIMIT as nat) == Ok::<
            (M::Model, nat),
            DecodeError,
        >((v, payload.len())),
    ensures
        merge_spec::<M>(m, key_bytes(1, wt) + payload, RECURSION_LIMIT as nat) == Ok::<
            M::Model,
            DecodeError,
        >(v),
{
    let s = key_bytes(1, wt) + payload;
    lemma_key_one(wt, payload);
    assert(s.skip(1) =~= payload);
    assert(s.skip((1 + payload.len()) as int) =~= Seq::<u8>::empty());
    assert(merge_spec::<M>(v, Seq::<u8>::empty(), RECURSION_LIMIT as nat) == Ok::<M::Model, DecodeError>(v));
}

/// Varint fields read back what was written.
proof fn lemma_varint_field(v: u64)
    ensures
        varint_field(WireType::Varint, varint_bytes(v as nat)) == Ok::<(u64, nat), DecodeError>(
            (v, varint_bytes(v as nat).len()),
        ),
{
    lemma_varint_round_trip(v, Seq::<u8>::empty());
    assert(varint_bytes(v as nat) + Seq::<u8>::empty() =~= varint_bytes(v as nat));
}

/// Decoding the encoding of a `bool` gives it back.
pub proof fn lemma_round_trip_bool(v: bool)
    ensures
        merge_spec::<bool>(false, <bool as Message>::encoding(v), RECURSION_LIMIT as nat) == Ok::<bool, DecodeError>(v),
{
    if v {
        lemma_varint_field(1);
        lemma_single_field::<bool>(false, WireType::Varint, varint_bytes(1), true);
    }
}

/// `google.protobuf.Empty`: encodes nothing and ignores every field.
impl Message for () {
    type Model = ();

    open spec fn model(&self) -> () {
        *self
    }

    open spec fn encoding(m: Self) -> Seq<u8> {
        Seq::empty()
    }

    open spec fn merge_field_spec(m: (), tag: u32, wt: WireType, s: Seq<u8>, depth: nat) -> Result<
        ((), nat),
        DecodeError,
    > {
        skipped(m, wt, tag, s, depth)
    }

    open spec fn default_model() -> () {
        ()
    }

    proof fn lemma_default_encodes_nothing() {
    }

    fn encode_raw(&self, buf: &mut Vec<u8>) {
        assert(buf@ + Seq::<u8>::empty() =~= buf@);
    }

    fn merge_field(
        &mut self,
        tag: u32,
        wire_type: WireType,
        data: &[u8],
        pos: &mut usize,
        ctx: DecodeContext,
    ) -> (r: Result<(), DecodeError>) {
        skip_field(wire_type, tag, data, pos, ctx)
    }

    fn encoded_len(&self) -> (r: usize) {
        0
    }

    fn clear(&mut self) {
    }
}

/// `google.protobuf.BoolValue`
impl Message for bool {
    type Model = bool;

    open spec fn model(&self) -> bool {
        *self
    }

    open spec fn encoding(m: Self) -> Seq<u8> {
        if m {
            key_bytes(1, WireType::Varint) + varint_bytes(1)
        } else {
            Seq::empty()
        }
    }

    open spec fn merge_field_spec(m: bool, tag: u32, wt: WireType, s: Seq<u8>, depth: nat) -> Result<
        (bool, nat),
        DecodeError,
    > {
        if tag == 1 {
            match varint_field(wt, s) {
                Ok((v, n)) => Ok((v != 0, n)),
                Err(e) => Err(e),
            }
        } else {
            skipped(m, wt, tag, s, depth)
        }
    }

    open spec fn default_model() -> bool {
        false
    }

    proof fn lemma_default_encodes_nothing() {
    }

    fn encode_raw(&self, buf: &mut Vec<u8>) {
        if *self {
            encode_key(1, WireType::Varint, buf);
            encode_varint(1, buf);
            assert(final(buf)@ =~= old(buf)@ + Self::encoding(*self));
        } else {
            assert(buf@ + Seq::<u8>::empty() =~= buf@);
        }
    }

    fn merge_field(
        &mut self,
        tag: u32,
        wire_type: WireType,
        data: &[u8],
        pos: &mut usize,
        ctx: DecodeContext,
    ) -> (r: Result<(), DecodeError>) {
        if tag == 1 {
            let v = decode_varint_field(wire_type, data, pos)?;
            *self = v != 0;
            Ok(())
        } else {
            skip_field(wire_type, tag, data, pos, ctx)
        }
    }

    fn encoded_len(&self) -> (r: usize) {
        if *self {
            let k = key_len(1);
            assert(varint_bytes(1) == seq![1u8]);
            assert(k == key_bytes(1, WireType::Varint).len());
            k + 1
        } else {
            0
        }
    }

    fn clear(&mut self) {
        *self = false;
    }
}

/// The unsigned 64-bit value a signed one is written as on the wire: its
/// two's complement, sign-extended to 64 bits.
pub open spec fn sign_extended(v: int) -> nat {
    if v >= 0 {
        v as nat
    } else {
        (v + 0x1_0000_0000_0000_0000) as nat
    }
}

/// The `int32` value read from a varint: its low 32 bits, as two's complement.
pub open spec fn varint_as_i32(v: u64) -> i32 {
    let low = v % 0x1_0000_0000;
    if low < 0x8000_0000 {
        low as i32
    } else {
        (low - 0x1_0000_0000) as i32
    }
}

/// The `int64` value read from a varint: its 64 bits, as two's complement.
pub open spec fn varint_as_i64(v: u64) -> i64 {
    if v < 0x8000_0000_0000_0000 {
        v as i64
    } else {
        (v - 0x1_0000_0000_0000_0000) as i64
    }
}

fn i64_to_wire(v: i64) -> (r: u64)
    ensures
        r == sign_extended(v as int),
{
    if v >= 0 {
        v as u64
    } else {
        let m: u64 = (-(v as i128) - 1) as u64;
        u64::MAX - m
    }
}

fn wire_to_i32(v: u64) -> (r: i32)
    ensures
        r == varint_as_i32(v),
{
    let low: u64 = v % 0x1_0000_0000;
    if low < 0x8000_0000 {
        low as i32
    } else {
        (low as i64 - 0x1_0000_0000) as i32
    }
}

fn wire_to_i64(v: u64) -> (r: i64)
    ensures
        r == varint_as_i64(v),
{
    if v < 0x8000_0000_0000_0000 {
        v as i64
    } else {
        ((v - 0x8000_0000_0000_0000) as i64) - 0x4000_0000_0000_0000 - 0x4000_0000_0000_0000
    }
}

/// `google.protobuf.UInt32Value`
impl Message for u32 {
    type Model = u32;

    open spec fn model(&self) -> u32 {
        *self
    }

    open spec fn encoding(m: Self) -> Seq<u8> {
        if m != 0 {
            key_bytes(1, WireType::Varint) + varint_bytes((m) as nat)
        } else {
            Seq::empty()
        }
    }

    open spec fn merge_field_spec(m: u32, tag: u32, wt: WireType, s: Seq<u8>, depth: nat) -> Result<
        (u32, nat),
        DecodeError,
    > {
        if tag == 1 {
            match varint_field(wt, s) {
                Ok((v, n)) => Ok((((v as u64) % 0x1_0000_0000) as u32, n)),
                Err(e) => Err(e),
            }
        } else {
            skipped(m, wt, tag, s, depth)
        }
    }

    open spec fn default_model() -> u32 {
        0
    }

    proof fn lemma_default_encodes_nothing() {
    }

    fn encode_raw(&self, buf: &mut Vec<u8>) {
        if *self != 0 {
            encode_key(1, WireType::Varint, buf);
            encode_varint(*self as u64, buf);
            assert(final(buf)@ =~= old(buf)@ + Self::encoding(*self));
        } else {
            assert(buf@ + Seq::<u8>::empty() =~= buf@);
        }
    }

    fn merge_field(
        &mut self,
        tag: u32,
        wire_type: WireType,
        data: &[u8],
        pos: &mut usize,
        ctx: DecodeContext,
    ) -> (r: Result<(), DecodeError>) {
        if tag == 1 {
            let v = decode_varint_field(wire_type, data, pos)?;
            *self = (v % 0x1_0000_0000) as u32;
            Ok(())
        } else {
            skip_field(wire_type, tag, data, pos, ctx)
        }
    }

    fn encoded_len(&self) -> (r: usize) {
        if *self != 0 {
            let k = key_len(1);
            assert(k == key_bytes(1, WireType::Varint).len());
            k + encoded_len_varint(*self as u64)
        } else {
            0
        }
    }

    fn clear(&mut self) {
        *self = 0;
    }
}

/// Decoding the encoding of a `u32` gives it back.
pub proof fn lemma_round_trip_u32(v: u32)
    ensures
        merge_spec::<u32>(0u32, <u32 as Message>::encoding(v), RECURSION_LIMIT as nat) == Ok::<u32, DecodeError>(v),
{
    if v != 0 {
        let w = (v as nat);
        lemma_varint_field(w as u64);
        lemma_single_field::<u32>(0u32, WireType::Varint, varint_bytes(w), v);
    }
}

/// `google.protobuf.UInt64Value`
impl Message for u64 {
    type Model = u64;

    open spec fn model(&self) -> u64 {
        *self
    }

    open spec fn encoding(m: Self) -> Seq<u8> {
        if m != 0 {
            key_bytes(1, WireType::Varint) + varint_bytes((m) as nat)
        } else {
            Seq::empty()
        }
    }

    open spec fn merge_field_spec(m: u64, tag: u32, wt: WireType, s: Seq<u8>, depth: nat) -> Result<
        (u64, nat),
        DecodeError,
    > {
        if tag == 1 {
            match varint_field(wt, s) {
                Ok((v, n)) => Ok((v, n)),
                Err(e) => Err(e),
            }
        } else {
            skipped(m, wt, tag, s, depth)
        }
    }

    open spec fn default_model() -> u64 {
        0
    }

    proof fn lemma_default_encodes_nothing() {
    }

    fn encode_raw(&self, buf: &mut Vec<u8>) {
        if *self != 0 {
            encode_key(1, WireType::Varint, buf);
            encode_varint(*self, buf);
            assert(final(buf)@ =~= old(buf)@ + Self::encoding(*self));
        } else {
            assert(buf@ + Seq::<u8>::empty() =~= buf@);
        }
    }

    fn merge_field(
        &mut self,
        tag: u32,
        wire_type: WireType,
        data: &[u8],
        pos: &mut usize,
        ctx: DecodeContext,
    ) -> (r: Result<(), DecodeError>) {
        if tag == 1 {
            let v = decode_varint_field(wire_type, data, pos)?;
            *self = v;
            Ok(())
        } else {
            skip_field(wire_type, tag, data, pos, ctx)
        }
    }

    fn encoded_len(&self) -> (r: usize) {
        if *self != 0 {
            let k = key_len(1);
            assert(k == key_bytes(1, WireType::Varint).len());
            k + encoded_len_varint(*self)
        } else {
            0
        }
    }

    fn clear(&mut self) {
        *self = 0;
    }
}

/// Decoding the encoding of a `u64` gives it back.
pub proof fn lemma_round_trip_u64(v: u64)
    ensures
        merge_spec::<u64>(0u64, <u64 as Message>::encoding(v), RECURSION_LIMIT as nat) == Ok::<u64, DecodeError>(v),
{
    if v != 0 {
        let w = (v as nat);
        lemma_varint_field(w as u64);
        lemma_single_field::<u64>(0u64, WireType::Varint, varint_bytes(w), v);
    }
}

/// `google.protobuf.Int32Value`
impl Message for i32 {
    type Model = i32;

    open spec fn model(&self) -> i32 {
        *self
    }

    open spec fn encoding(m: Self) -> Seq<u8> {
        if m != 0 {
            key_bytes(1, WireType::Varint) + varint_bytes(sign_extended(m as int))
        } else {
            Seq::empty()
        }
    }

    open spec fn merge_field_spec(m: i32, tag: u32, wt: WireType, s: Seq<u8>, depth: nat) -> Result<
        (i32, nat),
        DecodeError,
    > {
        if tag == 1 {
            match varint_field(wt, s) {
                Ok((v, n)) => Ok((varint_as_i32(v), n)),
                Err(e) => Err(e),
            }
        } else {
            skipped(m, wt, tag, s, depth)
        }
    }

    open spec fn default_model() -> i32 {
        0
    }

    proof fn lemma_default_encodes_nothing() {
    }

    fn encode_raw(&self, buf: &mut Vec<u8>) {
        if *self != 0 {
            encode_key(1, WireType::Varint, buf);
            encode_varint(i64_to_wire(*self as i64), buf);
            assert(final(buf)@ =~= old(buf)@ + Self::encoding(*self));
        } else {
            assert(buf@ + Seq::<u8>::empty() =~= buf@);
        }
    }

    fn merge_field(
        &mut self,
        tag: u32,
        wire_type: WireType,
        data: &[u8],
        pos: &mut usize,
        ctx: DecodeContext,
    ) -> (r: Result<(), DecodeError>) {
        if tag == 1 {
            let v = decode_varint_field(wire_type, data, pos)?;
            *self = wire_to_i32(v);
            Ok(())
        } else {
            skip_field(wire_type, tag, data, pos, ctx)
        }
    }

    fn encoded_len(&self) -> (r: usize) {
        if *self != 0 {
            let k = key_len(1);
            assert(k == key_bytes(1, WireType::Varint).len());
            k + encoded_len_varint(i64_to_wire(*self as i64))
        } else {
            0
        }
    }

    fn clear(&mut self) {
        *self = 0;
    }
}

/// Decoding the encoding of a `i32` gives it back.
pub proof fn lemma_round_trip_i32(v: i32)
    ensures
        merge_spec::<i32>(0i32, <i32 as Message>::encoding(v), RECURSION_LIMIT as nat) == Ok::<i32, DecodeError>(v),
{
    if v != 0 {
        let w = sign_extended(v as int);
        lemma_varint_field(w as u64);
        lemma_single_field::<i32>(0i32, WireType::Varint, varint_bytes(w), v);
    }
}

/// `google.protobuf.Int64Value`
impl Message for i64 {
    type Model = i64;

    open spec fn model(&self) -> i64 {
        *self
    }

    open spec fn encoding(m: Self) -> Seq<u8> {
        if m != 0 {
            key_bytes(1, WireType::Varint) + varint_bytes(sign_extended(m as int))
        } else {
            Seq::empty()
        }
    }

    open spec fn merge_field_spec(m: i64, tag: u32, wt: WireType, s: Seq<u8>, depth: nat) -> Result<
        (i64, nat),
        DecodeError,
    > {
        if tag == 1 {
            match varint_field(wt, s) {
                Ok((v, n)) => Ok((varint_as_i64(v), n)),
                Err(e) => Err(e),
            }
        } else {
            skipped(m, wt, tag, s, depth)
        }
    }

    open spec fn default_model() -> i64 {
        0
    }

    proof fn lemma_default_encodes_nothing() {
    }

    fn encode_raw(&self, buf: &mut Vec<u8>) {
        if *self != 0 {
            encode_key(1, WireType::Varint, buf);
            encode_varint(i64_to_wire(*self), buf);
            assert(final(buf)@ =~= old(buf)@ + Self::encoding(*self));
        } else {
            assert(buf@ + Seq::<u8>::empty() =~= buf@);
        }
    }

    fn merge_field(
        &mut self,
        tag: u32,
        wire_type: WireType,
        data: &[u8],
        pos: &mut usize,
        ctx: DecodeContext,
    ) -> (r: Result<(), DecodeError>) {
        if tag == 1 {
            let v = decode_varint_field(wire_type, data, pos)?;
            *self = wire_to_i64(v);
            Ok(())
        } else {
            skip_field(wire_type, tag, data, pos, ctx)
        }
    }

    fn encoded_len(&self) -> (r: usize) {
        if *self != 0 {
            let k = key_len(1);
            assert(k == key_bytes(1, WireType::Varint).len());
            k + encoded_len_varint(i64_to_wire(*self))
        } else {
            0
        }
    }

    fn clear(&mut self) {
        *self = 0;
    }
}

/// Decoding the encoding of a `i64` gives it back.
pub proof fn lemma_round_trip_i64(v: i64)
    ensures
        merge_spec::<i64>(0i64, <i64 as Message>::encoding(v), RECURSION_LIMIT as nat) == Ok::<i64, DecodeError>(v),
{
    if v != 0 {
        let w = sign_extended(v as int);
        lemma_varint_field(w as u64);
        lemma_single_field::<i64>(0i64, WireType::Varint, varint_bytes(w), v);
    }
}

/// The encoding of a length-delimited field with tag 1 holding `p`.
pub open spec fn delimited_bytes(p: Seq<u8>) -> Seq<u8> {
    key_bytes(1, WireType::LengthDelimited) + varint_bytes(p.len()) + p
}

/// Appends the bytes of `src` to `buf`.
pub fn append_bytes(buf: &mut Vec<u8>, src: &[u8])
    ensures
        final(buf)@ == old(buf)@ + src@,
{
    let n = src.len();
    let mut i: usize = 0;
    while i < n
        invariant
            i <= n == src@.len(),
            buf@ == old(buf)@ + src@.subrange(0, i as int),
        decreases n - i,
    {
        buf.push(src[i]);
        assert(src@.subrange(0, (i + 1) as int) =~= src@.subrange(0, i as int).push(src@[i as int]));
        i = i + 1;
    }
    assert(src@.subrange(0, n as int) =~= src@);
}

/// Appends a length-delimited field with tag 1 holding `p`.
pub fn encode_delimited(p: &[u8], buf: &mut Vec<u8>)
    ensures
        final(buf)@ == old(buf)@ + delimited_bytes(p@),
{
    encode_key(1, WireType::LengthDelimited, buf);
    encode_varint(p.len() as u64, buf);
    append_bytes(buf, p);
    assert(final(buf)@ =~= old(buf)@ + delimited_bytes(p@));
}

/// The length of a length-delimited field with tag 1 holding `len` bytes.
pub fn delimited_len(len: usize) -> (r: usize)
    requires
        forall|p: Seq<u8>| p.len() == len ==> #[trigger] delimited_bytes(p).len() <= usize::MAX,
    ensures
        forall|p: Seq<u8>| p.len() == len ==> r == #[trigger] delimited_bytes(p).len(),
{
    let k = key_len(1);
    let v = encoded_len_varint(len as u64);
    let ghost p0 = Seq::<u8>::new(len as nat, |i: int| 0u8);
    assert(delimited_bytes(p0).len() == k + v + len);
    k + v + len
}

/// Reading a length-delimited field back gives its payload.
pub(crate) proof fn lemma_delimited_field(p: Seq<u8>)
    requires
        p.len() <= u64::MAX,
    ensures
        delimited_field(WireType::LengthDelimited, varint_bytes(p.len()) + p) == Ok::<
            (Seq<u8>, nat),
            DecodeError,
        >((p, (varint_bytes(p.len()) + p).len())),
{
    let v = varint_bytes(p.len());
    lemma_varint_round_trip(p.len() as u64, p);
    assert((v + p).subrange(v.len() as int, (v.len() + p.len()) as int) =~= p);
}

pub(crate) proof fn lemma_delimited_shape(p: Seq<u8>)
    ensures
        delimited_bytes(p) == key_bytes(1, WireType::LengthDelimited) + (varint_bytes(p.len()) + p),
{
    assert(delimited_bytes(p) =~= key_bytes(1, WireType::LengthDelimited) + (varint_bytes(p.len())
        + p));
}

/// `google.protobuf.StringValue`
impl Message for String {
    type Model = Seq<char>;

    open spec fn model(&self) -> Seq<char> {
        self@
    }

    open spec fn encoding(m: Seq<char>) -> Seq<u8> {
        if encode_utf8(m).len() != 0 {
            delimited_bytes(encode_utf8(m))
        } else {
            Seq::empty()
        }
    }

    open spec fn merge_field_spec(m: Seq<char>, tag: u32, wt: WireType, s: Seq<u8>, depth: nat) -> Result<
        (Seq<char>, nat),
        DecodeError,
    > {
        if tag == 1 {
            match delimited_field(wt, s) {
                Ok((p, n)) => if valid_utf8(p) {
                    Ok((decode_utf8(p), n))
                } else {
                    Err(DecodeError::InvalidUtf8)
                },
                Err(e) => Err(e),
            }
        } else {
            skipped(m, wt, tag, s, depth)
        }
    }

    open spec fn default_model() -> Seq<char> {
        Seq::empty()
    }

    proof fn lemma_default_encodes_nothing() {
        assert(encode_utf8(Seq::<char>::empty()) =~= Seq::<u8>::empty());
    }

    fn encode_raw(&self, buf: &mut Vec<u8>) {
        let b = self.as_str().as_bytes();
        if b.len() != 0 {
            encode_delimited(b, buf);
        } else {
            assert(buf@ + Seq::<u8>::empty() =~= buf@);
        }
    }

    fn merge_field(
        &mut self,
        tag: u32,
        wire_type: WireType,
        data: &[u8],
        pos: &mut usize,
        ctx: DecodeContext,
    ) -> (r: Result<(), DecodeError>) {
        if tag == 1 {
            let (a, b) = decode_delimited_field(wire_type, data, pos)?;
            match utf8_text(&data[a..b]) {
                Ok(t) => {
                    *self = t.to_owned();
                    Ok(())
                },
                Err(_) => Err(DecodeError::InvalidUtf8),
            }
        } else {
            skip_field(wire_type, tag, data, pos, ctx)
        }
    }

    fn encoded_len(&self) -> (r: usize) {
        let b = self.as_str().as_bytes();
        if b.len() != 0 {
            delimited_len(b.len())
        } else {
            0
        }
    }

    fn clear(&mut self) {
        *self = String::new();
        assert(encode_utf8(Seq::<char>::empty()) =~= Seq::<u8>::empty());
    }
}

/// Decoding the encoding of a text gives it back.
pub proof fn lemma_round_trip_string(v: Seq<char>)
    requires
        encode_utf8(v).len() <= u64::MAX,
    ensures
        merge_spec::<String>(Seq::empty(), <String as Message>::encoding(v), RECURSION_LIMIT as nat)
            == Ok::<Seq<char>, DecodeError>(v),
{
    let b = encode_utf8(v);
    if b.len() != 0 {
        encode_utf8_valid_utf8(v);
        encode_utf8_decode_utf8(v);
        lemma_delimited_field(b);
        lemma_delimited_shape(b);
        lemma_single_field::<String>(Seq::empty(), WireType::LengthDelimited, varint_bytes(b.len()) + b, v);
    } else {
        assert(v.len() == 0) by {
            if v.len() > 0 {
                encode_utf8_decode_utf8(v);
                assert(decode_utf8(Seq::<u8>::empty()) =~= Seq::<char>::empty());
                assert(b =~= Seq::<u8>::empty());
            }
        }
        assert(v =~= Seq::<char>::empty());
    }
}

/// `google.protobuf.BytesValue`
impl Message for Vec<u8> {
    type Model = Seq<u8>;

    open spec fn model(&self) -> Seq<u8> {
        self@
    }

    open spec fn encoding(m: Seq<u8>) -> Seq<u8> {
        if m.len() != 0 {
            delimited_bytes(m)
        } else {
            Seq::empty()
        }
    }

    open spec fn merge_field_spec(m: Seq<u8>, tag: u32, wt: WireType, s: Seq<u8>, depth: nat) -> Result<
        (Seq<u8>, nat),
        DecodeError,
    > {
        if tag == 1 {
            delimited_field(wt, s)
        } else {
            skipped(m, wt, tag, s, depth)
        }
    }

    open spec fn default_model() -> Seq<u8> {
        Seq::empty()
    }

    proof fn lemma_default_encodes_nothing() {
    }

    fn encode_raw(&self, buf: &mut Vec<u8>) {
        if self.len() != 0 {
            encode_delimited(self.as_slice(), buf);
        } else {
            assert(buf@ + Seq::<u8>::empty() =~= buf@);
        }
    }

    fn merge_field(
        &mut self,
        tag: u32,
        wire_type: WireType,
        data: &[u8],
        pos: &mut usize,
        ctx: DecodeContext,
    ) -> (r: Result<(), DecodeError>) {
        if tag == 1 {
            let (a, b) = decode_delimited_field(wire_type, data, pos)?;
            *self = slice_to_vec(&data[a..b]);
            Ok(())
        } else {
            skip_field(wire_type, tag, data, pos, ctx)
        }
    }

    fn encoded_len(&self) -> (r: usize) {
        if self.len() != 0 {
            delimited_len(self.len())
        } else {
            0
        }
    }

    fn clear(&mut self) {
        self.clear();
    }
}

/// Decoding the encoding of a byte sequence gives it back.
pub proof fn lemma_round_trip_vec(v: Seq<u8>)
    requires
        v.len() <= u64::MAX,
    ensures
        merge_spec::<Vec<u8>>(Seq::empty(), <Vec<u8> as Message>::encoding(v), RECURSION_LIMIT as nat)
            == Ok::<Seq<u8>, DecodeError>(v),
{
    if v.len() != 0 {
        lemma_delimited_field(v);
        lemma_delimited_shape(v);
        lemma_single_field::<Vec<u8>>(Seq::empty(), WireType::LengthDelimited, varint_bytes(v.len()) + v, v);
    } else {
        assert(v =~= Seq::<u8>::empty());
    }
}

/// `google.protobuf.BytesValue`, held in a shared buffer.
impl Message for bytes::Bytes {
    type Model = Seq<u8>;

    open spec fn model(&self) -> Seq<u8> {
        bytes_view(*self)
    }

    open spec fn encoding(m: Seq<u8>) -> Seq<u8> {
        if m.len() != 0 {
            delimited_bytes(m)
        } else {
            Seq::empty()
        }
    }

    open spec fn merge_field_spec(m: Seq<u8>, tag: u32, wt: WireType, s: Seq<u8>, depth: nat) -> Result<
        (Seq<u8>, nat),
        DecodeError,
    > {
        if tag == 1 {
            delimited_field(wt, s)
        } else {
            skipped(m, wt, tag, s, depth)
        }
    }

    open spec fn default_model() -> Seq<u8> {
        Seq::empty()
    }

    proof fn lemma_default_encodes_nothing() {
    }

    fn encode_raw(&self, buf: &mut Vec<u8>) {
        let b = bytes_as_slice(self);
        if b.len() != 0 {
            encode_delimited(b, buf);
        } else {
            assert(buf@ + Seq::<u8>::empty() =~= buf@);
        }
    }

    fn merge_field(
        &mut self,
        tag: u32,
        wire_type: WireType,
        data: &[u8],
        pos: &mut usize,
        ctx: DecodeContext,
    ) -> (r: Result<(), DecodeError>) {
        if tag == 1 {
            let (a, b) = decode_delimited_field(wire_type, data, pos)?;
            *self = bytes_copy_from_slice(&data[a..b]);
            Ok(())
        } else {
            skip_field(wire_type, tag, data, pos, ctx)
        }
    }

    fn encoded_len(&self) -> (r: usize) {
        let n = bytes_len(self);
        if n != 0 {
            delimited_len(n)
        } else {
            0
        }
    }

    fn clear(&mut self) {
        bytes_clear(self);
    }
}

/// Decoding the encoding of a shared byte buffer gives its bytes back.
pub proof fn lemma_round_trip_bytes(v: Seq<u8>)
    requires
        v.len() <= u64::MAX,
    ensures
        merge_spec::<bytes::Bytes>(
            Seq::empty(),
            <bytes::Bytes as Message>::encoding(v),
            RECURSION_LIMIT as nat,
        ) == Ok::<Seq<u8>, DecodeError>(v),
{
    if v.len() != 0 {
        lemma_delimited_field(v);
        lemma_delimited_shape(v);
        lemma_single_field::<bytes::Bytes>(
            Seq::empty(),
            WireType::LengthDelimited,
            varint_bytes(v.len()) + v,
            v,
        );
    } else {
        assert(v =~= Seq::<u8>::empty());
    }
}

/// A value whose type does not know `tag` decodes the same whether or not a
/// varint field with that tag stands before the rest of its bytes.
pub proof fn lemma_unknown_field_ignored<M: Message>(m: M::Model, tag: u32, x: u64, rest: Seq<u8>)
    requires
        1 <= tag <= MAX_TAG,
        forall|wt: WireType, s: Seq<u8>, d: nat| #[trigger]
            M::merge_field_spec(m, tag, wt, s, d) == skipped(m, wt, tag, s, d),
    ensures
        merge_spec::<M>(
            m,
            key_bytes(tag as nat, WireType::Varint) + varint_bytes(x as nat) + rest,
            RECURSION_LIMIT as nat,
        ) == merge_spec::<M>(m, rest, RECURSION_LIMIT as nat),
{
    let kb = key_bytes(tag as nat, WireType::Varint);
    let vb = varint_bytes(x as nat);
    let s = kb + vb + rest;
    assert(s =~= kb + (vb + rest));
    lemma_key_at(tag, WireType::Varint, vb + rest);
    assert(s.skip(kb.len() as int) =~= vb + rest);
    lemma_varint_round_trip(x, rest);
    assert(skip_len(WireType::Varint, tag, vb + rest, RECURSION_LIMIT as nat) == Ok::<nat, DecodeError>(
        vb.len(),
    ));
    assert(M::merge_field_spec(m, tag, WireType::Varint, vb + rest, RECURSION_LIMIT as nat) == skipped(
        m,
        WireType::Varint,
        tag,
        vb + rest,
        RECURSION_LIMIT as nat,
    ));
    assert(s.skip((kb.len() + vb.len()) as int) =~= rest);
}

/// Compares two byte slices.
pub fn bytes_equal(a: &[u8], b: &[u8]) -> (r: bool)
    ensures
        r == (a@ == b@),
{
    if a.len() != b.len() {
        return false;
    }
    let n = a.len();
    let mut i: usize = 0;
    while i < n
        invariant
            i <= n == a@.len() == b@.len(),
            a@.subrange(0, i as int) == b@.subrange(0, i as int),
        decreases n - i,
    {
        if a[i] != b[i] {
            assert(a@[i as int] != b@[i as int]);
            return false;
        }
        assert(a@.subrange(0, (i + 1) as int) =~= a@.subrange(0, i as int).push(a@[i as int]));
        assert(b@.subrange(0, (i + 1) as int) =~= b@.subrange(0, i as int).push(b@[i as int]));
        i = i + 1;
    }
    assert(a@ =~= a@.subrange(0, n as int));
    assert(b@ =~= b@.subrange(0, n as int));
    true
}

/// The encoding of a length-delimited field with `tag` holding `p`.
pub open spec fn field_bytes(tag: nat, p: Seq<u8>) -> Seq<u8> {
    key_bytes(tag, WireType::LengthDelimited) + varint_bytes(p.len()) + p
}

/// Appends a length-delimited field with `tag` holding `p`.
pub fn encode_delimited_field(tag: u32, p: &[u8], buf: &mut Vec<u8>)
    requires
        1 <= tag <= MAX_TAG,
    ensures
        final(buf)@ == old(buf)@ + field_bytes(tag as nat, p@),
{
    encode_key(tag, WireType::LengthDelimited, buf);
    encode_varint(p.len() as u64, buf);
    append_bytes(buf, p);
    assert(final(buf)@ =~= old(buf)@ + field_bytes(tag as nat, p@));
}

/// Bytes made of `k` nested groups with `tag`, all empty but for the next.
pub open spec fn group_chain(tag: u32, k: nat) -> Seq<u8> {
    repeat(key_bytes(tag as nat, WireType::StartGroup), k) + repeat(
        key_bytes(tag as nat, WireType::EndGroup),
        k,
    )
}

/// Decoding `k` nested groups with a tag the type does not know leaves the
/// value as it was when `k` is within the recursion limit, and fails with
/// the recursion error beyond it.
pub proof fn lemma_recursion_limit<M: Message>(m: M::Model, tag: u32, k: nat)
    requires
        1 <= tag <= MAX_TAG,
        k >= 1,
        forall|wt: WireType, s: Seq<u8>, d: nat| #[trigger]
            M::merge_field_spec(m, tag, wt, s, d) == skipped(m, wt, tag, s, d),
    ensures
        k <= RECURSION_LIMIT ==> merge_spec::<M>(m, group_chain(tag, k), RECURSION_LIMIT as nat)
            == Ok::<M::Model, DecodeError>(m),
        k > RECURSION_LIMIT ==> merge_spec::<M>(m, group_chain(tag, k), RECURSION_LIMIT as nat)
            == Err::<M::Model, DecodeError>(DecodeError::RecursionLimit),
{
    let st = key_bytes(tag as nat, WireType::StartGroup);
    let en = key_bytes(tag as nat, WireType::EndGroup);
    let chain = group_chain(tag, k);
    let inner = repeat(st, (k - 1) as nat) + repeat(en, k) + Seq::<u8>::empty();
    assert(repeat(st, k) == st + repeat(st, (k - 1) as nat));
    assert(chain =~= st + inner);
    lemma_key_at(tag, WireType::StartGroup, inner);
    assert(chain.skip(st.len() as int) =~= inner);
    lemma_nested_group_skip(tag, k, RECURSION_LIMIT as nat, Seq::<u8>::empty());
    assert(M::merge_field_spec(m, tag, WireType::StartGroup, inner, RECURSION_LIMIT as nat)
        == skipped(m, WireType::StartGroup, tag, inner, RECURSION_LIMIT as nat));
    if k <= RECURSION_LIMIT {
        assert(chain.skip((st.len() + inner.len()) as int) =~= Seq::<u8>::empty());
        assert(merge_spec::<M>(m, Seq::<u8>::empty(), RECURSION_LIMIT as nat) == Ok::<
            M::Model,
            DecodeError,
        >(m));
    }
}

/// `google.protobuf.FloatValue`, holding the IEEE 754 bit pattern of its 32-bit float.
#[derive(Clone, Copy, Debug, PartialEq, Eq, Structural)]
pub struct Float32Bits(pub u32);

/// Whether a 32-bit float pattern is +0.0 or -0.0: both compare equal to
/// zero, so the wrapper omits both.
pub open spec fn is_zero_32(b: u32) -> bool {
    b % 0x8000_0000 == 0
}

impl Message for Float32Bits {
    type Model = u32;

    open spec fn model(&self) -> u32 {
        self.0
    }

    open spec fn encoding(m: u32) -> Seq<u8> {
        if !is_zero_32(m) {
            key_bytes(1, WireType::ThirtyTwoBit) + le_bytes(m as nat, 4)
        } else {
            Seq::empty()
        }
    }

    open spec fn merge_field_spec(m: u32, tag: u32, wt: WireType, s: Seq<u8>, depth: nat) -> Result<
        (u32, nat),
        DecodeError,
    > {
        if tag == 1 {
            match fixed_field(WireType::ThirtyTwoBit, 4, wt, s) {
                Ok((v, n)) => Ok((((v as u64) % 0x1_0000_0000) as u32, n)),
                Err(e) => Err(e),
            }
        } else {
            skipped(m, wt, tag, s, depth)
        }
    }

    open spec fn default_model() -> u32 {
        0
    }

    proof fn lemma_default_encodes_nothing() {
    }

    fn encode_raw(&self, buf: &mut Vec<u8>) {
        if self.0 % 0x8000_0000 != 0 {
            encode_key(1, WireType::ThirtyTwoBit, buf);
            encode_fixed(self.0 as u64, 4, buf);
            assert(final(buf)@ =~= old(buf)@ + Self::encoding(self.0));
        } else {
            assert(buf@ + Seq::<u8>::empty() =~= buf@);
        }
    }

    fn merge_field(
        &mut self,
        tag: u32,
        wire_type: WireType,
        data: &[u8],
        pos: &mut usize,
        ctx: DecodeContext,
    ) -> (r: Result<(), DecodeError>) {
        if tag == 1 {
            let v = decode_fixed_field(WireType::ThirtyTwoBit, 4, wire_type, data, pos)?;
            self.0 = (v % 0x1_0000_0000) as u32;
            Ok(())
        } else {
            skip_field(wire_type, tag, data, pos, ctx)
        }
    }

    fn encoded_len(&self) -> (r: usize) {
        if self.0 % 0x8000_0000 != 0 {
            let k = key_len(1);
            assert(k == key_bytes(1, WireType::ThirtyTwoBit).len());
            proof {
                reveal_with_fuel(pow256, 5);
                lemma_le_round_trip(self.0 as nat, 4);
            }
            k + 4
        } else {
            0
        }
    }

    fn clear(&mut self) {
        self.0 = 0;
    }
}

/// Decoding the encoding of a 32-bit float pattern gives it back, for
/// every pattern but -0.0, which is omitted like +0.0 and so reads back as
/// +0.0.
pub proof fn lemma_round_trip_float32(v: u32)
    requires
        v != 0x8000_0000,
    ensures
        merge_spec::<Float32Bits>(0, Float32Bits::encoding(v), RECURSION_LIMIT as nat) == Ok::<
            u32,
            DecodeError,
        >(v),
{
    if !is_zero_32(v) {
        reveal_with_fuel(pow256, 5);
        assert(pow256(4) == 0x1_0000_0000);
        lemma_le_round_trip(v as nat, 4);
        let p = le_bytes(v as nat, 4);
        assert(p.take(4) =~= p);
        lemma_single_field::<Float32Bits>(0, WireType::ThirtyTwoBit, p, v);
    }
}

/// `google.protobuf.DoubleValue`, holding the IEEE 754 bit pattern of its 64-bit float.
#[derive(Clone, Copy, Debug, PartialEq, Eq, Structural)]
pub struct Float64Bits(pub u64);

/// Whether a 64-bit float pattern is +0.0 or -0.0: both compare equal to
/// zero, so the wrapper omits both.
pub open spec fn is_zero_64(b: u64) -> bool {
    b % 0x8000_0000_0000_0000 == 0
}

impl Message for Float64Bits {
    type Model = u64;

    open spec fn model(&self) -> u64 {
        self.0
    }

    open spec fn encoding(m: u64) -> Seq<u8> {
        if !is_zero_64(m) {
            key_bytes(1, WireType::SixtyFourBit) + le_bytes(m as nat, 8)
        } else {
            Seq::empty()
        }
    }

    open spec fn merge_field_spec(m: u64, tag: u32, wt: WireType, s: Seq<u8>, depth: nat) -> Result<
        (u64, nat),
        DecodeError,
    > {
        if tag == 1 {
            match fixed_field(WireType::SixtyFourBit, 8, wt, s) {
                Ok((v, n)) => Ok((v as u64, n)),
                Err(e) => Err(e),
            }
        } else {
            skipped(m, wt, tag, s, depth)
        }
    }

    open spec fn default_model() -> u64 {
        0
    }

    proof fn lemma_default_encodes_nothing() {
    }

    fn encode_raw(&self, buf: &mut Vec<u8>) {
        if self.0 % 0x8000_0000_0000_0000 != 0 {
            encode_key(1, WireType::SixtyFourBit, buf);
            encode_fixed(self.0 as u64, 8, buf);
            assert(final(buf)@ =~= old(buf)@ + Self::encoding(self.0));
        } else {
            assert(buf@ + Seq::<u8>::empty() =~= buf@);
        }
    }

    fn merge_field(
        &mut self,
        tag: u32,
        wire_type: WireType,
        data: &[u8],
        pos: &mut usize,
        ctx: DecodeContext,
    ) -> (r: Result<(), DecodeError>) {
        if tag == 1 {
            let v = decode_fixed_field(WireType::SixtyFourBit, 8, wire_type, data, pos)?;
            self.0 = v;
            Ok(())
        } else {
            skip_field(wire_type, tag, data, pos, ctx)
        }
    }

    fn encoded_len(&self) -> (r: usize) {
        if self.0 % 0x8000_0000_0000_0000 != 0 {
            let k = key_len(1);
            assert(k == key_bytes(1, WireType::SixtyFourBit).len());
            proof {
                reveal_with_fuel(pow256, 9);
                lemma_le_round_trip(self.0 as nat, 8);
            }
            k + 8
        } else {
            0
        }
    }

    fn clear(&mut self) {
        self.0 = 0;
    }
}

/// Decoding the encoding of a 64-bit float pattern gives it back, for
/// every pattern but -0.0, which is omitted like +0.0 and so reads back as
/// +0.0.
pub proof fn lemma_round_trip_float64(v: u64)
    requires
        v != 0x8000_0000_0000_0000,
    ensures
        merge_spec::<Float64Bits>(0, Float64Bits::encoding(v), RECURSION_LIMIT as nat) == Ok::<
            u64,
            DecodeError,
        >(v),
{
    if !is_zero_64(v) {
        reveal_with_fuel(pow256, 9);
        assert(pow256(8) == 0x1_0000_0000_0000_0000);
        lemma_le_round_trip(v as nat, 8);
        let p = le_bytes(v as nat, 8);
        assert(p.take(8) =~= p);
        lemma_single_field::<Float64Bits>(0, WireType::SixtyFourBit, p, v);
    }
}

} // verus!
