//! A shared byte buffer that holds valid UTF-8 text, with a type-level mark
//! telling whether its construction checked the bytes.
use vstd::prelude::*;

use core::marker::PhantomData;

use vstd::slice::slice_to_vec;
use vstd::utf8::{decode_utf8, decode_utf8_encode_utf8, encode_utf8, valid_utf8};

use crate::external::{
    bytes_as_slice, bytes_copy_from_slice, bytes_from_vec, bytes_len, bytes_new, bytes_view,
    utf8_text,
};
use crate::message::{
    bytes_equal,
    lemma_delimited_field, lemma_delimited_shape, lemma_single_field, merge_spec, delimited_bytes, delimited_len, encode_delimited, skipped, Message};
use crate::varint::varint_bytes;
use crate::wire::{RECURSION_LIMIT, decode_delimited_field, delimited_field, skip_field, DecodeContext, DecodeError, WireType};

verus! {

/// Mark of a buffer whose bytes were validated as UTF-8 when it was built.
#[derive(Clone, Copy, Debug, PartialEq, Eq, PartialOrd, Ord, Hash)]
pub struct Checked;

/// Mark of a buffer built without running the validation, from bytes the
/// caller already knows to be UTF-8.
#[derive(Clone, Copy, Debug, PartialEq, Eq, PartialOrd, Ord, Hash)]
pub struct Unchecked;

/// Text held as UTF-8 bytes in a shared buffer. Whatever the mark, the bytes
/// are valid UTF-8: the checked constructor tests them and the unchecked one
/// demands it of its caller.
pub struct ByteStr<Utf8Mode = Checked> {
    buf: bytes::Bytes,
    _marker: PhantomData<Utf8Mode>,
}

impl<T> View for ByteStr<T> {
    type V = Seq<u8>;

    closed spec fn view(&self) -> Seq<u8> {
        bytes_view(self.buf)
    }
}

impl<T> ByteStr<T> {
    #[verifier::type_invariant]
    closed spec fn inv(&self) -> bool {
        valid_utf8(bytes_view(self.buf))
    }

    /// The text the bytes encode.
    pub open spec fn text(&self) -> Seq<char> {
        decode_utf8(self@)
    }

    /// Returns the number of bytes in the buffer.
    pub fn len(&self) -> (r: usize)
        ensures
            r == self@.len(),
    {
        bytes_len(&self.buf)
    }

    /// Returns whether the buffer is empty.
    pub fn is_empty(&self) -> (r: bool)
        ensures
            r == (self@.len() == 0),
    {
        self.len() == 0
    }

    /// Empties the buffer, by giving it a fresh empty span; bytes shared
    /// with other holders are left alone.
    pub fn clear(&mut self)
        ensures
            final(self)@ == Seq::<u8>::empty(),
    {
        *self = ByteStr { buf: bytes_new(), _marker: PhantomData };
    }

    /// The text, without copying or validating again.
    pub fn as_str(&self) -> (r: &str)
        ensures
            r@ == self.text(),
    {
        proof {
            use_type_invariant(self);
        }
        match utf8_text(bytes_as_slice(&self.buf)) {
            Ok(t) => t,
            Err(_) => {
                assert(false);
                ""
            },
        }
    }

    /// The bytes of the text.
    pub fn as_bytes(&self) -> (r: &[u8])
        ensures
            r@ == self@,
    {
        bytes_as_slice(&self.buf)
    }

    /// Consumes the buffer, returning the shared bytes behind it.
    pub fn into_bytes(self) -> (r: bytes::Bytes)
        ensures
            bytes_view(r) == self@,
    {
        self.buf
    }
}

impl ByteStr {
    /// Builds a checked buffer: fails, building nothing, unless the bytes are
    /// valid UTF-8.
    pub fn from_utf8(buf: bytes::Bytes) -> (r: Result<Self, core::str::Utf8Error>)
        ensures
            match r {
                Ok(s) => valid_utf8(bytes_view(buf)) && s@ == bytes_view(buf),
                Err(_) => !valid_utf8(bytes_view(buf)),
            },
    {
        let checked = match utf8_text(bytes_as_slice(&buf)) {
            Ok(_) => Ok(()),
            Err(e) => Err(e),
        };
        match checked {
            Ok(()) => Ok(ByteStr { buf, _marker: PhantomData }),
            Err(e) => Err(e),
        }
    }
}

impl ByteStr<Unchecked> {
    /// Builds an unchecked buffer without running the validation; the caller
    /// vouches that the bytes are UTF-8.
    pub fn from_utf8(buf: bytes::Bytes) -> (r: Self)
        requires
            valid_utf8(bytes_view(buf)),
        ensures
            r@ == bytes_view(buf),
    {
        ByteStr { buf, _marker: PhantomData }
    }
}

impl<T> Default for ByteStr<T> {
    /// An empty buffer.
    fn default() -> (r: Self)
        ensures
            r@ == Seq::<u8>::empty(),
    {
        proof {
            assert(valid_utf8(Seq::<u8>::empty()));
        }
        ByteStr { buf: bytes_new(), _marker: PhantomData }
    }
}

impl<T> PartialEq for ByteStr<T> {
    fn eq(&self, other: &ByteStr<T>) -> (r: bool) {
        proof {
            use_type_invariant(self);
            use_type_invariant(other);
            decode_utf8_encode_utf8(self@);
            decode_utf8_encode_utf8(other@);
        }
        bytes_equal(self.as_bytes(), other.as_bytes())
    }
}

impl<T> vstd::std_specs::cmp::PartialEqSpecImpl for ByteStr<T> {
    open spec fn obeys_eq_spec() -> bool {
        true
    }

    open spec fn eq_spec(&self, other: &ByteStr<T>) -> bool {
        self.text() == other.text()
    }
}

impl<T> ByteStr<T> {
    /// A buffer holding the bytes of `value`, which a `String` guarantees to
    /// be UTF-8.
    pub fn from_string(value: String) -> (r: Self)
        ensures
            r.text() == value@,
            r@ == encode_utf8(value@),
    {
        let bytes = slice_to_vec(value.as_str().as_bytes());
        proof {
            vstd::utf8::encode_utf8_valid_utf8(value@);
            vstd::utf8::encode_utf8_decode_utf8(value@);
        }
        ByteStr { buf: bytes_from_vec(bytes), _marker: PhantomData }
    }
}

/// `google.protobuf.StringValue` held in a shared buffer. Both marks
/// validate the field's bytes on merge: a buffer built from the wire has no
/// caller to vouch for it.
impl<T> Message for ByteStr<T> {
    type Model = Seq<u8>;

    open spec fn model(&self) -> Seq<u8> {
        self@
    }

    open spec fn encoding(m: Seq<u8>) -> Seq<u8> {
        if m.len() != 0 {
            delimited_bytes(m)
        } else {
            Seq::empty()
        }
    }

    open spec fn merge_field_spec(m: Seq<u8>, tag: u32, wt: WireType, s: Seq<u8>, depth: nat) -> Result<
        (Seq<u8>, nat),
        DecodeError,
    > {
        if tag == 1 {
            match delimited_field(wt, s) {
                Ok((p, n)) => if valid_utf8(p) {
                    Ok((p, n))
                } else {
                    Err(DecodeError::InvalidUtf8)
                },
                Err(e) => Err(e),
            }
        } else {
            skipped(m, wt, tag, s, depth)
        }
    }

    open spec fn default_model() -> Seq<u8> {
        Seq::empty()
    }

    proof fn lemma_default_encodes_nothing() {
    }

    fn encode_raw(&self, buf: &mut Vec<u8>) {
        let b = self.as_bytes();
        if b.len() != 0 {
            encode_delimited(b, buf);
        } else {
            assert(buf@ + Seq::<u8>::empty() =~= buf@);
        }
    }

    fn merge_field(
        &mut self,
        tag: u32,
        wire_type: WireType,
        data: &[u8],
        pos: &mut usize,
        ctx: DecodeContext,
    ) -> (r: Result<(), DecodeError>) {
        if tag == 1 {
            let (a, b) = decode_delimited_field(wire_type, data, pos)?;
            let payload = &data[a..b];
            let valid = match utf8_text(payload) {
                Ok(_) => true,
                Err(_) => false,
            };
            if valid {
                *self = ByteStr { buf: bytes_copy_from_slice(payload), _marker: PhantomData };
                Ok(())
            } else {
                Err(DecodeError::InvalidUtf8)
            }
        } else {
            skip_field(wire_type, tag, data, pos, ctx)
        }
    }

    fn encoded_len(&self) -> (r: usize) {
        let n = self.len();
        if n != 0 {
            delimited_len(n)
        } else {
            0
        }
    }

    fn clear(&mut self) {
        ByteStr::<T>::clear(self);
    }
}

/// Decoding the encoding of a buffer's bytes into a checked buffer gives the
/// bytes back.
pub proof fn lemma_round_trip_byte_str(v: Seq<u8>)
    requires
        valid_utf8(v),
        v.len() <= u64::MAX,
    ensures
        merge_spec::<ByteStr<Checked>>(
            Seq::empty(),
            <ByteStr<Checked> as Message>::encoding(v),
            RECURSION_LIMIT as nat,
        ) == Ok::<Seq<u8>, DecodeError>(v),
{
    if v.len() != 0 {
        lemma_delimited_field(v);
        lemma_delimited_shape(v);
        lemma_single_field::<ByteStr<Checked>>(
            Seq::empty(),
            WireType::LengthDelimited,
            varint_bytes(v.len()) + v,
            v,
        );
    } else {
        assert(v =~= Seq::<u8>::empty());
    }
}

} // verus!
