//! Decisions of the conformance driver: one framed request in, one result
//! out. Reading and writing the frames is left to the caller.
use vstd::prelude::*;

use vstd::string::StringExecFns;

use vstd::utf8::{decode_utf8, encode_utf8, valid_utf8};

use crate::external::utf8_text;
use crate::message::{
    bytes_equal, decode, encode_delimited_field, field_bytes, merge_spec, skipped,
    varint_as_i32, Message,
};
use crate::varint::{encode_varint, encoded_len_varint, varint_bytes};
use crate::wire::{
    decode_delimited_field, decode_varint_field, delimited_field, encode_key, key_bytes, key_len,
    skip_field, varint_field, DecodeContext, DecodeError, WireType, RECURSION_LIMIT,
};

verus! {

/// Output format a request asks for.
#[derive(Clone, Copy, Debug, PartialEq, Eq, Structural)]
pub enum WireFormat {
    Unspecified,
    Protobuf,
    Json,
}

/// The input a request carries.
pub enum Payload {
    ProtobufPayload(Vec<u8>),
    JsonPayload(String),
}

/// One conformance request.
pub struct ConformanceRequest {
    pub payload: Option<Payload>,
    pub requested_output_format: WireFormat,
}

/// The one outcome a response carries.
pub enum ConformanceResult {
    /// The input could not be decoded.
    ParseError(String),
    /// The library contradicted itself: a size or a round trip disagreed.
    RuntimeError(String),
    /// The re-encoded payload.
    ProtobufPayload(Vec<u8>),
    /// The request needs a feature that is not offered.
    Skipped(String),
}

/// Decodes the payload as `M`, re-encodes it, checks the measured size
/// against the bytes written, decodes the re-encoding again and checks that
/// it encodes the same; `first` and `second` receive the two decoded values.
pub fn handle_request<M: Message>(request: ConformanceRequest, first: &mut M, second: &mut M) -> (r:
    ConformanceResult)
    ensures
        request.requested_output_format == WireFormat::Json ==> r is Skipped,
        request.requested_output_format != WireFormat::Json ==> match request.payload {
            None => r is ParseError,
            Some(Payload::JsonPayload(_)) => r is Skipped,
            Some(Payload::ProtobufPayload(p)) => match merge_spec::<M>(
                M::default_model(),
                p@,
                RECURSION_LIMIT as nat,
            ) {
                Err(_) => r is ParseError,
                Ok(m) => match merge_spec::<M>(
                    M::default_model(),
                    M::encoding(m),
                    RECURSION_LIMIT as nat,
                ) {
                    Err(_) => r is ParseError,
                    Ok(m2) => if M::encoding(m2) == M::encoding(m) {
                        r matches ConformanceResult::ProtobufPayload(out) && out@ == M::encoding(m)
                    } else {
                        r is RuntimeError
                    },
                },
            },
        },
{
    if request.requested_output_format == WireFormat::Json {
        return ConformanceResult::Skipped("JSON output is not supported".to_owned());
    }
    let payload = match request.payload {
        None => return ConformanceResult::ParseError("no payload".to_owned()),
        Some(Payload::JsonPayload(_)) => {
            return ConformanceResult::Skipped("JSON input is not supported".to_owned());
        },
        Some(Payload::ProtobufPayload(buf)) => buf,
    };
    match decode(first, payload.as_slice()) {
        Ok(()) => {},
        Err(e) => {
            let mut msg = "failed to parse message: ".to_owned();
            msg.append(e.description());
            return ConformanceResult::ParseError(msg);
        },
    }
    let mut buf: Vec<u8> = Vec::new();
    first.encode_raw(&mut buf);
    let written = buf.len();
    assert(buf@ =~= M::encoding(first.model()));
    if first.encoded_len() != written {
        return ConformanceResult::RuntimeError(
            "encoded length does not match actual".to_owned(),
        );
    }
    match decode(second, buf.as_slice()) {
        Ok(()) => {},
        Err(e) => {
            let mut msg = "failed to parse round trip message: ".to_owned();
            msg.append(e.description());
            return ConformanceResult::ParseError(msg);
        },
    }
    let mut again: Vec<u8> = Vec::new();
    second.encode_raw(&mut again);
    assert(again@ =~= M::encoding(second.model()));
    if !bytes_equal(again.as_slice(), buf.as_slice()) {
        return ConformanceResult::RuntimeError(
            "round trip value does not match original".to_owned(),
        );
    }
    ConformanceResult::ProtobufPayload(buf)
}

/// The length a frame header announces: four bytes, little-endian.
pub open spec fn le_u32(b: Seq<u8>) -> nat {
    b[0] as nat + 256 * (b[1] as nat) + 65536 * (b[2] as nat) + 16777216 * (b[3] as nat)
}

/// Reads the length from a frame header.
pub fn frame_len(header: &[u8]) -> (r: u32)
    requires
        header@.len() == 4,
    ensures
        r == le_u32(header@),
{
    header[0] as u32 + 256 * (header[1] as u32) + 65536 * (header[2] as u32) + 16777216 * (
    header[3] as u32)
}

/// Frames `payload`: its length as four little-endian bytes, then the bytes.
pub fn frame(payload: &[u8]) -> (r: Vec<u8>)
    requires
        payload@.len() <= u32::MAX,
    ensures
        r@.len() == 4 + payload@.len(),
        le_u32(r@.subrange(0, 4)) == payload@.len(),
        r@.subrange(4, r@.len() as int) == payload@,
{
    let n = payload.len() as u32;
    let mut out: Vec<u8> = Vec::new();
    out.push((n % 256) as u8);
    out.push((n / 256 % 256) as u8);
    out.push((n / 65536 % 256) as u8);
    out.push((n / 16777216) as u8);
    let ghost head = out@;
    crate::message::append_bytes(&mut out, payload);
    assert(out@.subrange(0, 4) =~= head);
    assert(out@.subrange(4, out@.len() as int) =~= payload@);
    out
}

/// The output format a number on the wire names; unknown numbers read as
/// unspecified.
pub open spec fn wire_format_of(v: i32) -> WireFormat {
    if v == 1 {
        WireFormat::Protobuf
    } else if v == 2 {
        WireFormat::Json
    } else {
        WireFormat::Unspecified
    }
}

pub open spec fn wire_format_value(f: WireFormat) -> nat {
    match f {
        WireFormat::Unspecified => 0,
        WireFormat::Protobuf => 1,
        WireFormat::Json => 2,
    }
}

/// A request as its fields stand: the binary payload, the JSON payload (at
/// most one of the two is set by decoding), and the output format.
pub type RequestModel = (Option<Seq<u8>>, Option<Seq<char>>, WireFormat);

pub open spec fn request_encoding(m: RequestModel) -> Seq<u8> {
    (match m.0 {
        Some(p) => field_bytes(1, p),
        None => Seq::empty(),
    }) + (match m.1 {
        Some(t) => field_bytes(2, encode_utf8(t)),
        None => Seq::empty(),
    }) + (if m.2 != WireFormat::Unspecified {
        key_bytes(3, WireType::Varint) + varint_bytes(wire_format_value(m.2))
    } else {
        Seq::empty()
    })
}

/// `conformance.ConformanceRequest`: `protobuf_payload` is field 1,
/// `json_payload` field 2 (the two form a oneof), `requested_output_format`
/// field 3.
impl Message for ConformanceRequest {
    type Model = RequestModel;

    open spec fn model(&self) -> RequestModel {
        (
            match self.payload {
                Some(Payload::ProtobufPayload(p)) => Some(p@),
                _ => None,
            },
            match self.payload {
                Some(Payload::JsonPayload(t)) => Some(t@),
                _ => None,
            },
            self.requested_output_format,
        )
    }

    open spec fn encoding(m: RequestModel) -> Seq<u8> {
        request_encoding(m)
    }

    open spec fn merge_field_spec(m: RequestModel, tag: u32, wt: WireType, s: Seq<u8>, depth: nat) -> Result<
        (RequestModel, nat),
        DecodeError,
    > {
        if tag == 1 {
            match delimited_field(wt, s) {
                Ok((p, n)) => Ok(((Some(p), None, m.2), n)),
                Err(e) => Err(e),
            }
        } else if tag == 2 {
            match delimited_field(wt, s) {
                Ok((p, n)) => if valid_utf8(p) {
                    Ok(((None, Some(decode_utf8(p)), m.2), n))
                } else {
                    Err(DecodeError::InvalidUtf8)
                },
                Err(e) => Err(e),
            }
        } else if tag == 3 {
            match varint_field(wt, s) {
                Ok((v, n)) => Ok(((m.0, m.1, wire_format_of(varint_as_i32(v))), n)),
                Err(e) => Err(e),
            }
        } else {
            skipped(m, wt, tag, s, depth)
        }
    }

    open spec fn default_model() -> RequestModel {
        (None, None, WireFormat::Unspecified)
    }

    proof fn lemma_default_encodes_nothing() {
        assert(request_encoding((None, None, WireFormat::Unspecified)) =~= Seq::<u8>::empty());
    }

    fn encode_raw(&self, buf: &mut Vec<u8>) {
        let ghost start = buf@;
        match &self.payload {
            Some(Payload::ProtobufPayload(p)) => {
                encode_delimited_field(1, p.as_slice(), buf);
            },
            Some(Payload::JsonPayload(t)) => {
                encode_delimited_field(2, t.as_str().as_bytes(), buf);
            },
            None => {},
        }
        let ghost mid = buf@;
        let v: u64 = match self.requested_output_format {
            WireFormat::Unspecified => 0,
            WireFormat::Protobuf => 1,
            WireFormat::Json => 2,
        };
        if v != 0 {
            encode_key(3, WireType::Varint, buf);
            encode_varint(v, buf);
        }
        assert(buf@ =~= start + request_encoding(self.model()));
    }

    fn merge_field(
        &mut self,
        tag: u32,
        wire_type: WireType,
        data: &[u8],
        pos: &mut usize,
        ctx: DecodeContext,
    ) -> (r: Result<(), DecodeError>) {
        if tag == 1 {
            let (a, b) = decode_delimited_field(wire_type, data, pos)?;
            self.payload = Some(Payload::ProtobufPayload(vstd::slice::slice_to_vec(&data[a..b])));
            Ok(())
        } else if tag == 2 {
            let (a, b) = decode_delimited_field(wire_type, data, pos)?;
            match utf8_text(&data[a..b]) {
                Ok(t) => {
                    self.payload = Some(Payload::JsonPayload(t.to_owned()));
                    Ok(())
                },
                Err(_) => Err(DecodeError::InvalidUtf8),
            }
        } else if tag == 3 {
            let v = decode_varint_field(wire_type, data, pos)?;
            let low: u64 = v % 0x1_0000_0000;
            self.requested_output_format = if low == 1 {
                WireFormat::Protobuf
            } else if low == 2 {
                WireFormat::Json
            } else {
                WireFormat::Unspecified
            };
            Ok(())
        } else {
            skip_field(wire_type, tag, data, pos, ctx)
        }
    }

    fn encoded_len(&self) -> (r: usize) {
        let payload_len: usize = match &self.payload {
            Some(Payload::ProtobufPayload(p)) => key_len(1) + encoded_len_varint(p.len() as u64)
                + p.len(),
            Some(Payload::JsonPayload(t)) => {
                let b = t.as_str().as_bytes();
                key_len(2) + encoded_len_varint(b.len() as u64) + b.len()
            },
            None => 0,
        };
        let v: u64 = match self.requested_output_format {
            WireFormat::Unspecified => 0,
            WireFormat::Protobuf => 1,
            WireFormat::Json => 2,
        };
        if v != 0 {
            payload_len + key_len(3) + 1
        } else {
            payload_len
        }
    }

    fn clear(&mut self) {
        self.payload = None;
        self.requested_output_format = WireFormat::Unspecified;
        assert(request_encoding((None, None, WireFormat::Unspecified)) =~= Seq::<u8>::empty());
    }
}

/// The encoding of a response carrying `r`: `parse_error` is field 1,
/// `runtime_error` field 2, `protobuf_payload` field 3, `skipped` field 5.
/// A oneof member is written even when empty.
pub open spec fn response_encoding(r: ConformanceResult) -> Seq<u8> {
    match r {
        ConformanceResult::ParseError(t) => field_bytes(1, encode_utf8(t@)),
        ConformanceResult::RuntimeError(t) => field_bytes(2, encode_utf8(t@)),
        ConformanceResult::ProtobufPayload(p) => field_bytes(3, p@),
        ConformanceResult::Skipped(t) => field_bytes(5, encode_utf8(t@)),
    }
}

/// Encodes a response carrying `result`.
pub fn encode_response(result: &ConformanceResult) -> (r: Vec<u8>)
    ensures
        r@ == response_encoding(*result),
{
    let mut buf: Vec<u8> = Vec::new();
    match result {
        ConformanceResult::ParseError(t) => encode_delimited_field(1, t.as_str().as_bytes(), &mut buf),
        ConformanceResult::RuntimeError(t) => encode_delimited_field(
            2,
            t.as_str().as_bytes(),
            &mut buf,
        ),
        ConformanceResult::ProtobufPayload(p) => encode_delimited_field(3, p.as_slice(), &mut buf),
        ConformanceResult::Skipped(t) => encode_delimited_field(5, t.as_str().as_bytes(), &mut buf),
    }
    assert(buf@ =~= response_encoding(*result));
    buf
}

} // verus!
