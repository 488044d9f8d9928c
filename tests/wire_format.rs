use bytes::Bytes;
use proto::byte_str::{ByteStr, Checked, Unchecked};
use proto::conformance::{
    encode_response, frame, frame_len, handle_request, ConformanceRequest, ConformanceResult, Payload, WireFormat,
};
use proto::message::{decode, encode_to_vec, merge, Float32Bits, Float64Bits, Message};
use proto::varint::{
    decode_varint, encode_varint, encoded_len_varint, zigzag_decode32, zigzag_decode64,
    zigzag_encode32, zigzag_encode64,
};
use proto::wire::{
    decode_fixed, decode_fixed_field, decode_key, encode_fixed, encode_key, key_len, skip_field, DecodeContext, DecodeError, WireType,
    RECURSION_LIMIT,
};

fn round_trip<M: Message + Default + PartialEq + std::fmt::Debug + Clone>(v: M) {
    let bytes = encode_to_vec(&v);
    assert_eq!(v.encoded_len(), bytes.len());
    let mut out = M::default();
    decode(&mut out, &bytes).unwrap();
    assert_eq!(out, v);
}

#[test]
fn varint_known_encodings() {
    let mut buf = Vec::new();
    encode_varint(300, &mut buf);
    assert_eq!(buf, vec![0xAC, 0x02]);
    assert_eq!(encoded_len_varint(300), 2);
    assert_eq!(encoded_len_varint(0), 1);
    assert_eq!(encoded_len_varint(u64::MAX), 10);
    assert_eq!(decode_varint(&[0xAC, 0x02, 0x07], 0), Some((300, 2)));
    assert_eq!(decode_varint(&[0x07, 0xAC, 0x02], 1), Some((300, 2)));
}

#[test]
fn varint_rejects_malformed() {
    assert_eq!(decode_varint(&[], 0), None);
    assert_eq!(decode_varint(&[0x80], 0), None);
    assert_eq!(decode_varint(&[0xFF; 11], 0), None);
    let mut too_big = vec![0xFF; 9];
    too_big.push(0x02);
    assert_eq!(decode_varint(&too_big, 0), None);
    let mut max = vec![0xFF; 9];
    max.push(0x01);
    assert_eq!(decode_varint(&max, 0), Some((u64::MAX, 10)));
}

#[test]
fn scalar_round_trips() {
    round_trip(true);
    round_trip(false);
    for v in [0u32, 1, 150, u32::MAX] {
        round_trip(v);
    }
    for v in [0u64, 1, 300, u64::MAX] {
        round_trip(v);
    }
    for v in [0i32, 1, -1, i32::MIN, i32::MAX] {
        round_trip(v);
    }
    for v in [0i64, 1, -1, i64::MIN, i64::MAX] {
        round_trip(v);
    }
    round_trip(String::from("héllo, wörld ✓ 日本"));
    round_trip(String::new());
    round_trip(vec![0u8, 1, 2, 255]);
    round_trip(Vec::<u8>::new());
    round_trip(Bytes::from(vec![9u8, 8, 7]));
    round_trip(());
}

#[test]
fn scalar_exact_encodings() {
    assert_eq!(encode_to_vec(&150u32), vec![0x08, 0x96, 0x01]);
    assert_eq!(encode_to_vec(&true), vec![0x08, 0x01]);
    assert_eq!(true.encoded_len(), 2);
    let mut minus_one = vec![0x08];
    minus_one.extend_from_slice(&[0xFF; 9]);
    minus_one.push(0x01);
    assert_eq!(encode_to_vec(&-1i32), minus_one);
    assert_eq!(encode_to_vec(&-1i64), minus_one);
    assert_eq!(encode_to_vec(&String::from("hi")), vec![0x0A, 0x02, b'h', b'i']);
    assert_eq!(encode_to_vec(&vec![1u8, 2]), vec![0x0A, 0x02, 1, 2]);
    assert_eq!(encode_to_vec(&Bytes::from(vec![3u8])), vec![0x0A, 0x01, 3]);
}

#[test]
fn encoded_len_matches_encoding() {
    let long = "x".repeat(300);
    assert_eq!(String::from(long.as_str()).encoded_len(), encode_to_vec(&long.to_string()).len());
    assert_eq!(long.to_string().encoded_len(), 1 + 2 + 300);
    assert_eq!(u64::MAX.encoded_len(), 11);
    assert_eq!(i32::MIN.encoded_len(), 11);
    assert_eq!(vec![0u8; 128].encoded_len(), 1 + 2 + 128);
}

#[test]
fn defaults_encode_to_nothing() {
    assert!(encode_to_vec(&false).is_empty());
    assert!(encode_to_vec(&0u32).is_empty());
    assert!(encode_to_vec(&0u64).is_empty());
    assert!(encode_to_vec(&0i32).is_empty());
    assert!(encode_to_vec(&0i64).is_empty());
    assert!(encode_to_vec(&String::new()).is_empty());
    assert!(encode_to_vec(&Vec::<u8>::new()).is_empty());
    assert!(encode_to_vec(&Bytes::new()).is_empty());
    assert!(encode_to_vec(&ByteStr::<Checked>::from_string(String::new())).is_empty());
    assert_eq!(0u32.encoded_len(), 0);
    assert_eq!(false.encoded_len(), 0);
    assert_eq!(String::new().encoded_len(), 0);
    let mut v = 77u64;
    v.clear();
    assert_eq!(v, 0);
    let mut s = String::from("abc");
    Message::clear(&mut s);
    assert!(s.is_empty());
}

#[test]
fn zigzag_values() {
    assert_eq!(zigzag_encode32(0), 0);
    assert_eq!(zigzag_encode32(-1), 1);
    assert_eq!(zigzag_encode32(1), 2);
    assert_eq!(zigzag_encode32(-2), 3);
    assert_eq!(zigzag_encode32(i32::MAX), u32::MAX - 1);
    assert_eq!(zigzag_encode32(i32::MIN), u32::MAX);
    assert_eq!(zigzag_encode64(i64::MIN), u64::MAX);
    assert_eq!(zigzag_encode64(-3), 5);
    for n in [0i32, 1, -1, 63, -64, i32::MIN, i32::MAX] {
        let mut buf = Vec::new();
        encode_varint(zigzag_encode32(n) as u64, &mut buf);
        let (u, len) = decode_varint(&buf, 0).unwrap();
        assert_eq!(len, buf.len());
        assert_eq!(zigzag_decode32(u as u32), n);
    }
    for n in [0i64, 1, -1, i64::MIN, i64::MAX] {
        let mut buf = Vec::new();
        encode_varint(zigzag_encode64(n), &mut buf);
        let (u, _) = decode_varint(&buf, 0).unwrap();
        assert_eq!(zigzag_decode64(u), n);
    }
    let mut buf = Vec::new();
    encode_varint(zigzag_encode32(-1) as u64, &mut buf);
    assert_eq!(buf, vec![0x01]);
}

#[test]
fn unknown_fields_are_skipped() {
    // field 2 varint 5, then field 1 varint 42
    let mut v = 0u32;
    decode(&mut v, &[0x10, 0x05, 0x08, 0x2A]).unwrap();
    assert_eq!(v, 42);
    // field 3 length-delimited, field 4 fixed32, field 5 fixed64, then field 1
    let data = [
        0x1A, 0x02, 0xAA, 0xBB, 0x25, 1, 2, 3, 4, 0x29, 1, 2, 3, 4, 5, 6, 7, 8, 0x0A, 0x01, b'z',
    ];
    let mut s = String::new();
    decode(&mut s, &data).unwrap();
    assert_eq!(s, "z");
    // a group with a field inside it
    let mut b = false;
    decode(&mut b, &[0x13, 0x08, 0x01, 0x14, 0x08, 0x01]).unwrap();
    assert!(b);
    let mut e = ();
    decode(&mut e, &[0x08, 0x01, 0x12, 0x00]).unwrap();
}

fn nested_groups(depth: usize) -> Vec<u8> {
    let mut data = vec![0x13; depth];
    data.extend(std::iter::repeat(0x14).take(depth));
    data
}

#[test]
fn recursion_limit_on_nested_groups() {
    let mut v = 0u64;
    assert_eq!(decode(&mut v, &nested_groups(99)), Ok(()));
    assert_eq!(decode(&mut v, &nested_groups(RECURSION_LIMIT as usize)), Ok(()));
    assert_eq!(decode(&mut v, &nested_groups(101)), Err(DecodeError::RecursionLimit));
    assert_eq!(decode(&mut v, &nested_groups(5000)), Err(DecodeError::RecursionLimit));
    let mut pos = 1;
    let ctx = DecodeContext { recursion_limit: 3 };
    assert_eq!(skip_field(WireType::StartGroup, 2, &nested_groups(4), &mut pos, ctx), Err(DecodeError::RecursionLimit));
    let mut pos = 1;
    assert_eq!(skip_field(WireType::StartGroup, 2, &nested_groups(3), &mut pos, ctx), Ok(()));
    assert_eq!(pos, 6);
    let ctx0 = DecodeContext { recursion_limit: 0 };
    let mut pos = 0;
    assert_eq!(skip_field(WireType::Varint, 2, &[0x01], &mut pos, ctx0), Err(DecodeError::RecursionLimit));
}

#[test]
fn context_budget() {
    let ctx = DecodeContext::new();
    assert_eq!(ctx.recursion_limit, 100);
    assert_eq!(ctx.enter_recursion().recursion_limit, 99);
    assert_eq!(ctx.limit_reached(), Ok(()));
    assert_eq!(DecodeContext { recursion_limit: 0 }.limit_reached(), Err(DecodeError::RecursionLimit));
}

#[test]
fn decode_errors() {
    let mut v = 0u32;
    assert_eq!(decode(&mut v, &[0x80]), Err(DecodeError::InvalidVarint));
    assert_eq!(decode(&mut v, &[0x80, 0x80, 0x80, 0x80, 0x10]), Err(DecodeError::InvalidKey));
    assert_eq!(decode(&mut v, &[0x0F]), Err(DecodeError::InvalidWireType));
    assert_eq!(decode(&mut v, &[0x00]), Err(DecodeError::InvalidTag));
    assert_eq!(decode(&mut v, &[0x0A, 0x00]), Err(DecodeError::WireTypeMismatch));
    assert_eq!(decode(&mut v, &[0x14]), Err(DecodeError::UnexpectedEndGroup));
    assert_eq!(decode(&mut v, &[0x13, 0x1C]), Err(DecodeError::UnexpectedEndGroup));
    assert_eq!(decode(&mut v, &[0x15, 0x01]), Err(DecodeError::BufferUnderflow));
    assert_eq!(decode(&mut v, &[0x11, 0x01]), Err(DecodeError::BufferUnderflow));
    assert_eq!(decode(&mut v, &[0x12, 0x05, 0x01]), Err(DecodeError::BufferUnderflow));
    let mut s = String::new();
    assert_eq!(decode(&mut s, &[0x0A, 0x01, 0xFF]), Err(DecodeError::InvalidUtf8));
    assert_eq!(decode(&mut s, &[0x0A, 0x03, b'a']), Err(DecodeError::BufferUnderflow));
    let mut b = ByteStr::<Checked>::default();
    assert_eq!(decode(&mut b, &[0x0A, 0x02, 0xC3, 0x28]), Err(DecodeError::InvalidUtf8));
    assert_eq!(DecodeError::InvalidWireType.description(), "invalid wire type value");
}

#[test]
fn merge_keeps_last_value() {
    let mut v = 5u64;
    merge(&mut v, &[]).unwrap();
    assert_eq!(v, 5);
    merge(&mut v, &[0x08, 0x01, 0x08, 0x02]).unwrap();
    assert_eq!(v, 2);
    let mut narrow = 0u32;
    decode(&mut narrow, &[0x08, 0x80, 0x80, 0x80, 0x80, 0x10]).unwrap();
    assert_eq!(narrow, 0);
}

#[test]
fn keys() {
    let mut buf = Vec::new();
    encode_key(1, WireType::LengthDelimited, &mut buf);
    assert_eq!(buf, vec![0x0A]);
    let mut buf = Vec::new();
    encode_key(16, WireType::Varint, &mut buf);
    assert_eq!(buf, vec![0x80, 0x01]);
    assert_eq!(key_len(16), 2);
    assert_eq!(key_len(536870911), 5);
    let mut pos = 0;
    assert_eq!(decode_key(&buf, &mut pos), Ok((16, WireType::Varint)));
    assert_eq!(pos, 2);
}

#[test]
fn byte_str_checked_construction() {
    assert!(ByteStr::<Checked>::from_utf8(Bytes::from(vec![0xFFu8])).is_err());
    assert!(ByteStr::<Checked>::from_utf8(Bytes::from(vec![0xE6u8, 0x97])).is_err());
    let text = "日本語 and ascii";
    let b = ByteStr::<Checked>::from_utf8(Bytes::from(text.as_bytes().to_vec())).unwrap();
    assert_eq!(b.as_str(), text);
    assert_eq!(b.len(), text.len());
    assert!(!b.is_empty());
    assert_eq!(b.as_bytes(), text.as_bytes());
    let empty = ByteStr::<Checked>::from_utf8(Bytes::new()).unwrap();
    assert_eq!(empty.as_str(), "");
    assert!(empty.is_empty());
    let back: Bytes = b.into_bytes();
    assert_eq!(&back[..], text.as_bytes());
}

#[test]
fn byte_str_unchecked_and_equality() {
    let u = ByteStr::<Unchecked>::from_utf8(Bytes::from_static("héllo".as_bytes()));
    assert_eq!(u.as_str(), "héllo");
    let a = ByteStr::<Checked>::from_string(String::from("same"));
    let b = ByteStr::<Checked>::from_utf8(Bytes::from(b"same".to_vec())).unwrap();
    let c = ByteStr::<Checked>::from_string(String::from("other"));
    assert!(a == b);
    assert!(a != c);
    let mut d = ByteStr::<Checked>::from_string(String::from("gone"));
    d.clear();
    assert!(d.is_empty());
    assert_eq!(d.as_str(), "");
}

#[test]
fn byte_str_message() {
    let v = ByteStr::<Checked>::from_string(String::from("ünïcode"));
    let bytes = encode_to_vec(&v);
    assert_eq!(v.encoded_len(), bytes.len());
    let mut out = ByteStr::<Checked>::from_string(String::from("old"));
    decode(&mut out, &bytes).unwrap();
    assert_eq!(out.as_str(), "ünïcode");
    let mut un = ByteStr::<Unchecked>::from_string(String::new());
    decode(&mut un, &bytes).unwrap();
    assert_eq!(un.as_str(), "ünïcode");
}

fn protobuf_request(payload: Vec<u8>) -> ConformanceRequest {
    ConformanceRequest {
        payload: Some(Payload::ProtobufPayload(payload)),
        requested_output_format: WireFormat::Protobuf,
    }
}

#[test]
fn conformance_empty_payload() {
    let (mut a, mut b) = (String::new(), String::new());
    match handle_request(protobuf_request(vec![]), &mut a, &mut b) {
        ConformanceResult::ProtobufPayload(p) => assert!(p.is_empty()),
        _ => panic!("expected a payload"),
    }
}

#[test]
fn conformance_json_is_skipped() {
    let (mut a, mut b) = (0u64, 0u64);
    let req = ConformanceRequest {
        payload: Some(Payload::ProtobufPayload(vec![0x08, 0x01])),
        requested_output_format: WireFormat::Json,
    };
    assert!(matches!(handle_request(req, &mut a, &mut b), ConformanceResult::Skipped(_)));
    let req = ConformanceRequest {
        payload: Some(Payload::JsonPayload(String::from("{}"))),
        requested_output_format: WireFormat::Protobuf,
    };
    assert!(matches!(handle_request(req, &mut a, &mut b), ConformanceResult::Skipped(_)));
    let req = ConformanceRequest { payload: None, requested_output_format: WireFormat::Protobuf };
    assert!(matches!(handle_request(req, &mut a, &mut b), ConformanceResult::ParseError(_)));
}

#[test]
fn conformance_bad_wire_type() {
    let (mut a, mut b) = (0u64, 0u64);
    match handle_request(protobuf_request(vec![0x0F, 0x01]), &mut a, &mut b) {
        ConformanceResult::ParseError(msg) => assert!(msg.contains("invalid wire type")),
        _ => panic!("expected a parse error"),
    }
}

#[test]
fn conformance_reencodes_canonically() {
    let (mut a, mut b) = (0u64, 0u64);
    // non-minimal varint and an unknown field: re-encoded minimal, unknown dropped
    match handle_request(protobuf_request(vec![0x10, 0x01, 0x08, 0x81, 0x00]), &mut a, &mut b) {
        ConformanceResult::ProtobufPayload(p) => assert_eq!(p, vec![0x08, 0x01]),
        _ => panic!("expected a payload"),
    }
    assert_eq!(a, 1);
    assert_eq!(b, 1);
}

#[test]
fn framing() {
    assert_eq!(frame_len(&[10, 0, 0, 0]), 10);
    assert_eq!(frame_len(&[0x01, 0x02, 0x03, 0x04]), 0x04030201);
    assert_eq!(frame(&[7, 8]), vec![2, 0, 0, 0, 7, 8]);
    let big = vec![0u8; 300];
    let f = frame(&big);
    assert_eq!(&f[..4], &[0x2C, 0x01, 0, 0]);
    assert_eq!(f.len(), 304);
}

#[test]
fn conformance_request_decoding() {
    let mut req = ConformanceRequest { payload: None, requested_output_format: WireFormat::Unspecified };
    decode(&mut req, &[0x0A, 0x02, 0x08, 0x01, 0x18, 0x01]).unwrap();
    match &req.payload {
        Some(Payload::ProtobufPayload(p)) => assert_eq!(p, &vec![0x08, 0x01]),
        _ => panic!("expected a binary payload"),
    }
    assert_eq!(req.requested_output_format, WireFormat::Protobuf);
    assert_eq!(req.encoded_len(), 6);
    assert_eq!(encode_to_vec(&req), vec![0x0A, 0x02, 0x08, 0x01, 0x18, 0x01]);
    decode(&mut req, &[0x12, 0x02, b'{', b'}', 0x18, 0x02]).unwrap();
    match &req.payload {
        Some(Payload::JsonPayload(t)) => assert_eq!(t, "{}"),
        _ => panic!("expected a JSON payload"),
    }
    assert_eq!(req.requested_output_format, WireFormat::Json);
    assert_eq!(decode(&mut req, &[0x12, 0x01, 0xFF]), Err(DecodeError::InvalidUtf8));
}

#[test]
fn conformance_response_encoding() {
    assert_eq!(
        encode_response(&ConformanceResult::ProtobufPayload(vec![])),
        vec![0x1A, 0x00]
    );
    assert_eq!(
        encode_response(&ConformanceResult::Skipped(String::from("no"))),
        vec![0x2A, 0x02, b'n', b'o']
    );
    assert_eq!(
        encode_response(&ConformanceResult::ParseError(String::from("x"))),
        vec![0x0A, 0x01, b'x']
    );
    assert_eq!(
        encode_response(&ConformanceResult::RuntimeError(String::new())),
        vec![0x12, 0x00]
    );
}

#[test]
fn fixed_width_values() {
    let mut buf = Vec::new();
    encode_fixed(0x0102_0304, 4, &mut buf);
    assert_eq!(buf, vec![4, 3, 2, 1]);
    assert_eq!(decode_fixed(&buf, 0, 4), 0x0102_0304);
    let mut buf = Vec::new();
    encode_fixed(u64::MAX - 1, 8, &mut buf);
    assert_eq!(buf, vec![0xFE, 0xFF, 0xFF, 0xFF, 0xFF, 0xFF, 0xFF, 0xFF]);
    assert_eq!(decode_fixed(&buf, 0, 8), u64::MAX - 1);
    let mut pos = 0;
    assert_eq!(
        decode_fixed_field(WireType::ThirtyTwoBit, 4, WireType::Varint, &buf, &mut pos),
        Err(DecodeError::WireTypeMismatch)
    );
    let mut pos = 6;
    assert_eq!(
        decode_fixed_field(WireType::ThirtyTwoBit, 4, WireType::ThirtyTwoBit, &buf, &mut pos),
        Err(DecodeError::BufferUnderflow)
    );
}

#[test]
fn float_wrappers() {
    let one_half = Float32Bits(1.5f32.to_bits());
    let mut expected = vec![0x0D];
    expected.extend_from_slice(&1.5f32.to_le_bytes());
    assert_eq!(encode_to_vec(&one_half), expected);
    assert_eq!(one_half.encoded_len(), 5);
    let mut out = Float32Bits(0);
    decode(&mut out, &expected).unwrap();
    assert_eq!(f32::from_bits(out.0), 1.5);
    let d = Float64Bits((-2.25f64).to_bits());
    let bytes = encode_to_vec(&d);
    assert_eq!(bytes.len(), 9);
    assert_eq!(bytes[0], 0x09);
    let mut back = Float64Bits(0);
    decode(&mut back, &bytes).unwrap();
    assert_eq!(f64::from_bits(back.0), -2.25);
    // both zeros are omitted
    assert!(encode_to_vec(&Float32Bits(0.0f32.to_bits())).is_empty());
    assert!(encode_to_vec(&Float32Bits((-0.0f32).to_bits())).is_empty());
    assert!(encode_to_vec(&Float64Bits((-0.0f64).to_bits())).is_empty());
    // NaN is kept bit for bit
    let nan = Float64Bits(f64::NAN.to_bits());
    let mut n = Float64Bits(0);
    decode(&mut n, &encode_to_vec(&nan)).unwrap();
    assert_eq!(n.0, f64::NAN.to_bits());
}
