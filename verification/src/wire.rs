//! The wire format: one message per frame, the body written in one of two
//! schemas that carry the same values.
//!
//! The binary schema is fixed-width and big-endian throughout: a request is
//! its start time in two's complement on eight bytes, its duration on eight
//! bytes and its identifier on sixteen; a response is its count on eight
//! bytes. The text schema is a single-line object with decimal numbers and
//! the identifier in hexadecimal:
//!
//! ```text
//! {"start_time":1700000000000,"duration_ms":2000,"id":"000102030405060708090a0b0c0d0e0f"}
//! {"max_jobs":3}
//! ```
//!
//! Decoding accepts exactly what encoding writes, byte for byte.

use vstd::prelude::*;
use crate::digits::{
    be_bytes, be_value, decimal, hex, is_digit, lemma_be_bytes_len, lemma_be_bytes_of_value,
    lemma_be_value_of_bytes,
    lemma_decimal, lemma_decimal_len_63, lemma_decimal_len_64, lemma_digit_run, lemma_pow256_values, lemma_unhex_of_hex,
    push_be, push_decimal, push_hex, read_be, read_decimal, read_hex, scan_decimal, unhex,
};
use crate::frame::{
    frame_of, lemma_frame_of_unframed, lemma_unframed_of_frame, push_all, same_bytes, unframe,
    unframed, ProtocolError, MAX_BODY_LEN,
};
use crate::{Request, Response};

verus! {

/// How the body of a frame is written.
#[derive(Debug, Clone, Copy, PartialEq, Eq, Structural)]
pub enum Schema {
    /// Fixed-width big-endian fields.
    Binary,
    /// A single-line object in text.
    Text,
}

/// `{"start_time":`
pub const REQUEST_OPEN: [u8; 14] = [123, 34, 115, 116, 97, 114, 116, 95, 116, 105, 109, 101, 34, 58];

/// `,"duration_ms":`
pub const REQUEST_DURATION: [u8; 15] = [
    44, 34, 100, 117, 114, 97, 116, 105, 111, 110, 95, 109, 115, 34, 58,
];

/// `,"id":"`
pub const REQUEST_ID: [u8; 7] = [44, 34, 105, 100, 34, 58, 34];

/// `"}`
pub const REQUEST_CLOSE: [u8; 2] = [34, 125];

/// `{"max_jobs":`
pub const RESPONSE_OPEN: [u8; 12] = [123, 34, 109, 97, 120, 95, 106, 111, 98, 115, 34, 58];

/// `}`
pub const RESPONSE_CLOSE: [u8; 1] = [125];

/// No frame that carries a request is longer than this.
pub const MAX_REQUEST_FRAME_LEN: u64 = 114;

/// No frame that carries a response is longer than this.
pub const MAX_RESPONSE_FRAME_LEN: u64 = 37;

/// The minus sign.
pub const MINUS: u8 = 45;

/// A signed 64-bit number as the unsigned one with the same bits.
pub open spec fn twos64(v: int) -> nat {
    if v >= 0 {
        v as nat
    } else {
        (v + 0x1_0000_0000_0000_0000) as nat
    }
}

/// The signed 64-bit number with the bits of `n`.
pub open spec fn from_twos64(n: nat) -> int {
    if n < 0x8000_0000_0000_0000 {
        n as int
    } else {
        n - 0x1_0000_0000_0000_0000
    }
}

/// A number in decimal, with a minus sign in front where it is negative.
pub open spec fn signed_decimal(v: int) -> Seq<u8> {
    if v < 0 {
        seq![MINUS] + decimal((-v) as nat)
    } else {
        decimal(v as nat)
    }
}

/// A request in the binary schema.
pub open spec fn binary_request(r: Request) -> Seq<u8> {
    be_bytes(twos64(r.start_time as int), 8) + be_bytes(r.duration as nat, 8) + be_bytes(
        r.id as nat,
        16,
    )
}

/// A response in the binary schema.
pub open spec fn binary_response(r: Response) -> Seq<u8> {
    be_bytes(r.max_jobs as nat, 8)
}

/// A request in the text schema.
pub open spec fn text_request(r: Request) -> Seq<u8> {
    REQUEST_OPEN@ + signed_decimal(r.start_time as int) + REQUEST_DURATION@ + decimal(
        r.duration as nat,
    ) + REQUEST_ID@ + hex(be_bytes(r.id as nat, 16)) + REQUEST_CLOSE@
}

/// A response in the text schema.
pub open spec fn text_response(r: Response) -> Seq<u8> {
    RESPONSE_OPEN@ + decimal(r.max_jobs as nat) + RESPONSE_CLOSE@
}

/// The body that carries `r` in `schema`.
pub open spec fn request_body(schema: Schema, r: Request) -> Seq<u8> {
    match schema {
        Schema::Binary => binary_request(r),
        Schema::Text => text_request(r),
    }
}

/// The body that carries `r` in `schema`.
pub open spec fn response_body(schema: Schema, r: Response) -> Seq<u8> {
    match schema {
        Schema::Binary => binary_response(r),
        Schema::Text => text_response(r),
    }
}

/// The request that `body` carries in `schema`, if it carries one.
pub open spec fn parsed_request(schema: Schema, body: Seq<u8>) -> Option<Request> {
    if exists|r: Request| #[trigger] request_body(schema, r) == body {
        Some(choose|r: Request| #[trigger] request_body(schema, r) == body)
    } else {
        None
    }
}

/// The response that `body` carries in `schema`, if it carries one.
pub open spec fn parsed_response(schema: Schema, body: Seq<u8>) -> Option<Response> {
    if exists|r: Response| #[trigger] response_body(schema, r) == body {
        Some(choose|r: Response| #[trigger] response_body(schema, r) == body)
    } else {
        None
    }
}

/// The frame that carries `r` in `schema`.
pub open spec fn request_frame(schema: Schema, r: Request) -> Seq<u8> {
    frame_of(request_body(schema, r))
}

/// The frame that carries `r` in `schema`.
pub open spec fn response_frame(schema: Schema, r: Response) -> Seq<u8> {
    frame_of(response_body(schema, r))
}

/// What decoding `bytes` as a request frame gives.
pub open spec fn decoded_request(schema: Schema, bytes: Seq<u8>) -> Result<Request, ProtocolError> {
    match unframed(bytes) {
        Err(e) => Err(e),
        Ok(body) => match parsed_request(schema, body) {
            Some(r) => Ok(r),
            None => Err(ProtocolError::Malformed),
        },
    }
}

/// What decoding `bytes` as a response frame gives.
pub open spec fn decoded_response(schema: Schema, bytes: Seq<u8>) -> Result<
    Response,
    ProtocolError,
> {
    match unframed(bytes) {
        Err(e) => Err(e),
        Ok(body) => match parsed_response(schema, body) {
            Some(r) => Ok(r),
            None => Err(ProtocolError::Malformed),
        },
    }
}

/// The values found in a body of the binary request layout.
spec fn scanned_binary_request(body: Seq<u8>) -> Option<Request> {
    if body.len() != 32 {
        None
    } else {
        Some(
            Request {
                start_time: from_twos64(be_value(body.subrange(0, 8))) as i64,
                duration: be_value(body.subrange(8, 16)) as u64,
                id: be_value(body.subrange(16, 32)) as u128,
            },
        )
    }
}

/// The values found in a body of the binary response layout.
spec fn scanned_binary_response(body: Seq<u8>) -> Option<Response> {
    if body.len() != 8 || be_value(body) > usize::MAX {
        None
    } else {
        Some(Response { max_jobs: be_value(body) as usize })
    }
}

/// The values found where a text request has its numbers.
spec fn scanned_text_request(body: Seq<u8>) -> Option<Request> {
    if body.len() <= 14 {
        None
    } else {
        let negative = body[14] == MINUS;
        let from: int = if negative {
            15
        } else {
            14
        };
        match scan_decimal(body, from, 0x8000_0000_0000_0000) {
            None => None,
            Some((a, e1)) => if body.len() - e1 < 15 {
                None
            } else {
                match scan_decimal(body, e1 + 15, 0xFFFF_FFFF_FFFF_FFFF) {
                    None => None,
                    Some((d, e2)) => if body.len() - e2 < 39 || (!negative && a
                        > 0x7FFF_FFFF_FFFF_FFFF) {
                        None
                    } else {
                        Some(
                            Request {
                                start_time: (if negative {
                                    -a
                                } else {
                                    a as int
                                }) as i64,
                                duration: d as u64,
                                id: be_value(unhex(body.subrange(e2 + 7, e2 + 39))) as u128,
                            },
                        )
                    },
                }
            },
        }
    }
}

/// The value found where a text response has its number.
spec fn scanned_text_response(body: Seq<u8>) -> Option<Response> {
    if body.len() < 12 {
        None
    } else {
        match scan_decimal(body, 12, 0xFFFF_FFFF_FFFF_FFFF) {
            None => None,
            Some((v, end)) => if v > usize::MAX {
                None
            } else {
                Some(Response { max_jobs: v as usize })
            },
        }
    }
}

/// The values found in a body, read by the layout of `schema`.
spec fn scanned_request(schema: Schema, body: Seq<u8>) -> Option<Request> {
    match schema {
        Schema::Binary => scanned_binary_request(body),
        Schema::Text => scanned_text_request(body),
    }
}

/// The value found in a body, read by the layout of `schema`.
spec fn scanned_response(schema: Schema, body: Seq<u8>) -> Option<Response> {
    match schema {
        Schema::Binary => scanned_binary_response(body),
        Schema::Text => scanned_text_response(body),
    }
}

/// A run of digits that `decimal` wrote is read back as the number.
proof fn lemma_scan_decimal_in(s: Seq<u8>, from: int, v: nat, limit: nat)
    requires
        0 <= from,
        from + decimal(v).len() <= s.len(),
        s.subrange(from, from + decimal(v).len()) == decimal(v),
        from + decimal(v).len() == s.len() || !is_digit(s[from + decimal(v).len()]),
        v <= limit,
    ensures
        scan_decimal(s, from, limit) == Some((v, from + decimal(v).len())),
{
    lemma_decimal(v);
    let n = decimal(v).len();
    assert forall|i: int| from <= i < from + n implies is_digit(#[trigger] s[i]) by {
        assert(s[i] == s.subrange(from, from + n)[i - from]);
    }
    lemma_digit_run(s, from, n);
}

proof fn lemma_scanned_binary_request(r: Request)
    ensures
        scanned_binary_request(binary_request(r)) == Some(r),
        binary_request(r).len() == 32,
{
    let a = be_bytes(twos64(r.start_time as int), 8);
    let b = be_bytes(r.duration as nat, 8);
    let c = be_bytes(r.id as nat, 16);
    let body = binary_request(r);
    lemma_pow256_values();
    lemma_be_bytes_len(twos64(r.start_time as int), 8);
    lemma_be_bytes_len(r.duration as nat, 8);
    lemma_be_bytes_len(r.id as nat, 16);
    lemma_be_value_of_bytes(twos64(r.start_time as int), 8);
    lemma_be_value_of_bytes(r.duration as nat, 8);
    lemma_be_value_of_bytes(r.id as nat, 16);
    assert(body.subrange(0, 8) == a);
    assert(body.subrange(8, 16) == b);
    assert(body.subrange(16, 32) == c);
}

proof fn lemma_scanned_binary_response(r: Response)
    ensures
        scanned_binary_response(binary_response(r)) == Some(r),
        binary_response(r).len() == 8,
{
    lemma_pow256_values();
    lemma_be_bytes_len(r.max_jobs as nat, 8);
    lemma_be_value_of_bytes(r.max_jobs as nat, 8);
}

proof fn lemma_scanned_text_request(r: Request)
    ensures
        scanned_text_request(text_request(r)) == Some(r),
        text_request(r).len() <= 110,
{
    let magnitude: nat = if r.start_time < 0 {
        (-r.start_time) as nat
    } else {
        r.start_time as nat
    };
    let sign: Seq<u8> = if r.start_time < 0 {
        seq![MINUS]
    } else {
        Seq::empty()
    };
    let d1 = decimal(magnitude);
    let d2 = decimal(r.duration as nat);
    let idb = be_bytes(r.id as nat, 16);
    let h = hex(idb);
    let body = text_request(r);
    lemma_decimal(magnitude);
    lemma_decimal(r.duration as nat);
    lemma_decimal_len_63(magnitude);
    lemma_decimal_len_64(r.duration as nat);
    lemma_be_bytes_len(r.id as nat, 16);
    lemma_pow256_values();
    lemma_be_value_of_bytes(r.id as nat, 16);
    lemma_unhex_of_hex(idb);
    assert(signed_decimal(r.start_time as int) == sign + d1);
    let p1: int = 14 + sign.len() as int;
    let e1: int = p1 + d1.len();
    let p2: int = e1 + 15;
    let e2: int = p2 + d2.len();
    let p3: int = e2 + 7;
    assert(body.len() == p3 + 34);
    assert(body == REQUEST_OPEN@ + (sign + d1) + REQUEST_DURATION@ + d2 + REQUEST_ID@ + h
        + REQUEST_CLOSE@);
    assert(body[14] == (sign + d1)[0]);
    assert(is_digit(d1[0]));
    assert(body.subrange(p1, e1) == d1);
    assert(body[e1] == REQUEST_DURATION@[0]);
    assert(body.subrange(p2, e2) == d2);
    assert(body[e2] == REQUEST_ID@[0]);
    assert(body.subrange(p3, p3 + 32) == h);
    lemma_scan_decimal_in(body, p1, magnitude, 0x8000_0000_0000_0000);
    lemma_scan_decimal_in(body, p2, r.duration as nat, 0xFFFF_FFFF_FFFF_FFFF);
}

proof fn lemma_scanned_text_response(r: Response)
    ensures
        scanned_text_response(text_response(r)) == Some(r),
        text_response(r).len() <= 33,
{
    let d = decimal(r.max_jobs as nat);
    let body = text_response(r);
    let end: int = 12 + d.len() as int;
    lemma_decimal(r.max_jobs as nat);
    lemma_decimal_len_64(r.max_jobs as nat);
    assert(body.subrange(12, end) == d);
    assert(body[end] == RESPONSE_CLOSE@[0]);
    lemma_scan_decimal_in(body, 12, r.max_jobs as nat, 0xFFFF_FFFF_FFFF_FFFF);
}

/// Reading the body that carries a request finds that request.
proof fn lemma_scanned_request(schema: Schema, r: Request)
    ensures
        scanned_request(schema, request_body(schema, r)) == Some(r),
        request_body(schema, r).len() <= 110,
{
    lemma_scanned_binary_request(r);
    lemma_scanned_text_request(r);
}

/// Reading the body that carries a response finds that response.
proof fn lemma_scanned_response(schema: Schema, r: Response)
    ensures
        scanned_response(schema, response_body(schema, r)) == Some(r),
        response_body(schema, r).len() <= 33,
{
    lemma_scanned_binary_response(r);
    lemma_scanned_text_response(r);
}

/// A body carries the request that reading it finds, provided that writing
/// that request gives the body again, and no request otherwise.
proof fn lemma_parsed_request(schema: Schema, body: Seq<u8>)
    ensures
        parsed_request(schema, body) == match scanned_request(schema, body) {
            Some(r) => if request_body(schema, r) == body {
                Some(r)
            } else {
                None
            },
            None => None,
        },
{
    assert forall|r: Request| #[trigger] request_body(schema, r) == body implies scanned_request(
        schema,
        body,
    ) == Some(r) by {
        lemma_scanned_request(schema, r);
    }
}

/// A body carries the response that reading it finds, provided that writing
/// that response gives the body again, and no response otherwise.
proof fn lemma_parsed_response(schema: Schema, body: Seq<u8>)
    ensures
        parsed_response(schema, body) == match scanned_response(schema, body) {
            Some(r) => if response_body(schema, r) == body {
                Some(r)
            } else {
                None
            },
            None => None,
        },
{
    assert forall|r: Response| #[trigger] response_body(schema, r) == body implies scanned_response(
        schema,
        body,
    ) == Some(r) by {
        lemma_scanned_response(schema, r);
    }
}

/// The body written for a request carries that request and no other.
pub proof fn lemma_parsed_request_of_body(schema: Schema, r: Request)
    ensures
        parsed_request(schema, request_body(schema, r)) == Some(r),
        request_body(schema, r).len() <= 110,
{
    lemma_scanned_request(schema, r);
    lemma_parsed_request(schema, request_body(schema, r));
}

/// The body written for a response carries that response and no other.
pub proof fn lemma_parsed_response_of_body(schema: Schema, r: Response)
    ensures
        parsed_response(schema, response_body(schema, r)) == Some(r),
        response_body(schema, r).len() <= 33,
{
    lemma_scanned_response(schema, r);
    lemma_parsed_response(schema, response_body(schema, r));
}

/// Round trip: decoding the frame that encodes a request gives the request
/// back, in either schema.
pub proof fn lemma_request_round_trip(schema: Schema, r: Request)
    ensures
        decoded_request(schema, request_frame(schema, r)) == Ok::<Request, ProtocolError>(r),
{
    lemma_parsed_request_of_body(schema, r);
    lemma_unframed_of_frame(request_body(schema, r));
}

/// A frame that carries a request stays within `MAX_REQUEST_FRAME_LEN`.
pub proof fn lemma_request_frame_len(schema: Schema, r: Request)
    ensures
        request_frame(schema, r).len() == 4 + request_body(schema, r).len(),
        request_frame(schema, r).len() <= MAX_REQUEST_FRAME_LEN,
{
    lemma_parsed_request_of_body(schema, r);
    lemma_be_bytes_len(request_body(schema, r).len(), 4);
}

/// A frame that carries a response stays within `MAX_RESPONSE_FRAME_LEN`.
pub proof fn lemma_response_frame_len(schema: Schema, r: Response)
    ensures
        response_frame(schema, r).len() == 4 + response_body(schema, r).len(),
        response_frame(schema, r).len() <= MAX_RESPONSE_FRAME_LEN,
{
    lemma_parsed_response_of_body(schema, r);
    lemma_be_bytes_len(response_body(schema, r).len(), 4);
}

/// Round trip: decoding the frame that encodes a response gives the response
/// back, in either schema.
pub proof fn lemma_response_round_trip(schema: Schema, r: Response)
    ensures
        decoded_response(schema, response_frame(schema, r)) == Ok::<Response, ProtocolError>(r),
{
    lemma_parsed_response_of_body(schema, r);
    lemma_unframed_of_frame(response_body(schema, r));
}

/// Only the frame that encodes a request decodes to it.
pub proof fn lemma_decoded_request_is_encoded(schema: Schema, bytes: Seq<u8>, r: Request)
    requires
        decoded_request(schema, bytes) == Ok::<Request, ProtocolError>(r),
    ensures
        bytes == request_frame(schema, r),
{
    lemma_frame_of_unframed(bytes);
}

/// Only the frame that encodes a response decodes to it.
pub proof fn lemma_decoded_response_is_encoded(schema: Schema, bytes: Seq<u8>, r: Response)
    requires
        decoded_response(schema, bytes) == Ok::<Response, ProtocolError>(r),
    ensures
        bytes == response_frame(schema, r),
{
    lemma_frame_of_unframed(bytes);
}

/// Writes the body that carries `request` in `schema`.
pub fn write_request(schema: Schema, request: &Request) -> (body: Vec<u8>)
    ensures
        body@ == request_body(schema, *request),
        body@.len() <= 110,
{
    proof {
        lemma_scanned_request(schema, *request);
    }
    let mut body: Vec<u8> = Vec::new();
    match schema {
        Schema::Binary => {
            let bits: u128 = if request.start_time >= 0 {
                request.start_time as u128
            } else {
                (request.start_time as i128 + 0x1_0000_0000_0000_0000i128) as u128
            };
            push_be(&mut body, bits, 8);
            push_be(&mut body, request.duration as u128, 8);
            push_be(&mut body, request.id, 16);
            proof {
                assert(Seq::<u8>::empty() + be_bytes(bits as nat, 8) == be_bytes(bits as nat, 8));
            }
        },
        Schema::Text => {
            push_all(&mut body, &REQUEST_OPEN);
            if request.start_time < 0 {
                body.push(MINUS);
                push_decimal(&mut body, (-(request.start_time as i128)) as u128);
                proof {
                    let digits = decimal((-request.start_time) as nat);
                    assert(REQUEST_OPEN@.push(MINUS) + digits == REQUEST_OPEN@ + (seq![MINUS]
                        + digits));
                }
            } else {
                push_decimal(&mut body, request.start_time as u128);
            }
            proof {
                assert(Seq::<u8>::empty() + REQUEST_OPEN@ == REQUEST_OPEN@);
                assert(body@ == REQUEST_OPEN@ + signed_decimal(request.start_time as int));
            }
            push_all(&mut body, &REQUEST_DURATION);
            push_decimal(&mut body, request.duration as u128);
            push_all(&mut body, &REQUEST_ID);
            let mut id_bytes: Vec<u8> = Vec::new();
            push_be(&mut id_bytes, request.id, 16);
            proof {
                assert(Seq::<u8>::empty() + be_bytes(request.id as nat, 16) == be_bytes(
                    request.id as nat,
                    16,
                ));
            }
            push_hex(&mut body, id_bytes.as_slice());
            push_all(&mut body, &REQUEST_CLOSE);
        },
    }
    body
}

/// Writes the body that carries `response` in `schema`.
pub fn write_response(schema: Schema, response: &Response) -> (body: Vec<u8>)
    ensures
        body@ == response_body(schema, *response),
        body@.len() <= 33,
{
    proof {
        lemma_scanned_response(schema, *response);
    }
    let mut body: Vec<u8> = Vec::new();
    match schema {
        Schema::Binary => {
            push_be(&mut body, response.max_jobs as u128, 8);
            proof {
                assert(Seq::<u8>::empty() + be_bytes(response.max_jobs as nat, 8) == be_bytes(
                    response.max_jobs as nat,
                    8,
                ));
            }
        },
        Schema::Text => {
            push_all(&mut body, &RESPONSE_OPEN);
            push_decimal(&mut body, response.max_jobs as u128);
            push_all(&mut body, &RESPONSE_CLOSE);
            proof {
                assert(Seq::<u8>::empty() + RESPONSE_OPEN@ == RESPONSE_OPEN@);
            }
        },
    }
    body
}

/// Reads the values of a request from a body, by the layout of `schema`.
fn scan_request(schema: Schema, body: &[u8]) -> (r: Option<Request>)
    ensures
        r == scanned_request(schema, body@),
{
    match schema {
        Schema::Binary => {
            if body.len() != 32 {
                return None;
            }
            let bits = read_be(body, 0, 8);
            let duration = read_be(body, 8, 8);
            let id = read_be(body, 16, 16);
            proof {
                lemma_pow256_values();
                lemma_be_bytes_of_value(body@.subrange(0, 8));
                lemma_be_bytes_of_value(body@.subrange(8, 16));
                lemma_be_bytes_of_value(body@.subrange(16, 32));
            }
            let start_time: i64 = if bits < 0x8000_0000_0000_0000 {
                bits as i64
            } else {
                (bits as i128 - 0x1_0000_0000_0000_0000i128) as i64
            };
            Some(Request { start_time, duration: duration as u64, id })
        },
        Schema::Text => {
            if body.len() <= 14 {
                return None;
            }
            let negative = body[14] == MINUS;
            let from: usize = if negative {
                15
            } else {
                14
            };
            match read_decimal(body, from, 0x8000_0000_0000_0000) {
                None => None,
                Some((magnitude, e1)) => {
                    if body.len() - e1 < 15 {
                        return None;
                    }
                    match read_decimal(body, e1 + 15, 0xFFFF_FFFF_FFFF_FFFF) {
                        None => None,
                        Some((duration, e2)) => {
                            if body.len() - e2 < 39 || (!negative && magnitude
                                > 0x7FFF_FFFF_FFFF_FFFF) {
                                return None;
                            }
                            let id_bytes = read_hex(body, e2 + 7, 16);
                            let id = read_be(id_bytes.as_slice(), 0, 16);
                            proof {
                                assert(id_bytes@.subrange(0, 16) == id_bytes@);
                                lemma_pow256_values();
                                lemma_be_bytes_of_value(id_bytes@);
                            }
                            let start_time: i64 = if negative {
                                (-(magnitude as i128)) as i64
                            } else {
                                magnitude as i64
                            };
                            Some(Request { start_time, duration, id })
                        },
                    }
                },
            }
        },
    }
}

/// Reads the value of a response from a body, by the layout of `schema`.
fn scan_response(schema: Schema, body: &[u8]) -> (r: Option<Response>)
    ensures
        r == scanned_response(schema, body@),
{
    let found: Option<u64> = match schema {
        Schema::Binary => {
            if body.len() != 8 {
                None
            } else {
                let v = read_be(body, 0, 8);
                proof {
                    lemma_pow256_values();
                    lemma_be_bytes_of_value(body@);
                    assert(body@.subrange(0, 8) == body@);
                }
                Some(v as u64)
            }
        },
        Schema::Text => {
            if body.len() < 12 {
                None
            } else {
                match read_decimal(body, 12, 0xFFFF_FFFF_FFFF_FFFF) {
                    None => None,
                    Some((v, end)) => Some(v),
                }
            }
        },
    };
    match found {
        None => None,
        Some(v) => if v > usize::MAX as u64 {
            None
        } else {
            Some(Response { max_jobs: v as usize })
        },
    }
}

/// Reads the request that `body` carries in `schema`. A body is accepted
/// only if it is, byte for byte, what `write_request` writes for the request
/// read from it.
pub fn parse_request(schema: Schema, body: &[u8]) -> (r: Option<Request>)
    ensures
        r == parsed_request(schema, body@),
{
    proof {
        lemma_parsed_request(schema, body@);
    }
    match scan_request(schema, body) {
        None => None,
        Some(request) => {
            let written = write_request(schema, &request);
            if same_bytes(written.as_slice(), body) {
                Some(request)
            } else {
                None
            }
        },
    }
}

/// Reads the response that `body` carries in `schema`. A body is accepted
/// only if it is, byte for byte, what `write_response` writes for the
/// response read from it.
pub fn parse_response(schema: Schema, body: &[u8]) -> (r: Option<Response>)
    ensures
        r == parsed_response(schema, body@),
{
    proof {
        lemma_parsed_response(schema, body@);
    }
    match scan_response(schema, body) {
        None => None,
        Some(response) => {
            let written = write_response(schema, &response);
            if same_bytes(written.as_slice(), body) {
                Some(response)
            } else {
                None
            }
        },
    }
}

/// Encodes `request` as one frame in `schema`.
pub fn encode_request(schema: Schema, request: &Request) -> (bytes: Vec<u8>)
    ensures
        bytes@ == request_frame(schema, *request),
        bytes@.len() <= MAX_REQUEST_FRAME_LEN,
{
    proof {
        lemma_request_frame_len(schema, *request);
    }
    let body = write_request(schema, request);
    let mut bytes: Vec<u8> = Vec::new();
    push_be(&mut bytes, body.len() as u128, 4);
    push_all(&mut bytes, body.as_slice());
    proof {
        assert(Seq::<u8>::empty() + be_bytes(body@.len(), 4) == be_bytes(body@.len(), 4));
    }
    bytes
}

/// Encodes `response` as one frame in `schema`.
pub fn encode_response(schema: Schema, response: &Response) -> (bytes: Vec<u8>)
    ensures
        bytes@ == response_frame(schema, *response),
        bytes@.len() <= MAX_RESPONSE_FRAME_LEN,
{
    proof {
        lemma_response_frame_len(schema, *response);
    }
    let body = write_response(schema, response);
    let mut bytes: Vec<u8> = Vec::new();
    push_be(&mut bytes, body.len() as u128, 4);
    push_all(&mut bytes, body.as_slice());
    proof {
        assert(Seq::<u8>::empty() + be_bytes(body@.len(), 4) == be_bytes(body@.len(), 4));
    }
    bytes
}

/// Decodes one request frame in `schema`.
///
/// Fails with `Truncated` where the bytes end before the frame does, with
/// `LengthMismatch` where bytes follow the frame, and with `Malformed` where
/// the body is not a request in `schema`.
pub fn decode_request(schema: Schema, bytes: &[u8]) -> (r: Result<Request, ProtocolError>)
    ensures
        r == decoded_request(schema, bytes@),
{
    match unframe(bytes) {
        Err(e) => Err(e),
        Ok(body) => match parse_request(schema, body) {
            Some(request) => Ok(request),
            None => Err(ProtocolError::Malformed),
        },
    }
}

/// Decodes one response frame in `schema`.
///
/// Fails with `Truncated` where the bytes end before the frame does, with
/// `LengthMismatch` where bytes follow the frame, and with `Malformed` where
/// the body is not a response in `schema`.
pub fn decode_response(schema: Schema, bytes: &[u8]) -> (r: Result<Response, ProtocolError>)
    ensures
        r == decoded_response(schema, bytes@),
{
    match unframe(bytes) {
        Err(e) => Err(e),
        Ok(body) => match parse_response(schema, body) {
            Some(response) => Ok(response),
            None => Err(ProtocolError::Malformed),
        },
    }
}

} // verus!
