//! The message decoder: from accumulated wire bytes to a structured
//! message, deciding the body framing and running the body decoder.
//!
//! The decoder consumes exactly the bytes of one message: the returned
//! position is where the next message on a reused connection begins, and
//! no byte after it is touched.

use vstd::prelude::*;

use crate::bytes::{copy_range, crlfcrlf, find_boundary_in, find_pat, crlf};
use crate::chunked::{chunked_spec, decode_chunked};
use crate::encode::date_name;
use crate::error::HttpError;
use crate::framing::{framing_of, framing_spec, Framing};
use crate::headers::{has_name, FieldsView, HeaderSet};
use crate::parse::{
    http11, parse_request_head, parse_request_head_range, parse_request_line,
    parse_response_head, parse_response_head_range,
};

verus! {

/// A decoded request.
pub struct Request {
    pub method: Vec<u8>,
    pub target: Vec<u8>,
    pub headers: HeaderSet,
    pub body: Vec<u8>,
    /// The trailer fields of a chunked body; `None` for other framings.
    pub trailers: Option<HeaderSet>,
}

/// A decoded response.
pub struct Response {
    pub status: u16,
    pub reason: Vec<u8>,
    pub headers: HeaderSet,
    pub body: Vec<u8>,
    /// The trailer fields of a chunked body; `None` for other framings.
    pub trailers: Option<HeaderSet>,
}

/// What a byte sequence decodes to as a request: method, target, fields,
/// body bytes, trailers and how many input bytes the message took.
pub open spec fn decode_request_spec(input: Seq<u8>) -> Result<
    (Seq<u8>, Seq<u8>, FieldsView, Seq<u8>, Option<FieldsView>, int),
    HttpError,
> {
    match find_pat(input, crlfcrlf()) {
        None => Err(HttpError::ConnectionClosed),
        Some(b) => if !(0 <= b && b + 4 <= input.len()) {
            Err(HttpError::ConnectionClosed)
        } else {
            match parse_request_head(input.take(b + 4)) {
                Err(e) => Err(e),
                Ok(mtf) => match framing_spec(mtf.2) {
                    Err(e) => Err(e),
                    Ok(Framing::Empty) => Ok((mtf.0, mtf.1, mtf.2, Seq::empty(), None, b + 4)),
                    Ok(Framing::Fixed(n)) => if input.len() >= b + 4 + n {
                        Ok((mtf.0, mtf.1, mtf.2, input.subrange(b + 4, b + 4 + n), None, b + 4 + n))
                    } else {
                        Err(HttpError::ConnectionClosed)
                    },
                    Ok(Framing::Chunked) => match chunked_spec(input.skip(b + 4)) {
                        Err(e) => Err(e),
                        Ok(ptc) => Ok((mtf.0, mtf.1, mtf.2, ptc.0, Some(ptc.1), b + 4 + ptc.2)),
                    },
                },
            }
        },
    }
}

/// What a byte sequence decodes to as a response.  A response without a
/// `date` header gets one synthesised from the caller-supplied date — a
/// decoder-side enrichment, not wire fidelity.
pub open spec fn decode_response_spec(input: Seq<u8>, date: Seq<u8>) -> Result<
    (int, Seq<u8>, FieldsView, Seq<u8>, Option<FieldsView>, int),
    HttpError,
> {
    match find_pat(input, crlfcrlf()) {
        None => Err(HttpError::ConnectionClosed),
        Some(b) => if !(0 <= b && b + 4 <= input.len()) {
            Err(HttpError::ConnectionClosed)
        } else {
            match parse_response_head(input.take(b + 4)) {
                Err(e) => Err(e),
                Ok(srf) => {
                    let fields_out = if has_name(srf.2, date_name()) {
                        srf.2
                    } else {
                        srf.2.push((date_name(), date))
                    };
                    match framing_spec(srf.2) {
                        Err(e) => Err(e),
                        Ok(Framing::Empty) => Ok((srf.0, srf.1, fields_out, Seq::empty(), None, b + 4)),
                        Ok(Framing::Fixed(n)) => if input.len() >= b + 4 + n {
                            Ok(
                                (
                                    srf.0,
                                    srf.1,
                                    fields_out,
                                    input.subrange(b + 4, b + 4 + n),
                                    None,
                                    b + 4 + n,
                                ),
                            )
                        } else {
                            Err(HttpError::ConnectionClosed)
                        },
                        Ok(Framing::Chunked) => match chunked_spec(input.skip(b + 4)) {
                            Err(e) => Err(e),
                            Ok(ptc) => Ok((srf.0, srf.1, fields_out, ptc.0, Some(ptc.1), b + 4 + ptc.2)),
                        },
                    }
                },
            }
        },
    }
}

/// The view of optional trailers.
pub open spec fn trailers_view(t: Option<HeaderSet>) -> Option<FieldsView> {
    match t {
        Some(hs) => Some(hs@),
        None => None,
    }
}

/// Decode one request from the accumulated input.  On success the returned
/// position is just past the message: the bytes after it belong to the
/// next message on the connection and are not touched.
pub fn decode_request(input: &Vec<u8>) -> (r: Result<(Request, usize), HttpError>)
    ensures
        match r {
            Ok(p) => p.1 <= input@.len() && decode_request_spec(input@) == Ok::<
                (Seq<u8>, Seq<u8>, FieldsView, Seq<u8>, Option<FieldsView>, int),
                HttpError,
            >((p.0.method@, p.0.target@, p.0.headers@, p.0.body@, trailers_view(p.0.trailers), p.1 as int)),
            Err(e) => decode_request_spec(input@) == Err::<
                (Seq<u8>, Seq<u8>, FieldsView, Seq<u8>, Option<FieldsView>, int),
                HttpError,
            >(e),
        },
{
    proof {
        assert(input@.subrange(0, input@.len() as int) =~= input@);
    }
    let b = match find_boundary_in(input, 0, input.len()) {
        None => {
            return Err(HttpError::ConnectionClosed);
        },
        Some(b) => b,
    };
    proof {
        crate::bytes::lemma_find_boundary_char(input@);
        assert(input@.take(b + 4) =~= input@.subrange(0, b + 4));
    }
    let head_end = b + 4;
    let (method, target, headers) = match parse_request_head_range(input, head_end) {
        Err(e) => {
            return Err(e);
        },
        Ok(p) => p,
    };
    match framing_of(&headers) {
        Err(e) => Err(e),
        Ok(Framing::Empty) => {
            let body: Vec<u8> = Vec::new();
            proof {
                assert(body@ =~= Seq::<u8>::empty());
            }
            Ok((Request { method, target, headers, body, trailers: None }, head_end))
        },
        Ok(Framing::Fixed(n)) => {
            if input.len() - head_end < n {
                return Err(HttpError::ConnectionClosed);
            }
            let body = copy_range(input, head_end, head_end + n);
            Ok((Request { method, target, headers, body, trailers: None }, head_end + n))
        },
        Ok(Framing::Chunked) => {
            match decode_chunked(input, head_end) {
                Err(e) => Err(e),
                Ok(p) => Ok(
                    (
                        Request {
                            method,
                            target,
                            headers,
                            body: p.0,
                            trailers: Some(p.1),
                        },
                        p.2,
                    ),
                ),
            }
        },
    }
}

/// Decode one response from the accumulated input, synthesising a `date`
/// header from `date` when the peer sent none.
pub fn decode_response(input: &Vec<u8>, date: Vec<u8>) -> (r: Result<
    (Response, usize),
    HttpError,
>)
    ensures
        match r {
            Ok(p) => p.1 <= input@.len() && decode_response_spec(input@, date@) == Ok::<
                (int, Seq<u8>, FieldsView, Seq<u8>, Option<FieldsView>, int),
                HttpError,
            >(
                (
                    p.0.status as int,
                    p.0.reason@,
                    p.0.headers@,
                    p.0.body@,
                    trailers_view(p.0.trailers),
                    p.1 as int,
                ),
            ),
            Err(e) => decode_response_spec(input@, date@) == Err::<
                (int, Seq<u8>, FieldsView, Seq<u8>, Option<FieldsView>, int),
                HttpError,
            >(e),
        },
{
    proof {
        assert(input@.subrange(0, input@.len() as int) =~= input@);
    }
    let b = match find_boundary_in(input, 0, input.len()) {
        None => {
            return Err(HttpError::ConnectionClosed);
        },
        Some(b) => b,
    };
    proof {
        crate::bytes::lemma_find_boundary_char(input@);
        assert(input@.take(b + 4) =~= input@.subrange(0, b + 4));
    }
    let head_end = b + 4;
    let (status, reason, mut headers) = match parse_response_head_range(input, head_end) {
        Err(e) => {
            return Err(e);
        },
        Ok(p) => p,
    };
    let framing = framing_of(&headers);
    let dn = crate::encode::date_bytes();
    if !headers.contains_name(&dn) {
        headers.push(dn, date);
    }
    match framing {
        Err(e) => Err(e),
        Ok(Framing::Empty) => {
            let body: Vec<u8> = Vec::new();
            proof {
                assert(body@ =~= Seq::<u8>::empty());
            }
            Ok((Response { status, reason, headers, body, trailers: None }, head_end))
        },
        Ok(Framing::Fixed(n)) => {
            if input.len() - head_end < n {
                return Err(HttpError::ConnectionClosed);
            }
            let body = copy_range(input, head_end, head_end + n);
            Ok((Response { status, reason, headers, body, trailers: None }, head_end + n))
        },
        Ok(Framing::Chunked) => {
            match decode_chunked(input, head_end) {
                Err(e) => Err(e),
                Ok(p) => Ok(
                    (
                        Response {
                            status,
                            reason,
                            headers,
                            body: p.0,
                            trailers: Some(p.1),
                        },
                        p.2,
                    ),
                ),
            }
        },
    }
}

/// Truncated input: where the accumulated bytes hold no head boundary at
/// all, decoding reports the closed connection rather than a message.
pub proof fn lemma_truncated_input(input: Seq<u8>)
    requires
        find_pat(input, crlfcrlf()) == None::<int>,
    ensures
        decode_request_spec(input) == Err::<
            (Seq<u8>, Seq<u8>, FieldsView, Seq<u8>, Option<FieldsView>, int),
            HttpError,
        >(HttpError::ConnectionClosed),
        forall|date: Seq<u8>|
            decode_response_spec(input, date) == Err::<
                (int, Seq<u8>, FieldsView, Seq<u8>, Option<FieldsView>, int),
                HttpError,
            >(HttpError::ConnectionClosed),
{
}

/// Any version token other than `HTTP/1.1` in an otherwise tokenisable
/// request line fails the decode with `UnsupportedVersion`.
pub proof fn lemma_unsupported_version(input: Seq<u8>, b: int, i: int)
    requires
        find_pat(input, crlfcrlf()) == Some(b),
        0 <= b && b + 4 <= input.len(),
        find_pat(input.take(b + 4), crlf()) == Some(i),
        0 <= i && i + 2 <= b + 4,
        parse_request_line(input.take(b + 4).take(i)) is Some,
        parse_request_line(input.take(b + 4).take(i))->Some_0.2 != http11(),
    ensures
        decode_request_spec(input) == Err::<
            (Seq<u8>, Seq<u8>, FieldsView, Seq<u8>, Option<FieldsView>, int),
            HttpError,
        >(HttpError::UnsupportedVersion),
{
}

/// A header set carrying both `content-length` and `transfer-encoding`
/// fails the decode with `AmbiguousFraming`, whatever their values.
pub proof fn lemma_decode_ambiguous(input: Seq<u8>, b: int)
    requires
        find_pat(input, crlfcrlf()) == Some(b),
        0 <= b && b + 4 <= input.len(),
        parse_request_head(input.take(b + 4)) is Ok,
        has_name(parse_request_head(input.take(b + 4))->Ok_0.2, crate::framing::content_length_name()),
        has_name(
            parse_request_head(input.take(b + 4))->Ok_0.2,
            crate::framing::transfer_encoding_name(),
        ),
    ensures
        decode_request_spec(input) == Err::<
            (Seq<u8>, Seq<u8>, FieldsView, Seq<u8>, Option<FieldsView>, int),
            HttpError,
        >(HttpError::AmbiguousFraming),
{
}

} // verus!
