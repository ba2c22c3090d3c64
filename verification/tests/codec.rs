use h1_codec::chunked::decode_chunked;
use h1_codec::decode::{decode_request, decode_response};
use h1_codec::encode::{encode_request, encode_response, OutBody, OutRequest, OutResponse};
use h1_codec::error::HttpError;
use h1_codec::framing::{framing_of, Framing};
use h1_codec::headers::HeaderSet;

fn headers(pairs: &[(&str, &str)]) -> HeaderSet {
    let mut hs = HeaderSet::new();
    for (n, v) in pairs {
        hs.push(n.as_bytes().to_vec(), v.as_bytes().to_vec());
    }
    hs
}

fn request(pairs: &[(&str, &str)], body: &[u8]) -> OutRequest {
    OutRequest {
        method: b"GET".to_vec(),
        target: b"/index.html".to_vec(),
        host: Some(b"example.com".to_vec()),
        headers: headers(pairs),
        body: OutBody::Known(body.to_vec()),
    }
}

fn drain(enc: &mut h1_codec::encode::Encoder, size: usize) -> Vec<u8> {
    let mut out = Vec::new();
    loop {
        let chunk = enc.read(size);
        if chunk.is_empty() {
            return out;
        }
        out.extend_from_slice(&chunk);
    }
}

#[test]
fn chunked_round_trip() {
    let input = b"4\r\nWiki\r\n5\r\npedia\r\n0\r\n\r\n".to_vec();
    let (payload, trailers, consumed) = decode_chunked(&input, 0).unwrap();
    assert_eq!(payload, b"Wikipedia".to_vec());
    assert_eq!(trailers.len(), 0);
    assert_eq!(consumed, input.len());
}

#[test]
fn trailer_delivery() {
    let input = b"3\r\nfoo\r\n0\r\nX-Checksum: abc\r\n\r\n".to_vec();
    let (payload, trailers, consumed) = decode_chunked(&input, 0).unwrap();
    assert_eq!(payload, b"foo".to_vec());
    assert_eq!(trailers.len(), 1);
    let name = b"X-Checksum".to_vec();
    assert_eq!(trailers.last_of(&name).unwrap(), &b"abc".to_vec());
    assert_eq!(consumed, input.len());
}

#[test]
fn malformed_chunk_size() {
    let input = b"zz\r\nWiki\r\n0\r\n\r\n".to_vec();
    assert!(matches!(decode_chunked(&input, 0), Err(HttpError::MalformedChunk)));
}

#[test]
fn chunk_missing_terminator() {
    let input = b"4\r\nWikiXX0\r\n\r\n".to_vec();
    assert!(matches!(decode_chunked(&input, 0), Err(HttpError::MalformedChunk)));
}

#[test]
fn chunk_truncated() {
    let input = b"4\r\nWi".to_vec();
    assert!(matches!(decode_chunked(&input, 0), Err(HttpError::ConnectionClosed)));
}

#[test]
fn chunk_extensions_discarded() {
    let input = b"4;name=value\r\nWiki\r\n0\r\n\r\n".to_vec();
    let (payload, trailers, _) = decode_chunked(&input, 0).unwrap();
    assert_eq!(payload, b"Wiki".to_vec());
    assert_eq!(trailers.len(), 0);
}

#[test]
fn chunked_leaves_next_message_alone() {
    let input = b"1\r\nA\r\n0\r\n\r\nGET / HTTP/1.1\r\n\r\n".to_vec();
    let (payload, _, consumed) = decode_chunked(&input, 0).unwrap();
    assert_eq!(payload, b"A".to_vec());
    assert_eq!(&input[consumed..], b"GET / HTTP/1.1\r\n\r\n");
}

#[test]
fn ambiguous_framing() {
    let hs = headers(&[("content-length", "3"), ("transfer-encoding", "chunked")]);
    assert_eq!(framing_of(&hs), Err(HttpError::AmbiguousFraming));
    // The values agreeing with each other changes nothing.
    let hs = headers(&[("Content-Length", "0"), ("Transfer-Encoding", "identity")]);
    assert_eq!(framing_of(&hs), Err(HttpError::AmbiguousFraming));
}

#[test]
fn ambiguous_framing_decode() {
    let input =
        b"POST / HTTP/1.1\r\ncontent-length: 3\r\ntransfer-encoding: chunked\r\n\r\nabc".to_vec();
    assert!(matches!(decode_request(&input), Err(HttpError::AmbiguousFraming)));
}

#[test]
fn framing_last_value_wins() {
    let hs = headers(&[("transfer-encoding", "identity"), ("transfer-encoding", "chunked")]);
    assert_eq!(framing_of(&hs), Ok(Framing::Chunked));
    let hs = headers(&[("transfer-encoding", "chunked"), ("transfer-encoding", "identity")]);
    assert_eq!(framing_of(&hs), Ok(Framing::Empty));
    let hs = headers(&[("content-length", "5"), ("content-length", "7")]);
    assert_eq!(framing_of(&hs), Ok(Framing::Fixed(7)));
}

#[test]
fn framing_bad_content_length() {
    let hs = headers(&[("content-length", "12a")]);
    assert_eq!(framing_of(&hs), Err(HttpError::MalformedHead));
    let hs = headers(&[("content-length", "")]);
    assert_eq!(framing_of(&hs), Err(HttpError::MalformedHead));
}

#[test]
fn framing_case_insensitive_names() {
    let hs = headers(&[("Content-LENGTH", "11")]);
    assert_eq!(framing_of(&hs), Ok(Framing::Fixed(11)));
}

#[test]
fn unsupported_version_request() {
    let input = b"GET / HTTP/1.0\r\nhost: a\r\n\r\n".to_vec();
    assert!(matches!(decode_request(&input), Err(HttpError::UnsupportedVersion)));
}

#[test]
fn unsupported_version_response() {
    let input = b"HTTP/2.0 200 OK\r\n\r\n".to_vec();
    let date = b"Thu, 01 Jan 1970 00:00:00 GMT".to_vec();
    assert!(matches!(decode_response(&input, date), Err(HttpError::UnsupportedVersion)));
}

#[test]
fn truncated_input() {
    let input = b"GET / HTTP/1.1\r\nhost: exam".to_vec();
    assert!(matches!(decode_request(&input), Err(HttpError::ConnectionClosed)));
    let empty = Vec::new();
    assert!(matches!(decode_request(&empty), Err(HttpError::ConnectionClosed)));
}

#[test]
fn fixed_body_truncated() {
    let input = b"POST / HTTP/1.1\r\ncontent-length: 10\r\n\r\nabc".to_vec();
    assert!(matches!(decode_request(&input), Err(HttpError::ConnectionClosed)));
}

#[test]
fn malformed_head() {
    let input = b"NOSPACES\r\n\r\n".to_vec();
    assert!(matches!(decode_request(&input), Err(HttpError::MalformedHead)));
}

#[test]
fn decode_fixed_request() {
    let input = b"POST /submit HTTP/1.1\r\nhost: example.com\r\ncontent-length: 5\r\n\r\nhelloGET".to_vec();
    let (req, consumed) = decode_request(&input).unwrap();
    assert_eq!(req.method, b"POST".to_vec());
    assert_eq!(req.target, b"/submit".to_vec());
    assert_eq!(req.body, b"hello".to_vec());
    assert!(req.trailers.is_none());
    // The next message's bytes are untouched.
    assert_eq!(&input[consumed..], b"GET");
}

#[test]
fn decode_chunked_request() {
    let input = b"POST / HTTP/1.1\r\ntransfer-encoding: chunked\r\n\r\n4\r\nWiki\r\n5\r\npedia\r\n0\r\n\r\n"
        .to_vec();
    let (req, consumed) = decode_request(&input).unwrap();
    assert_eq!(req.body, b"Wikipedia".to_vec());
    assert_eq!(req.trailers.unwrap().len(), 0);
    assert_eq!(consumed, input.len());
}

#[test]
fn decode_response_synthesises_date() {
    let input = b"HTTP/1.1 200 OK\r\ncontent-length: 2\r\n\r\nhi".to_vec();
    let date = b"Thu, 01 Jan 1970 00:00:00 GMT".to_vec();
    let (res, consumed) = decode_response(&input, date.clone()).unwrap();
    assert_eq!(res.status, 200);
    assert_eq!(res.reason, b"OK".to_vec());
    assert_eq!(res.body, b"hi".to_vec());
    assert_eq!(res.headers.last_of(&b"date".to_vec()).unwrap(), &date);
    assert_eq!(consumed, input.len());
}

#[test]
fn decode_response_keeps_peer_date() {
    let input = b"HTTP/1.1 204 No Content\r\ndate: Mon, 02 Feb 1970 00:00:00 GMT\r\n\r\n".to_vec();
    let date = b"Thu, 01 Jan 1970 00:00:00 GMT".to_vec();
    let (res, _) = decode_response(&input, date).unwrap();
    assert_eq!(
        res.headers.last_of(&b"DATE".to_vec()).unwrap(),
        &b"Mon, 02 Feb 1970 00:00:00 GMT".to_vec()
    );
}

#[test]
fn encode_missing_host() {
    let mut req = request(&[], b"");
    req.host = None;
    let date = b"Thu, 01 Jan 1970 00:00:00 GMT".to_vec();
    assert!(matches!(encode_request(req, date), Err(HttpError::InvalidInput)));
}

#[test]
fn encode_unknown_length_body() {
    let mut req = request(&[], b"");
    req.body = OutBody::Unknown;
    let date = b"Thu, 01 Jan 1970 00:00:00 GMT".to_vec();
    assert!(matches!(encode_request(req, date), Err(HttpError::InvalidInput)));
}

#[test]
fn encode_request_bytes() {
    let req = request(&[("accept", "text/html")], b"hello");
    let date = b"Thu, 01 Jan 1970 00:00:00 GMT".to_vec();
    let mut enc = encode_request(req, date).unwrap();
    let out = drain(&mut enc, 4096);
    let expected = b"GET /index.html HTTP/1.1\r\nhost: example.com\r\ncontent-length: 5\r\ndate: Thu, 01 Jan 1970 00:00:00 GMT\r\naccept: text/html\r\n\r\nhello".to_vec();
    assert_eq!(out, expected);
}

#[test]
fn encode_response_bytes() {
    let res = OutResponse {
        status: 404,
        reason: b"Not Found".to_vec(),
        headers: headers(&[]),
        body: OutBody::Known(b"gone".to_vec()),
    };
    let date = b"Thu, 01 Jan 1970 00:00:00 GMT".to_vec();
    let mut enc = encode_response(res, date).unwrap();
    let out = drain(&mut enc, 9);
    let expected = b"HTTP/1.1 404 Not Found\r\ncontent-length: 4\r\ndate: Thu, 01 Jan 1970 00:00:00 GMT\r\n\r\ngone".to_vec();
    assert_eq!(out, expected);
}

#[test]
fn buffer_size_independence() {
    let date = b"Thu, 01 Jan 1970 00:00:00 GMT".to_vec();
    let mut outputs = Vec::new();
    for size in [1usize, 2, 7, 4096] {
        let req = request(&[("accept", "*/*")], b"some body bytes");
        let mut enc = encode_request(req, date.clone()).unwrap();
        outputs.push(drain(&mut enc, size));
    }
    assert_eq!(outputs[0], outputs[1]);
    assert_eq!(outputs[0], outputs[2]);
    assert_eq!(outputs[0], outputs[3]);
}

#[test]
fn encoder_eof_is_idempotent() {
    let req = request(&[], b"x");
    let date = b"Thu, 01 Jan 1970 00:00:00 GMT".to_vec();
    let mut enc = encode_request(req, date).unwrap();
    let _ = drain(&mut enc, 16);
    assert!(enc.read(16).is_empty());
    assert!(enc.read(16).is_empty());
}

#[test]
fn round_trip() {
    let req = request(&[("accept", "text/plain"), ("x-two", "a"), ("x-two", "b")], b"payload");
    let date = b"Thu, 01 Jan 1970 00:00:00 GMT".to_vec();
    let mut enc = encode_request(req, date).unwrap();
    let bytes = drain(&mut enc, 3);
    let (decoded, consumed) = decode_request(&bytes).unwrap();
    assert_eq!(consumed, bytes.len());
    assert_eq!(decoded.method, b"GET".to_vec());
    assert_eq!(decoded.target, b"/index.html".to_vec());
    assert_eq!(decoded.body, b"payload".to_vec());
    // The wire header set: the derived fields, then the caller's in order.
    let names: Vec<&[u8]> =
        decoded.headers.fields.iter().map(|f| f.name.as_slice()).collect();
    assert_eq!(
        names,
        vec![
            b"host".as_slice(),
            b"content-length".as_slice(),
            b"date".as_slice(),
            b"accept".as_slice(),
            b"x-two".as_slice(),
            b"x-two".as_slice(),
        ]
    );
    assert_eq!(decoded.headers.fields[4].value, b"a".to_vec());
    assert_eq!(decoded.headers.fields[5].value, b"b".to_vec());
    assert_eq!(decoded.headers.last_of(&b"x-two".to_vec()).unwrap(), &b"b".to_vec());
}

#[test]
fn error_descriptions() {
    assert!(!HttpError::InvalidInput.describe().is_empty());
    assert!(!HttpError::MalformedHead.describe().is_empty());
    assert!(!HttpError::UnsupportedVersion.describe().is_empty());
    assert!(!HttpError::AmbiguousFraming.describe().is_empty());
    assert!(!HttpError::MalformedChunk.describe().is_empty());
    assert!(!HttpError::ConnectionClosed.describe().is_empty());
}

#[test]
fn status_code_bounds() {
    let date = b"Thu, 01 Jan 1970 00:00:00 GMT".to_vec();
    let input = b"HTTP/1.1 99 Low\r\n\r\n".to_vec();
    assert!(matches!(decode_response(&input, date.clone()), Err(HttpError::MalformedHead)));
    let input = b"HTTP/1.1 600 High\r\n\r\n".to_vec();
    assert!(matches!(decode_response(&input, date.clone()), Err(HttpError::MalformedHead)));
    let input = b"HTTP/1.1 abc Bad\r\n\r\n".to_vec();
    assert!(matches!(decode_response(&input, date), Err(HttpError::MalformedHead)));
}

#[test]
fn empty_body_request() {
    let input = b"GET / HTTP/1.1\r\nhost: e\r\n\r\n".to_vec();
    let (req, consumed) = decode_request(&input).unwrap();
    assert!(req.body.is_empty());
    assert!(req.trailers.is_none());
    assert_eq!(consumed, input.len());
}
