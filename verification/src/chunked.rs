//! The chunked transfer-encoding decoder.
//!
//! A chunked body is a sequence of `hex-size[;extensions] CRLF data CRLF`
//! frames ended by a zero-size frame, whose place the trailer header block
//! takes: trailer lines and a final blank line.  `chunked_spec` is the
//! state machine's denotation — what payload, trailers and consumed length
//! a byte suffix decodes to — and the executable decoder is proved to
//! return exactly that.

use vstd::prelude::*;

use crate::bytes::{
    copy_range, crlf, find_byte_in, find_crlf_in, find_pat, hex_val, is_hex,
    lemma_find_byte_char, lemma_find_crlf_char, parse_hex_range, CR, LF, SEMICOLON,
};
use crate::error::HttpError;
use crate::headers::{FieldsView, HeaderSet};
use crate::parse::{parse_fields, parse_fields_range};

verus! {

/// What a byte suffix decodes to as a chunked body: the payload bytes, the
/// trailer fields and how many input bytes the body took.
///
/// A missing size line or missing chunk data is a truncation
/// (`ConnectionClosed`); a size that is not a hexadecimal number or does
/// not fit the machine, a missing chunk terminator and a broken trailer
/// block are `MalformedChunk`.  Chunk extensions after `;` are discarded.
pub open spec fn chunked_spec(s: Seq<u8>) -> Result<(Seq<u8>, FieldsView, int), HttpError>
    decreases s.len(),
{
    match find_pat(s, crlf()) {
        None => Err(HttpError::ConnectionClosed),
        Some(i) => if !(0 <= i && i + 2 <= s.len()) {
            Err(HttpError::ConnectionClosed)
        } else {
            let line = s.take(i);
            let size_end = match find_pat(line, seq![SEMICOLON]) {
                Some(j) => if 0 <= j <= line.len() {
                    j
                } else {
                    i
                },
                None => i,
            };
            let size_str = line.take(size_end);
            if !(is_hex(size_str) && hex_val(size_str) <= usize::MAX) {
                Err(HttpError::MalformedChunk)
            } else {
                let n = hex_val(size_str) as int;
                let after = s.skip(i + 2);
                if n == 0 {
                    match parse_fields(after) {
                        None => Err(HttpError::MalformedChunk),
                        Some(tc) => Ok((Seq::empty(), tc.0, i + 2 + tc.1)),
                    }
                } else if after.len() < n + 2 {
                    Err(HttpError::ConnectionClosed)
                } else if !(after[n] == CR && after[n + 1] == LF) {
                    Err(HttpError::MalformedChunk)
                } else {
                    match chunked_spec(after.skip(n + 2)) {
                        Err(e) => Err(e),
                        Ok(pc) => Ok((after.take(n) + pc.0, pc.1, i + 2 + n + 2 + pc.2)),
                    }
                }
            }
        },
    }
}

/// Decode the chunked body that starts at `v[start]`.  On success the
/// returned position is just past the trailer block's blank line: the
/// bytes after it belong to the next message and are not touched.
#[verifier::rlimit(100)]
pub fn decode_chunked(v: &Vec<u8>, start: usize) -> (r: Result<
    (Vec<u8>, HeaderSet, usize),
    HttpError,
>)
    requires
        start <= v.len(),
    ensures
        ({
            let s = v@.skip(start as int);
            match r {
                Ok(p) => start <= p.2 <= v.len() && chunked_spec(s) == Ok::<
                    (Seq<u8>, FieldsView, int),
                    HttpError,
                >((p.0@, p.1@, p.2 - start as int)),
                Err(e) => chunked_spec(s) == Err::<(Seq<u8>, FieldsView, int), HttpError>(e),
            }
        }),
{
    let ghost s = v@.skip(start as int);
    let mut payload: Vec<u8> = Vec::new();
    let mut pos: usize = start;
    proof {
        assert(payload@ + Seq::<u8>::empty() =~= payload@);
    }
    loop
        invariant
            start <= pos <= v.len(),
            s == v@.skip(start as int),
            match chunked_spec(v@.skip(pos as int)) {
                Ok(pc) => chunked_spec(s) == Ok::<(Seq<u8>, FieldsView, int), HttpError>(
                    (payload@ + pc.0, pc.1, pos - start + pc.2),
                ),
                Err(e) => chunked_spec(s) == Err::<(Seq<u8>, FieldsView, int), HttpError>(e),
            },
        decreases v.len() - pos,
    {
        let ghost s2 = v@.skip(pos as int);
        proof {
            assert(s2 =~= v@.subrange(pos as int, v@.len() as int));
        }
        let found = find_crlf_in(v, pos, v.len());
        proof {
            lemma_find_crlf_char(s2);
        }
        let i = match found {
            None => {
                return Err(HttpError::ConnectionClosed);
            },
            Some(i) => i,
        };
        let ghost line = s2.take(i - pos);
        proof {
            assert(line =~= v@.subrange(pos as int, i as int));
        }
        let size_end = match find_byte_in(v, pos, i, SEMICOLON) {
            Some(j) => j,
            None => i,
        };
        proof {
            lemma_find_byte_char(v@.subrange(pos as int, i as int), SEMICOLON);
            assert(line.take(size_end - pos) =~= v@.subrange(pos as int, size_end as int));
        }
        let n = match parse_hex_range(v, pos, size_end) {
            None => {
                return Err(HttpError::MalformedChunk);
            },
            Some(n) => n,
        };
        let ghost after = s2.skip(i - pos + 2);
        proof {
            assert(after =~= v@.subrange(i + 2, v@.len() as int));
            assert(after =~= v@.skip(i + 2));
        }
        if n == 0 {
            match parse_fields_range(v, i + 2, v.len()) {
                None => {
                    return Err(HttpError::MalformedChunk);
                },
                Some(p) => {
                    proof {
                        assert(payload@ + Seq::<u8>::empty() =~= payload@);
                    }
                    return Ok((payload, p.0, p.1));
                },
            }
        }
        let avail = v.len() - (i + 2);
        if avail < n {
            return Err(HttpError::ConnectionClosed);
        }
        if avail - n < 2 {
            return Err(HttpError::ConnectionClosed);
        }
        let data_end = i + 2 + n;
        proof {
            assert(after[n as int] == v@[data_end as int]);
            assert(after[n + 1] == v@[data_end + 1]);
        }
        if v[data_end] != CR || v[data_end + 1] != LF {
            return Err(HttpError::MalformedChunk);
        }
        let ghost payload_old = payload@;
        let mut k: usize = i + 2;
        while k < data_end
            invariant
                i + 2 <= k <= data_end <= v.len(),
                payload@ == payload_old + v@.subrange(i + 2, k as int),
            decreases data_end - k,
        {
            payload.push(v[k]);
            proof {
                assert(v@.subrange(i + 2, k + 1) =~= v@.subrange(i + 2, k as int).push(
                    v@[k as int],
                ));
            }
            k = k + 1;
        }
        proof {
            assert(payload_old + v@.subrange(i + 2, i + 2) =~= payload_old);
            assert(after.take(n as int) =~= v@.subrange(i + 2, data_end as int));
            assert(after.skip(n + 2) =~= v@.skip(data_end + 2));
            match chunked_spec(v@.skip(data_end + 2)) {
                Ok(pc) => {
                    assert(chunked_spec(s2) == Ok::<(Seq<u8>, FieldsView, int), HttpError>(
                        (after.take(n as int) + pc.0, pc.1, (i - pos) + 2 + n + 2 + pc.2),
                    ));
                    assert(payload_old + (after.take(n as int) + pc.0) =~= (payload_old
                        + after.take(n as int)) + pc.0);
                },
                Err(_) => {},
            }
        }
        pos = data_end + 2;
    }
}

/// A chunk whose size line is present but not a hexadecimal number fails
/// with `MalformedChunk`, and the failed decode yields no payload at all.
pub proof fn lemma_malformed_chunk_size(s: Seq<u8>, i: int, size_end: int)
    requires
        find_pat(s, crlf()) == Some(i),
        0 <= i && i + 2 <= s.len(),
        size_end == match find_pat(s.take(i), seq![SEMICOLON]) {
            Some(j) => if 0 <= j <= i {
                j
            } else {
                i
            },
            None => i,
        },
        !is_hex(s.take(i).take(size_end)),
    ensures
        chunked_spec(s) == Err::<(Seq<u8>, FieldsView, int), HttpError>(HttpError::MalformedChunk),
{
}

} // verus!
