//! The body-framing policy: how a decoded header set determines where the
//! message's body ends.

use vstd::prelude::*;

use crate::bytes::{bytes_equal, dec_val, is_dec, parse_dec_range};
use crate::error::HttpError;
use crate::headers::{has_name, last_value, FieldsView, HeaderSet};

verus! {

/// How the body of a message is framed on the wire.
#[derive(Clone, Copy, PartialEq, Eq, Structural, Debug)]
pub enum Framing {
    /// The message carries no body.
    Empty,
    /// The body is exactly this many bytes.
    Fixed(usize),
    /// The body is a chunked transfer-encoding stream.
    Chunked,
}

/// The bytes of the header name `content-length`.
pub open spec fn content_length_name() -> Seq<u8> {
    seq![99u8, 111u8, 110u8, 116u8, 101u8, 110u8, 116u8, 45u8, 108u8, 101u8, 110u8, 103u8, 116u8, 104u8]
}

/// The bytes of the header name `transfer-encoding`.
pub open spec fn transfer_encoding_name() -> Seq<u8> {
    seq![116u8, 114u8, 97u8, 110u8, 115u8, 102u8, 101u8, 114u8, 45u8, 101u8, 110u8, 99u8, 111u8, 100u8, 105u8, 110u8, 103u8]
}

/// The bytes of the transfer-encoding token `chunked`.
pub open spec fn chunked_token() -> Seq<u8> {
    seq![99u8, 104u8, 117u8, 110u8, 107u8, 101u8, 100u8]
}

/// The `content-length` name as a vector.
pub fn content_length_bytes() -> (r: Vec<u8>)
    ensures
        r@ == content_length_name(),
{
    let r = vec![99u8, 111u8, 110u8, 116u8, 101u8, 110u8, 116u8, 45u8, 108u8, 101u8, 110u8, 103u8, 116u8, 104u8];
    proof {
        assert(r@ =~= content_length_name());
    }
    r
}

/// The `transfer-encoding` name as a vector.
pub fn transfer_encoding_bytes() -> (r: Vec<u8>)
    ensures
        r@ == transfer_encoding_name(),
{
    let r = vec![116u8, 114u8, 97u8, 110u8, 115u8, 102u8, 101u8, 114u8, 45u8, 101u8, 110u8, 99u8, 111u8, 100u8, 105u8, 110u8, 103u8];
    proof {
        assert(r@ =~= transfer_encoding_name());
    }
    r
}

/// The `chunked` token as a vector.
pub fn chunked_token_bytes() -> (r: Vec<u8>)
    ensures
        r@ == chunked_token(),
{
    let r = vec![99u8, 104u8, 117u8, 110u8, 107u8, 101u8, 100u8];
    proof {
        assert(r@ =~= chunked_token());
    }
    r
}

/// The framing a header set prescribes.
///
/// Carrying both `content-length` and `transfer-encoding` is ambiguous and
/// always an error.  Otherwise a `transfer-encoding` whose last value is
/// `chunked` makes the body chunked; a `content-length` whose last value is
/// a decimal number that fits the machine makes it fixed at that length; and
/// with neither header the message has no body.
pub open spec fn framing_spec(hs: FieldsView) -> Result<Framing, HttpError> {
    if has_name(hs, content_length_name()) && has_name(hs, transfer_encoding_name()) {
        Err(HttpError::AmbiguousFraming)
    } else if has_name(hs, transfer_encoding_name()) {
        if last_value(hs, transfer_encoding_name()) == Some(chunked_token()) {
            Ok(Framing::Chunked)
        } else {
            Ok(Framing::Empty)
        }
    } else if has_name(hs, content_length_name()) {
        match last_value(hs, content_length_name()) {
            Some(v) => if is_dec(v) && dec_val(v) <= usize::MAX {
                Ok(Framing::Fixed(dec_val(v) as usize))
            } else {
                Err(HttpError::MalformedHead)
            },
            None => Err(HttpError::MalformedHead),
        }
    } else {
        Ok(Framing::Empty)
    }
}

/// Decide the body framing from the headers.
pub fn framing_of(hs: &HeaderSet) -> (r: Result<Framing, HttpError>)
    ensures
        r == framing_spec(hs@),
{
    let cl = content_length_bytes();
    let te = transfer_encoding_bytes();
    proof {
        crate::headers::lemma_last_value_has(hs@, cl@);
        crate::headers::lemma_last_value_has(hs@, te@);
    }
    let cl_last = hs.last_of(&cl);
    let te_last = hs.last_of(&te);
    match (cl_last, te_last) {
        (Some(_), Some(_)) => Err(HttpError::AmbiguousFraming),
        (_, Some(v)) => {
            let token = chunked_token_bytes();
            if bytes_equal(v, &token) {
                Ok(Framing::Chunked)
            } else {
                Ok(Framing::Empty)
            }
        },
        (Some(v), None) => {
            match parse_dec_range(v, 0, v.len()) {
                Some(n) => {
                    proof {
                        assert(v@.subrange(0, v@.len() as int) =~= v@);
                    }
                    Ok(Framing::Fixed(n))
                },
                None => {
                    proof {
                        assert(v@.subrange(0, v@.len() as int) =~= v@);
                    }
                    Err(HttpError::MalformedHead)
                },
            }
        },
        (None, None) => Ok(Framing::Empty),
    }
}

/// Both `content-length` and `transfer-encoding` present always make the
/// framing ambiguous, whatever their values.
pub proof fn lemma_ambiguous_framing(hs: FieldsView)
    requires
        has_name(hs, content_length_name()),
        has_name(hs, transfer_encoding_name()),
    ensures
        framing_spec(hs) == Err::<Framing, HttpError>(HttpError::AmbiguousFraming),
{
}

} // verus!
