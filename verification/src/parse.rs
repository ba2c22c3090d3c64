//! The head tokenizer: turning the bytes of a message head into the
//! request or status line's tokens and the header fields.
//!
//! A head is a first line, any number of `name: value` lines and a blank
//! line, each terminated by CRLF.  The grammar is specified by the
//! `parse_*` spec functions; the executable functions are proved to return
//! exactly what those functions denote.

use vstd::prelude::*;

use crate::bytes::{
    copy_range, crlf, bytes_equal, dec_val, find_byte_in, find_crlf_in, find_pat, is_dec,
    lemma_find_byte_char, lemma_find_crlf_char, parse_dec_range, COLON, CR, LF, SP,
};
use crate::error::HttpError;
use crate::headers::{FieldsView, HeaderSet};

verus! {

/// The bytes of the version token `HTTP/1.1`.
pub open spec fn http11() -> Seq<u8> {
    seq![72u8, 84u8, 84u8, 80u8, 47u8, 49u8, 46u8, 49u8]
}

/// The `HTTP/1.1` token as a vector.
pub fn http11_bytes() -> (r: Vec<u8>)
    ensures
        r@ == http11(),
{
    let r = vec![72u8, 84u8, 84u8, 80u8, 47u8, 49u8, 46u8, 49u8];
    proof {
        assert(r@ =~= http11());
    }
    r
}

/// One header line: the bytes before the first colon are the name (it must
/// be non-empty), the bytes after it — less one optional leading space —
/// are the value.
pub open spec fn parse_field_line(line: Seq<u8>) -> Option<(Seq<u8>, Seq<u8>)> {
    match find_pat(line, seq![COLON]) {
        None => None,
        Some(i) => if !(1 <= i && i < line.len()) {
            None
        } else {
            let raw = line.skip(i + 1);
            let value = if raw.len() > 0 && raw[0] == SP {
                raw.skip(1)
            } else {
                raw
            };
            Some((line.take(i), value))
        },
    }
}

/// The header block: field lines up to and including a blank line.  Yields
/// the fields and how many bytes they took, the blank line included; bytes
/// after the blank line are not touched.
pub open spec fn parse_fields(s: Seq<u8>) -> Option<(FieldsView, int)>
    decreases s.len(),
{
    if s.len() >= 2 && s[0] == CR && s[1] == LF {
        Some((Seq::empty(), 2))
    } else {
        match find_pat(s, crlf()) {
            None => None,
            Some(i) => if !(1 <= i && i + 2 <= s.len()) {
                None
            } else {
                match parse_field_line(s.take(i)) {
                    None => None,
                    Some(f) => match parse_fields(s.skip(i + 2)) {
                        None => None,
                        Some(fc) => Some((seq![f] + fc.0, i + 2 + fc.1)),
                    },
                }
            },
        }
    }
}

/// A request line: method, target and version, separated by single spaces.
/// Method and target are non-empty and space-free; the version token is
/// whatever follows the second space.
pub open spec fn parse_request_line(line: Seq<u8>) -> Option<(Seq<u8>, Seq<u8>, Seq<u8>)> {
    match find_pat(line, seq![SP]) {
        None => None,
        Some(i) => if !(1 <= i && i < line.len()) {
            None
        } else {
            let rest = line.skip(i + 1);
            match find_pat(rest, seq![SP]) {
                None => None,
                Some(j) => if !(1 <= j && j < rest.len()) {
                    None
                } else {
                    Some((line.take(i), rest.take(j), rest.skip(j + 1)))
                },
            }
        },
    }
}

/// A status line: version, status code and reason phrase, separated by
/// single spaces.  The reason phrase may be empty and may contain spaces.
pub open spec fn parse_status_line(line: Seq<u8>) -> Option<(Seq<u8>, Seq<u8>, Seq<u8>)> {
    match find_pat(line, seq![SP]) {
        None => None,
        Some(i) => if !(1 <= i && i < line.len()) {
            None
        } else {
            let rest = line.skip(i + 1);
            match find_pat(rest, seq![SP]) {
                None => None,
                Some(j) => if !(1 <= j && j < rest.len()) {
                    None
                } else {
                    Some((line.take(i), rest.take(j), rest.skip(j + 1)))
                },
            }
        },
    }
}

/// A whole request head (the final blank line included): the method, the
/// target and the header fields, or the first structural error.  A version
/// token other than `HTTP/1.1` fails with `UnsupportedVersion`.
pub open spec fn parse_request_head(head: Seq<u8>) -> Result<
    (Seq<u8>, Seq<u8>, FieldsView),
    HttpError,
> {
    match find_pat(head, crlf()) {
        None => Err(HttpError::MalformedHead),
        Some(i) => if !(0 <= i && i + 2 <= head.len()) {
            Err(HttpError::MalformedHead)
        } else {
            match parse_request_line(head.take(i)) {
                None => Err(HttpError::MalformedHead),
                Some(mtv) => if mtv.2 != http11() {
                    Err(HttpError::UnsupportedVersion)
                } else {
                    match parse_fields(head.skip(i + 2)) {
                        None => Err(HttpError::MalformedHead),
                        Some(fc) => if fc.1 == head.len() - (i + 2) {
                            Ok((mtv.0, mtv.1, fc.0))
                        } else {
                            Err(HttpError::MalformedHead)
                        },
                    }
                },
            }
        },
    }
}

/// A whole response head: the status code, the reason phrase and the header
/// fields, or the first structural error.  The code must be a decimal
/// number between 100 and 599.
pub open spec fn parse_response_head(head: Seq<u8>) -> Result<
    (int, Seq<u8>, FieldsView),
    HttpError,
> {
    match find_pat(head, crlf()) {
        None => Err(HttpError::MalformedHead),
        Some(i) => if !(0 <= i && i + 2 <= head.len()) {
            Err(HttpError::MalformedHead)
        } else {
            match parse_status_line(head.take(i)) {
                None => Err(HttpError::MalformedHead),
                Some(vcr) => if vcr.0 != http11() {
                    Err(HttpError::UnsupportedVersion)
                } else if !(is_dec(vcr.1) && 100 <= dec_val(vcr.1) <= 599) {
                    Err(HttpError::MalformedHead)
                } else {
                    match parse_fields(head.skip(i + 2)) {
                        None => Err(HttpError::MalformedHead),
                        Some(fc) => if fc.1 == head.len() - (i + 2) {
                            Ok((dec_val(vcr.1) as int, vcr.2, fc.0))
                        } else {
                            Err(HttpError::MalformedHead)
                        },
                    }
                },
            }
        },
    }
}

/// Parse the header block in `v[from..to]`; `None` means the block is not
/// well-formed.  On success the returned position is just past the blank
/// line that ends the block.
pub fn parse_fields_range(v: &Vec<u8>, from: usize, to: usize) -> (r: Option<(HeaderSet, usize)>)
    requires
        from <= to <= v.len(),
    ensures
        ({
            let s = v@.subrange(from as int, to as int);
            match r {
                Some(p) => from <= p.1 <= to && parse_fields(s) == Some((p.0@, p.1 - from as int)),
                None => parse_fields(s) == None::<(FieldsView, int)>,
            }
        }),
{
    let ghost s = v@.subrange(from as int, to as int);
    let mut hs = HeaderSet::new();
    let mut pos: usize = from;
    proof {
        assert(s =~= v@.subrange(from as int, to as int));
    }
    loop
        invariant
            from <= pos <= to <= v.len(),
            s == v@.subrange(from as int, to as int),
            match parse_fields(v@.subrange(pos as int, to as int)) {
                Some(pr) => parse_fields(s) == Some((hs@ + pr.0, pos - from + pr.1)),
                None => parse_fields(s) == None::<(FieldsView, int)>,
            },
        decreases to - pos,
    {
        let ghost s2 = v@.subrange(pos as int, to as int);
        let found = find_crlf_in(v, pos, to);
        proof {
            lemma_find_crlf_char(s2);
        }
        match found {
            None => {
                // No line terminator at all: not even a blank line.
                proof {
                    if s2.len() >= 2 && s2[0] == CR && s2[1] == LF {
                        assert(s2.subrange(0, 2) =~= crlf());
                    }
                }
                return None;
            },
            Some(i) => {
                if i == pos {
                    // A blank line ends the block.
                    proof {
                        assert(s2[0] == v@[pos as int] && s2[1] == v@[pos + 1]);
                        assert(hs@ + Seq::<(Seq<u8>, Seq<u8>)>::empty() =~= hs@);
                    }
                    return Some((hs, pos + 2));
                }
                // One field line in v[pos..i].
                proof {
                    assert(!(s2[0] == CR && s2[1] == LF));
                    assert(s2[0] == v@[pos as int]);
                    if pos + 1 < to {
                        assert(s2[1] == v@[pos + 1]);
                    }
                }
                let ghost line = s2.take(i - pos);
                proof {
                    assert(line =~= v@.subrange(pos as int, i as int));
                }
                let colon = find_byte_in(v, pos, i, COLON);
                proof {
                    lemma_find_byte_char(v@.subrange(pos as int, i as int), COLON);
                }
                match colon {
                    None => {
                        return None;
                    },
                    Some(c) => {
                        if c == pos {
                            return None;
                        }
                        let mut val_start = c + 1;
                        if val_start < i && v[val_start] == SP {
                            val_start = val_start + 1;
                        }
                        proof {
                            let raw = line.skip(c - pos + 1);
                            assert(raw =~= v@.subrange(c + 1, i as int));
                            if c + 1 < i {
                                assert(raw[0] == v@[c + 1]);
                            }
                            assert(raw.len() > 0 && raw[0] == SP ==> raw.skip(1) =~= v@.subrange(
                                c + 2,
                                i as int,
                            ));
                            assert(line.take(c - pos) =~= v@.subrange(pos as int, c as int));
                        }
                        let name = copy_range(v, pos, c);
                        let value = copy_range(v, val_start, i);
                        let ghost f = (name@, value@);
                        proof {
                            assert(parse_field_line(line) == Some(f));
                            assert(s2.skip(i - pos + 2) =~= v@.subrange(i + 2, to as int));
                        }
                        let ghost hs_old = hs@;
                        hs.push(name, value);
                        proof {
                            match parse_fields(v@.subrange(i + 2, to as int)) {
                                Some(pr) => {
                                    assert(parse_fields(s2) == Some(
                                        (seq![f] + pr.0, (i - pos) + 2 + pr.1),
                                    ));
                                    assert(hs_old + (seq![f] + pr.0) =~= (hs_old.push(f)) + pr.0);
                                },
                                None => {
                                    assert(parse_fields(s2) == None::<(FieldsView, int)>);
                                },
                            }
                        }
                        pos = i + 2;
                    },
                }
            },
        }
    }
}

/// Parse a request head occupying `v[0..end]` (the final blank line
/// included).
pub fn parse_request_head_range(v: &Vec<u8>, end: usize) -> (r: Result<
    (Vec<u8>, Vec<u8>, HeaderSet),
    HttpError,
>)
    requires
        end <= v.len(),
    ensures
        ({
            let s = v@.subrange(0, end as int);
            match r {
                Ok(p) => parse_request_head(s) == Ok::<(Seq<u8>, Seq<u8>, FieldsView), HttpError>(
                    (p.0@, p.1@, p.2@),
                ),
                Err(e) => parse_request_head(s) == Err::<
                    (Seq<u8>, Seq<u8>, FieldsView),
                    HttpError,
                >(e),
            }
        }),
{
    let ghost s = v@.subrange(0, end as int);
    let first = find_crlf_in(v, 0, end);
    proof {
        lemma_find_crlf_char(s);
    }
    let i = match first {
        None => {
            return Err(HttpError::MalformedHead);
        },
        Some(i) => i,
    };
    let ghost line = s.take(i as int);
    proof {
        assert(line =~= v@.subrange(0, i as int));
    }
    let a = match find_byte_in(v, 0, i, SP) {
        None => {
            return Err(HttpError::MalformedHead);
        },
        Some(a) => a,
    };
    proof {
        lemma_find_byte_char(v@.subrange(0, i as int), SP);
    }
    if a == 0 {
        return Err(HttpError::MalformedHead);
    }
    let ghost rest = line.skip(a + 1);
    proof {
        assert(rest =~= v@.subrange(a + 1, i as int));
    }
    let b = match find_byte_in(v, a + 1, i, SP) {
        None => {
            return Err(HttpError::MalformedHead);
        },
        Some(b) => b,
    };
    proof {
        lemma_find_byte_char(v@.subrange(a + 1, i as int), SP);
    }
    if b == a + 1 {
        return Err(HttpError::MalformedHead);
    }
    proof {
        assert(line.take(a as int) =~= v@.subrange(0, a as int));
        assert(rest.take(b - (a + 1)) =~= v@.subrange(a + 1, b as int));
        assert(rest.skip(b - (a + 1) + 1) =~= v@.subrange(b + 1, i as int));
    }
    let version = copy_range(v, b + 1, i);
    let expected = http11_bytes();
    if !bytes_equal(&version, &expected) {
        return Err(HttpError::UnsupportedVersion);
    }
    proof {
        assert(s.skip(i + 2) =~= v@.subrange(i + 2, end as int));
    }
    match parse_fields_range(v, i + 2, end) {
        None => Err(HttpError::MalformedHead),
        Some(p) => {
            if p.1 != end {
                return Err(HttpError::MalformedHead);
            }
            let method = copy_range(v, 0, a);
            let target = copy_range(v, a + 1, b);
            Ok((method, target, p.0))
        },
    }
}

/// Parse a response head occupying `v[0..end]` (the final blank line
/// included).
pub fn parse_response_head_range(v: &Vec<u8>, end: usize) -> (r: Result<
    (u16, Vec<u8>, HeaderSet),
    HttpError,
>)
    requires
        end <= v.len(),
    ensures
        ({
            let s = v@.subrange(0, end as int);
            match r {
                Ok(p) => parse_response_head(s) == Ok::<(int, Seq<u8>, FieldsView), HttpError>(
                    (p.0 as int, p.1@, p.2@),
                ),
                Err(e) => parse_response_head(s) == Err::<(int, Seq<u8>, FieldsView), HttpError>(
                    e,
                ),
            }
        }),
{
    let ghost s = v@.subrange(0, end as int);
    let first = find_crlf_in(v, 0, end);
    proof {
        lemma_find_crlf_char(s);
    }
    let i = match first {
        None => {
            return Err(HttpError::MalformedHead);
        },
        Some(i) => i,
    };
    let ghost line = s.take(i as int);
    proof {
        assert(line =~= v@.subrange(0, i as int));
    }
    let a = match find_byte_in(v, 0, i, SP) {
        None => {
            return Err(HttpError::MalformedHead);
        },
        Some(a) => a,
    };
    proof {
        lemma_find_byte_char(v@.subrange(0, i as int), SP);
    }
    if a == 0 {
        return Err(HttpError::MalformedHead);
    }
    let ghost rest = line.skip(a + 1);
    proof {
        assert(rest =~= v@.subrange(a + 1, i as int));
    }
    let b = match find_byte_in(v, a + 1, i, SP) {
        None => {
            return Err(HttpError::MalformedHead);
        },
        Some(b) => b,
    };
    proof {
        lemma_find_byte_char(v@.subrange(a + 1, i as int), SP);
    }
    if b == a + 1 {
        return Err(HttpError::MalformedHead);
    }
    proof {
        assert(line.take(a as int) =~= v@.subrange(0, a as int));
        assert(rest.take(b - (a + 1)) =~= v@.subrange(a + 1, b as int));
        assert(rest.skip(b - (a + 1) + 1) =~= v@.subrange(b + 1, i as int));
    }
    let version = copy_range(v, 0, a);
    let expected = http11_bytes();
    if !bytes_equal(&version, &expected) {
        return Err(HttpError::UnsupportedVersion);
    }
    let code = match parse_dec_range(v, a + 1, b) {
        None => {
            return Err(HttpError::MalformedHead);
        },
        Some(n) => n,
    };
    if code < 100 || code > 599 {
        return Err(HttpError::MalformedHead);
    }
    proof {
        assert(s.skip(i + 2) =~= v@.subrange(i + 2, end as int));
    }
    match parse_fields_range(v, i + 2, end) {
        None => Err(HttpError::MalformedHead),
        Some(p) => {
            if p.1 != end {
                return Err(HttpError::MalformedHead);
            }
            let reason = copy_range(v, b + 1, i);
            Ok((code as u16, reason, p.0))
        },
    }
}

} // verus!
