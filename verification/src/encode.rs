//! The message encoder: serialising a head and streaming head plus body
//! bytes under caller-chosen buffer sizes.

use vstd::prelude::*;

use crate::bytes::{crlf, dec_val, digit_val, is_dec, is_digit, COLON, CR, LF, SP};
use crate::error::HttpError;
use crate::framing::{content_length_name, content_length_bytes};
use crate::headers::{has_name, FieldsView, HeaderSet};
use crate::parse::http11;

verus! {

/// The bytes of the header name `host`.
pub open spec fn host_name() -> Seq<u8> {
    seq![104u8, 111u8, 115u8, 116u8]
}

/// The `host` name as a vector.
pub fn host_bytes() -> (r: Vec<u8>)
    ensures
        r@ == host_name(),
{
    let r = vec![104u8, 111u8, 115u8, 116u8];
    proof {
        assert(r@ =~= host_name());
    }
    r
}

/// The bytes of the header name `date`.
pub open spec fn date_name() -> Seq<u8> {
    seq![100u8, 97u8, 116u8, 101u8]
}

/// The `date` name as a vector.
pub fn date_bytes() -> (r: Vec<u8>)
    ensures
        r@ == date_name(),
{
    let r = vec![100u8, 97u8, 116u8, 101u8];
    proof {
        assert(r@ =~= date_name());
    }
    r
}

/// The decimal rendering of a number, without leading zeros.
pub open spec fn dec_str(n: nat) -> Seq<u8>
    decreases n,
{
    if n < 10 {
        seq![(48 + n) as u8]
    } else {
        dec_str(n / 10) + seq![(48 + n % 10) as u8]
    }
}

/// What `dec_str` renders parses back to the same number.
pub proof fn lemma_dec_str_val(n: nat)
    ensures
        is_dec(dec_str(n)),
        dec_val(dec_str(n)) == n,
    decreases n,
{
    if n < 10 {
        let s = dec_str(n);
        assert(s.drop_last() =~= Seq::<u8>::empty());
        assert(dec_val(s) == dec_val(s.drop_last()) * 10 + digit_val(s.last()));
        assert(dec_val(Seq::<u8>::empty()) == 0);
        assert(s.last() == (48 + n) as u8);
        assert(digit_val((48 + n) as u8) == n);
    } else {
        lemma_dec_str_val(n / 10);
        let s = dec_str(n);
        assert(s.drop_last() =~= dec_str(n / 10));
        assert(s.last() == (48 + n % 10) as u8);
        assert(dec_val(s) == dec_val(dec_str(n / 10)) * 10 + digit_val((48 + n % 10) as u8));
        assert(digit_val((48 + n % 10) as u8) == n % 10);
        assert(n == (n / 10) * 10 + n % 10) by (nonlinear_arith);
        assert forall|i: int| 0 <= i < s.len() implies is_digit(#[trigger] s[i]) by {
            if i < s.len() - 1 {
                assert(s[i] == dec_str(n / 10)[i]);
            }
        }
    }
}

/// Render a number in decimal.
pub fn render_dec(n: usize) -> (r: Vec<u8>)
    ensures
        r@ == dec_str(n as nat),
    decreases n,
{
    if n < 10 {
        let mut r: Vec<u8> = Vec::new();
        r.push((48 + n) as u8);
        proof {
            assert(r@ =~= dec_str(n as nat));
        }
        r
    } else {
        let mut r = render_dec(n / 10);
        r.push((48 + n % 10) as u8);
        proof {
            assert(r@ =~= dec_str(n as nat));
        }
        r
    }
}

/// The wire form of one header field.
pub open spec fn ser_field(f: (Seq<u8>, Seq<u8>)) -> Seq<u8> {
    f.0 + seq![COLON, SP] + f.1 + crlf()
}

/// The wire form of a field list, in order.
pub open spec fn ser_fields(hs: FieldsView) -> Seq<u8>
    decreases hs.len(),
{
    if hs.len() == 0 {
        Seq::empty()
    } else {
        ser_fields(hs.drop_last()) + ser_field(hs.last())
    }
}

/// `ser_fields` seen from the front.
pub proof fn lemma_ser_fields_cons(hs: FieldsView)
    requires
        hs.len() > 0,
    ensures
        ser_fields(hs) == ser_field(hs[0]) + ser_fields(hs.skip(1)),
    decreases hs.len(),
{
    if hs.len() == 1 {
        assert(hs.drop_last() =~= Seq::<(Seq<u8>, Seq<u8>)>::empty());
        assert(hs.skip(1) =~= Seq::<(Seq<u8>, Seq<u8>)>::empty());
        assert(hs.last() == hs[0]);
        assert(ser_field(hs[0]) + ser_fields(hs.skip(1)) =~= ser_field(hs[0]));
        assert(Seq::<u8>::empty() + ser_field(hs.last()) =~= ser_field(hs.last()));
    } else {
        let d = hs.drop_last();
        lemma_ser_fields_cons(d);
        assert(d[0] == hs[0]);
        assert(hs.skip(1).drop_last() =~= d.skip(1));
        assert(hs.skip(1).last() == hs.last());
        assert((ser_field(hs[0]) + ser_fields(d.skip(1))) + ser_field(hs.last()) =~= ser_field(
            hs[0],
        ) + (ser_fields(d.skip(1)) + ser_field(hs.last())));
    }
}

/// The wire form of a request head: request line, fields, blank line.
pub open spec fn ser_request_head(method: Seq<u8>, target: Seq<u8>, hs: FieldsView) -> Seq<u8> {
    method + seq![SP] + target + seq![SP] + http11() + crlf() + ser_fields(hs) + crlf()
}

/// The wire form of a response head: status line, fields, blank line.
pub open spec fn ser_response_head(status: nat, reason: Seq<u8>, hs: FieldsView) -> Seq<u8> {
    http11() + seq![SP] + dec_str(status) + seq![SP] + reason + crlf() + ser_fields(hs) + crlf()
}

/// The fields a request carries on the wire: the derived `host`, the body's
/// `content-length`, a `date` when the caller's headers have none, then the
/// caller's headers in their stored order.
pub open spec fn request_wire_fields(
    host: Seq<u8>,
    body_len: nat,
    date: Seq<u8>,
    hs: FieldsView,
) -> FieldsView {
    let base = seq![(host_name(), host), (content_length_name(), dec_str(body_len))];
    let with_date = if has_name(hs, date_name()) {
        base
    } else {
        base.push((date_name(), date))
    };
    with_date + hs
}

/// The fields a response carries on the wire.
pub open spec fn response_wire_fields(body_len: nat, date: Seq<u8>, hs: FieldsView) -> FieldsView {
    let base = seq![(content_length_name(), dec_str(body_len))];
    let with_date = if has_name(hs, date_name()) {
        base
    } else {
        base.push((date_name(), date))
    };
    with_date + hs
}

/// Append `src` to `dst`.
pub fn append_bytes(dst: &mut Vec<u8>, src: &Vec<u8>)
    ensures
        final(dst)@ == old(dst)@ + src@,
{
    let mut i: usize = 0;
    proof {
        assert(dst@ + src@.subrange(0, 0) =~= dst@);
    }
    while i < src.len()
        invariant
            i <= src.len(),
            dst@ == old(dst)@ + src@.subrange(0, i as int),
        decreases src.len() - i,
    {
        dst.push(src[i]);
        proof {
            assert(old(dst)@ + src@.subrange(0, i + 1) =~= (old(dst)@ + src@.subrange(
                0,
                i as int,
            )).push(src@[i as int]));
        }
        i = i + 1;
    }
    proof {
        assert(src@.subrange(0, src@.len() as int) =~= src@);
    }
}

/// Append the wire form of every field of `hs` to `dst`.
pub fn append_fields(dst: &mut Vec<u8>, hs: &HeaderSet)
    ensures
        final(dst)@ == old(dst)@ + ser_fields(hs@),
{
    let mut i: usize = 0;
    proof {
        assert(hs@.take(0) =~= Seq::<(Seq<u8>, Seq<u8>)>::empty());
        assert(dst@ + ser_fields(hs@.take(0)) =~= dst@);
    }
    while i < hs.len()
        invariant
            i <= hs@.len(),
            dst@ == old(dst)@ + ser_fields(hs@.take(i as int)),
        decreases hs@.len() - i,
    {
        let (name, value) = hs.get(i);
        append_bytes(dst, name);
        dst.push(COLON);
        dst.push(SP);
        append_bytes(dst, value);
        dst.push(CR);
        dst.push(LF);
        proof {
            let w = hs@.take(i + 1);
            assert(w.drop_last() =~= hs@.take(i as int));
            assert(w.last() == hs@[i as int]);
            assert(old(dst)@ + ser_fields(w) =~= (old(dst)@ + ser_fields(hs@.take(i as int)))
                + ser_field(hs@[i as int]));
        }
        i = i + 1;
    }
    proof {
        assert(hs@.take(hs@.len() as int) =~= hs@);
    }
}

/// A body to encode: its bytes when the length is known ahead of time,
/// or a declared unknown-length stream.
pub enum OutBody {
    /// The whole body, length known.
    Known(Vec<u8>),
    /// A body whose length is not known ahead of time.  Encoding it would
    /// take chunked transfer-encoding, which this encoder does not provide:
    /// encoding fails with a typed error instead.
    Unknown,
}

/// A request to encode.  The host is the target's authority, already
/// rendered (`example.com` or `example.com:8080`); `None` when the target
/// has none.
pub struct OutRequest {
    pub method: Vec<u8>,
    pub target: Vec<u8>,
    pub host: Option<Vec<u8>>,
    pub headers: HeaderSet,
    pub body: OutBody,
}

/// A response to encode.
pub struct OutResponse {
    pub status: u16,
    pub reason: Vec<u8>,
    pub headers: HeaderSet,
    pub body: OutBody,
}

/// A pull-based byte producer for one encoded message: head bytes first,
/// then body bytes, then an idempotent end of stream.
pub struct Encoder {
    /// The serialised head.
    pub head: Vec<u8>,
    /// The body bytes.
    pub body: Vec<u8>,
    /// How far the head has been produced.
    pub cursor: usize,
    /// Whether the head has been fully produced.
    pub headers_done: bool,
    /// How far the body has been produced.
    pub body_cursor: usize,
    /// Whether a read has observed the body's exhaustion.
    pub body_done: bool,
    /// How many body bytes have been produced.
    pub body_bytes_read: usize,
}

impl Encoder {
    /// The whole byte stream this encoder produces.
    pub open spec fn total(&self) -> Seq<u8> {
        self.head@ + self.body@
    }

    /// How many bytes have been produced so far.
    pub open spec fn pos(&self) -> int {
        self.cursor + self.body_cursor
    }

    /// The encoder's invariant: the cursors sit inside head and body, the
    /// head is produced before any body byte, and the flags mean what they
    /// say.
    pub open spec fn wf(&self) -> bool {
        &&& self.cursor <= self.head@.len()
        &&& self.body_cursor <= self.body@.len()
        &&& (self.headers_done <==> self.cursor == self.head@.len())
        &&& (!self.headers_done ==> self.body_cursor == 0)
        &&& (self.body_done ==> self.headers_done && self.body_cursor == self.body@.len())
        &&& self.body_bytes_read == self.body_cursor
    }

    /// How many bytes a read with the given buffer size yields.
    pub open spec fn read_len(&self, max: int) -> int {
        let rem = self.total().len() - self.pos();
        if max <= rem {
            max
        } else {
            rem
        }
    }

    /// A fresh encoder over a serialised head and a body.
    pub fn new(head: Vec<u8>, body: Vec<u8>) -> (r: Encoder)
        ensures
            r.wf(),
            r.pos() == 0,
            r.total() == head@ + body@,
    {
        let headers_done = head.len() == 0;
        Encoder { head, body, cursor: 0, headers_done, body_cursor: 0, body_done: false, body_bytes_read: 0 }
    }

    /// Pull up to `max` bytes.  Every call yields exactly the next bytes of
    /// the encoded stream — head bytes first, body bytes after, one call
    /// mixing the two when the buffer outlives the head remainder — so the
    /// concatenation of all outputs never depends on how reads are sized.
    /// After the last byte, every call yields nothing.
    pub fn read(&mut self, max: usize) -> (r: Vec<u8>)
        requires
            old(self).wf(),
        ensures
            final(self).wf(),
            final(self).total() == old(self).total(),
            r@ == old(self).total().subrange(
                old(self).pos(),
                old(self).pos() + old(self).read_len(max as int),
            ),
            final(self).pos() == old(self).pos() + r@.len(),
            old(self).pos() == old(self).total().len() ==> r@.len() == 0,
    {
        let mut out: Vec<u8> = Vec::new();
        let ghost t = self.total();
        let ghost p0 = self.pos();
        if !self.headers_done {
            let n = self.head.len() - self.cursor;
            let k = if n <= max {
                n
            } else {
                max
            };
            let mut j: usize = 0;
            proof {
                assert(t.subrange(p0, p0) =~= Seq::<u8>::empty());
            }
            while j < k
                invariant
                    j <= k,
                    self == old(self),
                    self.body_cursor == 0,
                    self.cursor + k <= self.head@.len(),
                    self.head@.len() <= usize::MAX,
                    t == self.total(),
                    p0 == self.pos(),
                    out@ == t.subrange(p0, p0 + j),
                decreases k - j,
            {
                out.push(self.head[self.cursor + j]);
                proof {
                    assert(t[p0 + j] == self.head@[self.cursor + j]);
                    assert(t.subrange(p0, p0 + j + 1) =~= t.subrange(p0, p0 + j).push(t[p0 + j]));
                }
                j = j + 1;
            }
            self.cursor = self.cursor + k;
            if self.cursor == self.head.len() {
                self.headers_done = true;
            }
        }
        if self.headers_done && !self.body_done {
            let already = out.len();
            let budget = max - already;
            let n = self.body.len() - self.body_cursor;
            let k = if n <= budget {
                n
            } else {
                budget
            };
            let ghost p1 = self.pos();
            let ghost out1 = out@;
            let mut j: usize = 0;
            proof {
                assert(out@ + t.subrange(p1, p1) =~= out@);
            }
            while j < k
                invariant
                    j <= k,
                    k <= self.body@.len() - self.body_cursor,
                    self.body@.len() <= usize::MAX,
                    self.body_cursor + self.cursor == p1,
                    t == self.total(),
                    self.cursor <= self.head@.len(),
                    self.body_cursor <= self.body@.len(),
                    self.cursor == self.head@.len(),
                    out@ == out1 + t.subrange(p1, p1 + j),
                decreases k - j,
            {
                out.push(self.body[self.body_cursor + j]);
                proof {
                    assert(t[p1 + j] == self.body@[self.body_cursor + j]);
                    assert(out1 + t.subrange(p1, p1 + j + 1) =~= (out1 + t.subrange(
                        p1,
                        p1 + j,
                    )).push(t[p1 + j]));
                }
                j = j + 1;
            }
            self.body_cursor = self.body_cursor + k;
            self.body_bytes_read = self.body_bytes_read + k;
            if already + k == 0 && self.body_cursor == self.body.len() {
                self.body_done = true;
            }
        }
        proof {
            assert(out@ =~= t.subrange(p0, p0 + out@.len()));
        }
        out
    }
}

/// Serialise a request head, deciding the wire fields from the request.
pub fn encode_request(req: OutRequest, date: Vec<u8>) -> (r: Result<Encoder, HttpError>)
    ensures
        match r {
            Ok(enc) => {
                &&& req.host is Some
                &&& req.body is Known
                &&& enc.wf()
                &&& enc.pos() == 0
                &&& enc.total() == ser_request_head(
                    req.method@,
                    req.target@,
                    request_wire_fields(
                        req.host->Some_0@,
                        req.body->Known_0@.len(),
                        date@,
                        req.headers@,
                    ),
                ) + req.body->Known_0@
            },
            Err(e) => {
                &&& e == HttpError::InvalidInput
                &&& (req.host is None || req.body is Unknown)
            },
        },
{
    let OutRequest { method, target, host, headers, body } = req;
    let host = match host {
        None => {
            return Err(HttpError::InvalidInput);
        },
        Some(h) => h,
    };
    let body = match body {
        OutBody::Unknown => {
            return Err(HttpError::InvalidInput);
        },
        OutBody::Known(b) => b,
    };
    let mut wire = HeaderSet::new();
    wire.push(host_bytes(), host);
    wire.push(content_length_bytes(), render_dec(body.len()));
    let dn = date_bytes();
    if !headers.contains_name(&dn) {
        wire.push(date_bytes(), date);
    }
    let ghost base_len = wire@.len();
    let mut k: usize = 0;
    proof {
        assert(wire@ + headers@.take(0) =~= wire@);
    }
    let ghost wire0 = wire@;
    while k < headers.len()
        invariant
            k <= headers@.len(),
            wire@ == wire0 + headers@.take(k as int),
        decreases headers@.len() - k,
    {
        let (name, value) = headers.get(k);
        let n = crate::bytes::copy_range(name, 0, name.len());
        let v = crate::bytes::copy_range(value, 0, value.len());
        proof {
            assert(n@ =~= headers@[k as int].0);
            assert(v@ =~= headers@[k as int].1);
        }
        wire.push(n, v);
        proof {
            assert(wire0 + headers@.take(k + 1) =~= (wire0 + headers@.take(k as int)).push(
                headers@[k as int],
            ));
        }
        k = k + 1;
    }
    proof {
        assert(headers@.take(headers@.len() as int) =~= headers@);
        assert(wire@ =~= request_wire_fields(host@, body@.len(), date@, headers@));
    }
    let mut buf: Vec<u8> = Vec::new();
    append_bytes(&mut buf, &method);
    buf.push(SP);
    append_bytes(&mut buf, &target);
    buf.push(SP);
    let ver = crate::parse::http11_bytes();
    append_bytes(&mut buf, &ver);
    buf.push(CR);
    buf.push(LF);
    append_fields(&mut buf, &wire);
    buf.push(CR);
    buf.push(LF);
    proof {
        assert(buf@ =~= ser_request_head(
            method@,
            target@,
            request_wire_fields(host@, body@.len(), date@, headers@),
        ));
    }
    Ok(Encoder::new(buf, body))
}

/// Serialise a response head, deciding the wire fields from the response.
pub fn encode_response(res: OutResponse, date: Vec<u8>) -> (r: Result<Encoder, HttpError>)
    ensures
        match r {
            Ok(enc) => {
                &&& res.body is Known
                &&& enc.wf()
                &&& enc.pos() == 0
                &&& enc.total() == ser_response_head(
                    res.status as nat,
                    res.reason@,
                    response_wire_fields(res.body->Known_0@.len(), date@, res.headers@),
                ) + res.body->Known_0@
            },
            Err(e) => {
                &&& e == HttpError::InvalidInput
                &&& res.body is Unknown
            },
        },
{
    let OutResponse { status, reason, headers, body } = res;
    let body = match body {
        OutBody::Unknown => {
            return Err(HttpError::InvalidInput);
        },
        OutBody::Known(b) => b,
    };
    let mut wire = HeaderSet::new();
    wire.push(content_length_bytes(), render_dec(body.len()));
    let dn = date_bytes();
    if !headers.contains_name(&dn) {
        wire.push(date_bytes(), date);
    }
    let mut k: usize = 0;
    proof {
        assert(wire@ + headers@.take(0) =~= wire@);
    }
    let ghost wire0 = wire@;
    while k < headers.len()
        invariant
            k <= headers@.len(),
            wire@ == wire0 + headers@.take(k as int),
        decreases headers@.len() - k,
    {
        let (name, value) = headers.get(k);
        let n = crate::bytes::copy_range(name, 0, name.len());
        let v = crate::bytes::copy_range(value, 0, value.len());
        proof {
            assert(n@ =~= headers@[k as int].0);
            assert(v@ =~= headers@[k as int].1);
        }
        wire.push(n, v);
        proof {
            assert(wire0 + headers@.take(k + 1) =~= (wire0 + headers@.take(k as int)).push(
                headers@[k as int],
            ));
        }
        k = k + 1;
    }
    proof {
        assert(headers@.take(headers@.len() as int) =~= headers@);
        assert(wire@ =~= response_wire_fields(body@.len(), date@, headers@));
    }
    let mut buf: Vec<u8> = Vec::new();
    let ver = crate::parse::http11_bytes();
    append_bytes(&mut buf, &ver);
    buf.push(SP);
    let code = render_dec(status as usize);
    append_bytes(&mut buf, &code);
    buf.push(SP);
    append_bytes(&mut buf, &reason);
    buf.push(CR);
    buf.push(LF);
    append_fields(&mut buf, &wire);
    buf.push(CR);
    buf.push(LF);
    proof {
        assert(buf@ =~= ser_response_head(
            status as nat,
            reason@,
            response_wire_fields(body@.len(), date@, headers@),
        ));
    }
    Ok(Encoder::new(buf, body))
}

/// The bytes one read of the given buffer size yields at `pos`.
pub open spec fn read_chunk(total: Seq<u8>, pos: int, max: int) -> Seq<u8> {
    let rem = total.len() - pos;
    let k = if max <= rem {
        max
    } else {
        rem
    };
    total.subrange(pos, pos + k)
}

/// Where a schedule of reads of the given buffer sizes leaves the cursor.
pub open spec fn drain_pos(total: Seq<u8>, pos: int, sizes: Seq<int>) -> int
    decreases sizes.len(),
{
    if sizes.len() == 0 {
        pos
    } else {
        drain_pos(total, pos + read_chunk(total, pos, sizes[0]).len(), sizes.skip(1))
    }
}

/// What a schedule of reads of the given buffer sizes produces, concatenated.
pub open spec fn drain(total: Seq<u8>, pos: int, sizes: Seq<int>) -> Seq<u8>
    decreases sizes.len(),
{
    if sizes.len() == 0 {
        Seq::empty()
    } else {
        let c = read_chunk(total, pos, sizes[0]);
        c + drain(total, pos + c.len(), sizes.skip(1))
    }
}

/// A schedule of reads produces exactly the stream bytes it moves over.
pub proof fn lemma_drain_subrange(total: Seq<u8>, pos: int, sizes: Seq<int>)
    requires
        0 <= pos <= total.len(),
        forall|i: int| 0 <= i < sizes.len() ==> sizes[i] >= 0,
    ensures
        pos <= drain_pos(total, pos, sizes) <= total.len(),
        drain(total, pos, sizes) == total.subrange(pos, drain_pos(total, pos, sizes)),
    decreases sizes.len(),
{
    if sizes.len() == 0 {
        assert(total.subrange(pos, pos) =~= Seq::<u8>::empty());
    } else {
        let c = read_chunk(total, pos, sizes[0]);
        assert(forall|i: int| 0 <= i < sizes.skip(1).len() ==> #[trigger] sizes.skip(1)[i] == sizes[i + 1]);
        lemma_drain_subrange(total, pos + c.len(), sizes.skip(1));
        assert(total.subrange(pos, drain_pos(total, pos, sizes)) =~= c + total.subrange(
            pos + c.len(),
            drain_pos(total, pos, sizes),
        ));
    }
}

/// Buffer-size independence: two read schedules that both drain the stream
/// produce byte-for-byte the same total output, whatever their buffer
/// sizes were.  Each `Encoder::read` call realises exactly one `read_chunk`
/// step, so this holds of any two ways of driving the same encoder.
pub proof fn lemma_buffer_size_independence(total: Seq<u8>, a: Seq<int>, b: Seq<int>)
    requires
        forall|i: int| 0 <= i < a.len() ==> a[i] >= 0,
        forall|i: int| 0 <= i < b.len() ==> b[i] >= 0,
        drain_pos(total, 0, a) == total.len(),
        drain_pos(total, 0, b) == total.len(),
    ensures
        drain(total, 0, a) == drain(total, 0, b),
        drain(total, 0, a) == total,
{
    lemma_drain_subrange(total, 0, a);
    lemma_drain_subrange(total, 0, b);
    assert(total.subrange(0, total.len() as int) =~= total);
}

} // verus!
