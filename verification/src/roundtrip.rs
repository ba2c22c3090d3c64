//! The round-trip law: a message encoded with a fixed-length body decodes
//! back to the same head, the same wire header set and the same body bytes,
//! consuming exactly its own bytes.

use vstd::prelude::*;

use crate::bytes::{
    crlf, crlfcrlf, find_pat, lemma_boundary_after_line, lemma_find_pat_at, COLON, CR, LF, SP,
};
use crate::decode::{decode_request_spec, decode_response_spec};
use crate::encode::{
    date_name, dec_str, host_name, lemma_dec_str_val, lemma_ser_fields_cons, request_wire_fields,
    response_wire_fields, ser_field, ser_fields, ser_request_head, ser_response_head,
};
use crate::error::HttpError;
use crate::framing::{content_length_name, framing_spec, transfer_encoding_name, Framing};
use crate::headers::{has_name, last_value, name_matches, FieldsView};
use crate::parse::{
    http11, parse_field_line, parse_fields, parse_request_head, parse_request_line,
    parse_response_head, parse_status_line,
};

verus! {

/// A token fit for a request line: non-empty, free of CR, LF and spaces.
pub open spec fn token_ok(s: Seq<u8>) -> bool {
    s.len() > 0 && forall|i: int| 0 <= i < s.len() ==> s[i] != CR && s[i] != LF && s[i] != SP
}

/// A header name fit for the wire: non-empty, free of CR, LF and colons.
pub open spec fn name_ok(s: Seq<u8>) -> bool {
    s.len() > 0 && forall|i: int| 0 <= i < s.len() ==> s[i] != CR && s[i] != LF && s[i] != COLON
}

/// A header value fit for the wire: free of CR and LF.
pub open spec fn value_ok(s: Seq<u8>) -> bool {
    forall|i: int| 0 <= i < s.len() ==> s[i] != CR && s[i] != LF
}

/// Every field fit for the wire.
pub open spec fn fields_ok(hs: FieldsView) -> bool {
    forall|i: int| 0 <= i < hs.len() ==> name_ok(#[trigger] hs[i].0) && value_ok(hs[i].1)
}

/// The line a field serialises to is non-empty and CR-free.
proof fn lemma_field_line_ok(f: (Seq<u8>, Seq<u8>))
    requires
        name_ok(f.0),
        value_ok(f.1),
    ensures
        ({
            let fl = f.0 + seq![COLON, SP] + f.1;
            fl.len() > 0 && forall|i: int| 0 <= i < fl.len() ==> #[trigger] fl[i] != CR
        }),
{
    let fl = f.0 + seq![COLON, SP] + f.1;
    assert forall|i: int| 0 <= i < fl.len() implies #[trigger] fl[i] != CR by {
        if i < f.0.len() {
            assert(fl[i] == f.0[i]);
        } else if i < f.0.len() + 2 {
            assert(fl[i] == seq![COLON, SP][i - f.0.len()]);
        } else {
            assert(fl[i] == f.1[i - f.0.len() - 2]);
        }
    }
}

/// Where a CR-free line is followed by a serialised field block, the first
/// head boundary sits exactly at the block's final line terminator.
proof fn lemma_block_boundary(line: Seq<u8>, fs: FieldsView, body: Seq<u8>)
    requires
        line.len() > 0,
        forall|i: int| 0 <= i < line.len() ==> #[trigger] line[i] != CR,
        fields_ok(fs),
    ensures
        find_pat(line + crlf() + ser_fields(fs) + crlf() + body, crlfcrlf()) == Some(
            line.len() + ser_fields(fs).len() as int,
        ),
    decreases fs.len(),
{
    if fs.len() == 0 {
        let rest = crlf() + body;
        assert(line + crlf() + ser_fields(fs) + crlf() + body =~= line + crlf() + rest);
        lemma_boundary_after_line(line, rest);
        assert(rest[0] == CR && rest[1] == LF);
    } else {
        lemma_ser_fields_cons(fs);
        let f = fs[0];
        assert(name_ok(f.0) && value_ok(f.1));
        let fl = f.0 + seq![COLON, SP] + f.1;
        lemma_field_line_ok(f);
        assert(ser_field(f) =~= fl + crlf());
        let fs1 = fs.skip(1);
        assert(fields_ok(fs1)) by {
            assert(forall|i: int| 0 <= i < fs1.len() ==> #[trigger] fs1[i] == fs[i + 1]);
        }
        lemma_block_boundary(fl, fs1, body);
        let tail = fl + crlf() + ser_fields(fs1) + crlf() + body;
        assert(line + crlf() + ser_fields(fs) + crlf() + body =~= line + crlf() + tail);
        lemma_boundary_after_line(line, tail);
        assert(tail[0] == f.0[0]);
        assert(f.0[0] != CR);
        assert(ser_fields(fs).len() == fl.len() + 2 + ser_fields(fs1).len());
    }
}

/// A serialised field block followed by a blank line parses back to exactly
/// the fields it came from, consuming the whole block.
proof fn lemma_parse_ser_fields(fs: FieldsView)
    requires
        fields_ok(fs),
    ensures
        parse_fields(ser_fields(fs) + crlf()) == Some(
            (fs, ser_fields(fs).len() + 2 as int),
        ),
    decreases fs.len(),
{
    let s = ser_fields(fs) + crlf();
    if fs.len() == 0 {
        assert(s =~= crlf());
        assert(s.len() == 2 && s[0] == CR && s[1] == LF);
        assert(fs =~= Seq::<(Seq<u8>, Seq<u8>)>::empty());
    } else {
        lemma_ser_fields_cons(fs);
        let f = fs[0];
        assert(name_ok(f.0) && value_ok(f.1));
        let fl = f.0 + seq![COLON, SP] + f.1;
        lemma_field_line_ok(f);
        let fs1 = fs.skip(1);
        assert(fields_ok(fs1)) by {
            assert(forall|i: int| 0 <= i < fs1.len() ==> #[trigger] fs1[i] == fs[i + 1]);
        }
        let rest = ser_fields(fs1) + crlf();
        assert(ser_field(f) =~= fl + crlf());
        assert(s =~= fl + (crlf() + rest));
        assert((crlf() + rest).take(2) =~= crlf());
        lemma_find_pat_at(fl, crlf() + rest, crlf());
        assert(find_pat(s, crlf()) == Some(fl.len() as int));
        // The block does not start with a blank line.
        assert(s[0] == f.0[0] && f.0[0] != CR);
        // The line parses to the field it came from.
        assert(s.take(fl.len() as int) =~= fl);
        assert(fl =~= f.0 + (seq![COLON, SP] + f.1));
        assert((seq![COLON, SP] + f.1).take(1) =~= seq![COLON]);
        assert forall|i: int| 0 <= i < f.0.len() implies f.0[i] != seq![COLON][0] by {}
        lemma_find_pat_at(f.0, seq![COLON, SP] + f.1, seq![COLON]);
        assert(find_pat(fl, seq![COLON]) == Some(f.0.len() as int));
        let raw = fl.skip(f.0.len() + 1 as int);
        assert(raw =~= seq![SP] + f.1);
        assert(raw[0] == SP);
        assert(raw.skip(1) =~= f.1);
        assert(fl.take(f.0.len() as int) =~= f.0);
        assert(parse_field_line(fl) == Some((f.0, f.1)));
        // Recurse over the remaining fields.
        lemma_parse_ser_fields(fs1);
        assert(s.skip(fl.len() + 2 as int) =~= rest);
        assert(seq![f] + fs1 =~= fs);
        assert(ser_fields(fs).len() == fl.len() + 2 + ser_fields(fs1).len());
    }
}

/// The names the encoder adds are valid and distinct from
/// `transfer-encoding`.
proof fn lemma_builtin_names()
    ensures
        name_ok(host_name()),
        name_ok(content_length_name()),
        name_ok(date_name()),
        !name_matches(host_name(), transfer_encoding_name()),
        !name_matches(content_length_name(), transfer_encoding_name()),
        !name_matches(date_name(), transfer_encoding_name()),
        name_matches(content_length_name(), content_length_name()),
        !name_matches(date_name(), content_length_name()),
{
    assert(host_name().len() == 4 && transfer_encoding_name().len() == 17);
    assert(content_length_name().len() == 14 && date_name().len() == 4);
}

/// `last_value` ignores a suffix in which no name matches.
proof fn lemma_last_value_skip_suffix(a: FieldsView, b: FieldsView, name: Seq<u8>)
    requires
        forall|i: int| 0 <= i < b.len() ==> !name_matches(#[trigger] b[i].0, name),
    ensures
        last_value(a + b, name) == last_value(a, name),
    decreases b.len(),
{
    if b.len() == 0 {
        assert(a + b =~= a);
    } else {
        let w = a + b;
        assert(w.last() == b.last());
        assert(!name_matches(w.last().0, name));
        assert(w.drop_last() =~= a + b.drop_last());
        assert(forall|i: int|
            0 <= i < b.drop_last().len() ==> #[trigger] b.drop_last()[i] == b[i]);
        lemma_last_value_skip_suffix(a, b.drop_last(), name);
    }
}

/// Round trip: encoding a request with a fixed-length body and decoding the
/// bytes yields the same method and target, exactly the header set that
/// went onto the wire, the same body bytes, and consumes exactly the
/// message's own bytes.
#[verifier::rlimit(100)]
pub proof fn lemma_request_round_trip(
    method: Seq<u8>,
    target: Seq<u8>,
    host: Seq<u8>,
    date: Seq<u8>,
    hs: FieldsView,
    body: Seq<u8>,
)
    requires
        token_ok(method),
        token_ok(target),
        value_ok(host),
        value_ok(date),
        fields_ok(hs),
        !has_name(hs, content_length_name()),
        !has_name(hs, transfer_encoding_name()),
        body.len() <= usize::MAX,
    ensures
        ({
            let wire = request_wire_fields(host, body.len(), date, hs);
            let bytes = ser_request_head(method, target, wire) + body;
            decode_request_spec(bytes) == Ok::<
                (Seq<u8>, Seq<u8>, FieldsView, Seq<u8>, Option<FieldsView>, int),
                HttpError,
            >((method, target, wire, body, None::<FieldsView>, bytes.len() as int))
        }),
{
    let wire = request_wire_fields(host, body.len(), date, hs);
    let head = ser_request_head(method, target, wire);
    let bytes = head + body;
    let cl = (content_length_name(), dec_str(body.len()));
    let base: FieldsView = if has_name(hs, date_name()) {
        seq![(host_name(), host), cl]
    } else {
        seq![(host_name(), host), cl, (date_name(), date)]
    };
    assert(wire =~= base + hs);
    lemma_builtin_names();
    lemma_dec_str_val(body.len());
    // Every wire field is fit for the wire.
    assert(value_ok(dec_str(body.len()))) by {
        let d = dec_str(body.len());
        assert(forall|i: int| 0 <= i < d.len() ==> crate::bytes::is_digit(#[trigger] d[i]));
    }
    assert(fields_ok(wire)) by {
        assert forall|i: int| 0 <= i < wire.len() implies name_ok(#[trigger] wire[i].0)
            && value_ok(wire[i].1) by {
            if i >= base.len() {
                assert(wire[i] == hs[i - base.len()]);
            }
        }
    }
    // The head boundary sits exactly at the head's final line terminator.
    let line1 = method + seq![SP] + target + seq![SP] + http11();
    assert(line1.len() > 0);
    assert forall|i: int| 0 <= i < line1.len() implies #[trigger] line1[i] != CR by {
        if i < method.len() {
            assert(line1[i] == method[i]);
        } else if i == method.len() {
            assert(line1[i] == SP);
        } else if i < method.len() + 1 + target.len() {
            assert(line1[i] == target[i - method.len() - 1]);
        } else if i == method.len() + 1 + target.len() {
            assert(line1[i] == SP);
        } else {
            assert(line1[i] == http11()[i - method.len() - target.len() - 2]);
        }
    }
    lemma_block_boundary(line1, wire, body);
    assert(bytes =~= line1 + crlf() + ser_fields(wire) + crlf() + body);
    let b = line1.len() + ser_fields(wire).len() as int;
    assert(find_pat(bytes, crlfcrlf()) == Some(b));
    assert(head.len() == b + 4);
    assert(bytes.take(b + 4) =~= head);
    // The head parses back to the tokens and fields it came from.
    assert(head =~= line1 + (crlf() + (ser_fields(wire) + crlf())));
    assert((crlf() + (ser_fields(wire) + crlf())).take(2) =~= crlf());
    lemma_find_pat_at(line1, crlf() + (ser_fields(wire) + crlf()), crlf());
    assert(find_pat(head, crlf()) == Some(line1.len() as int));
    assert(head.take(line1.len() as int) =~= line1);
    let rest0 = seq![SP] + target + seq![SP] + http11();
    assert(line1 =~= method + rest0);
    assert(rest0.take(1) =~= seq![SP]);
    lemma_find_pat_at(method, rest0, seq![SP]);
    assert(find_pat(line1, seq![SP]) == Some(method.len() as int));
    let rest = line1.skip(method.len() + 1 as int);
    assert(rest =~= target + seq![SP] + http11());
    let rest1 = seq![SP] + http11();
    assert(rest =~= target + rest1);
    assert(rest1.take(1) =~= seq![SP]);
    lemma_find_pat_at(target, rest1, seq![SP]);
    assert(find_pat(rest, seq![SP]) == Some(target.len() as int));
    assert(line1.take(method.len() as int) =~= method);
    assert(rest.take(target.len() as int) =~= target);
    assert(rest.skip(target.len() + 1 as int) =~= http11());
    assert(parse_request_line(line1) == Some((method, target, http11())));
    lemma_parse_ser_fields(wire);
    assert(head.skip(line1.len() + 2 as int) =~= ser_fields(wire) + crlf());
    assert(parse_request_head(head) == Ok::<(Seq<u8>, Seq<u8>, FieldsView), HttpError>(
        (method, target, wire),
    ));
    // The framing is fixed at the body's length.
    assert(has_name(wire, content_length_name())) by {
        assert(wire[1] == cl);
        assert(name_matches(wire[1].0, content_length_name()));
    }
    assert(!has_name(wire, transfer_encoding_name())) by {
        assert forall|i: int| 0 <= i < wire.len() implies !name_matches(
            #[trigger] wire[i].0,
            transfer_encoding_name(),
        ) by {
            if i >= base.len() {
                assert(wire[i] == hs[i - base.len()]);
                if name_matches(wire[i].0, transfer_encoding_name()) {
                    assert(has_name(hs, transfer_encoding_name()));
                }
            }
        }
    }
    assert(last_value(wire, content_length_name()) == Some(dec_str(body.len()))) by {
        assert forall|i: int| 0 <= i < hs.len() implies !name_matches(
            #[trigger] hs[i].0,
            content_length_name(),
        ) by {
            if name_matches(hs[i].0, content_length_name()) {
                assert(has_name(hs, content_length_name()));
            }
        }
        lemma_last_value_skip_suffix(base, hs, content_length_name());
        assert(last_value(wire, content_length_name()) == last_value(base, content_length_name()));
        if has_name(hs, date_name()) {
            assert(base.last() == cl);
            assert(last_value(base, content_length_name()) == Some(cl.1));
        } else {
            assert(base.last() == (date_name(), date));
            let b2 = base.drop_last();
            assert(b2.last() == cl);
            assert(last_value(b2, content_length_name()) == Some(cl.1));
            assert(last_value(base, content_length_name()) == last_value(b2, content_length_name()));
        }
    }
    assert(framing_spec(wire) == Ok::<Framing, HttpError>(
        Framing::Fixed(body.len() as usize),
    ));
    // The fixed body is exactly the trailing bytes.
    assert(bytes.len() == b + 4 + body.len());
    assert(bytes.subrange(b + 4, b + 4 + body.len()) =~= body);
}

/// Round trip for responses: encoding a response with a fixed-length body
/// and decoding the bytes yields the same status and reason, exactly the
/// header set that went onto the wire, and the same body bytes.  The wire
/// set always carries a `date`, so the decoder synthesises none.
#[verifier::rlimit(100)]
pub proof fn lemma_response_round_trip(
    status: nat,
    reason: Seq<u8>,
    date: Seq<u8>,
    hs: FieldsView,
    body: Seq<u8>,
)
    requires
        100 <= status <= 599,
        value_ok(reason),
        value_ok(date),
        fields_ok(hs),
        !has_name(hs, content_length_name()),
        !has_name(hs, transfer_encoding_name()),
        body.len() <= usize::MAX,
    ensures
        ({
            let wire = response_wire_fields(body.len(), date, hs);
            let bytes = ser_response_head(status, reason, wire) + body;
            decode_response_spec(bytes, date) == Ok::<
                (int, Seq<u8>, FieldsView, Seq<u8>, Option<FieldsView>, int),
                HttpError,
            >((status as int, reason, wire, body, None::<FieldsView>, bytes.len() as int))
        }),
{
    let wire = response_wire_fields(body.len(), date, hs);
    let head = ser_response_head(status, reason, wire);
    let bytes = head + body;
    let cl = (content_length_name(), dec_str(body.len()));
    let base: FieldsView = if has_name(hs, date_name()) {
        seq![cl]
    } else {
        seq![cl, (date_name(), date)]
    };
    assert(wire =~= base + hs);
    lemma_builtin_names();
    lemma_dec_str_val(body.len());
    assert(value_ok(dec_str(body.len()))) by {
        let d = dec_str(body.len());
        assert(forall|i: int| 0 <= i < d.len() ==> crate::bytes::is_digit(#[trigger] d[i]));
    }
    assert(fields_ok(wire)) by {
        assert forall|i: int| 0 <= i < wire.len() implies name_ok(#[trigger] wire[i].0)
            && value_ok(wire[i].1) by {
            if i >= base.len() {
                assert(wire[i] == hs[i - base.len()]);
            }
        }
    }
    // Status codes render as three digits, so the status line is CR-free.
    lemma_dec_str_val(status);
    let code = dec_str(status);
    assert(code.len() == 3) by {
        reveal_with_fuel(dec_str, 4);
        assert(10 <= status / 10 < 60);
        assert(1 <= status / 10 / 10 < 6);
    }
    let line1 = http11() + seq![SP] + code + seq![SP] + reason;
    assert(line1.len() > 0);
    assert forall|i: int| 0 <= i < line1.len() implies #[trigger] line1[i] != CR by {
        if i < http11().len() {
            assert(line1[i] == http11()[i]);
        } else if i == http11().len() {
            assert(line1[i] == SP);
        } else if i < http11().len() + 1 + code.len() {
            assert(line1[i] == code[i - http11().len() - 1]);
            assert(crate::bytes::is_digit(code[i - http11().len() - 1]));
        } else if i == http11().len() + 1 + code.len() {
            assert(line1[i] == SP);
        } else {
            assert(line1[i] == reason[i - http11().len() - code.len() - 2]);
        }
    }
    lemma_block_boundary(line1, wire, body);
    assert(bytes =~= line1 + crlf() + ser_fields(wire) + crlf() + body);
    let b = line1.len() + ser_fields(wire).len() as int;
    assert(find_pat(bytes, crlfcrlf()) == Some(b));
    assert(head.len() == b + 4);
    assert(bytes.take(b + 4) =~= head);
    // The status line parses back to its tokens.
    assert(head =~= line1 + (crlf() + (ser_fields(wire) + crlf())));
    assert((crlf() + (ser_fields(wire) + crlf())).take(2) =~= crlf());
    lemma_find_pat_at(line1, crlf() + (ser_fields(wire) + crlf()), crlf());
    assert(find_pat(head, crlf()) == Some(line1.len() as int));
    assert(head.take(line1.len() as int) =~= line1);
    let rest0 = seq![SP] + code + seq![SP] + reason;
    assert(line1 =~= http11() + rest0);
    assert(rest0.take(1) =~= seq![SP]);
    assert forall|i: int| 0 <= i < http11().len() implies http11()[i] != seq![SP][0] by {}
    lemma_find_pat_at(http11(), rest0, seq![SP]);
    assert(find_pat(line1, seq![SP]) == Some(http11().len() as int));
    let rest = line1.skip(http11().len() + 1 as int);
    assert(rest =~= code + seq![SP] + reason);
    let rest1 = seq![SP] + reason;
    assert(rest =~= code + rest1);
    assert(rest1.take(1) =~= seq![SP]);
    assert forall|i: int| 0 <= i < code.len() implies code[i] != seq![SP][0] by {
        assert(crate::bytes::is_digit(code[i]));
    }
    lemma_find_pat_at(code, rest1, seq![SP]);
    assert(find_pat(rest, seq![SP]) == Some(code.len() as int));
    assert(line1.take(http11().len() as int) =~= http11());
    assert(rest.take(code.len() as int) =~= code);
    assert(rest.skip(code.len() + 1 as int) =~= reason);
    assert(parse_status_line(line1) == Some((http11(), code, reason)));
    lemma_parse_ser_fields(wire);
    assert(head.skip(line1.len() + 2 as int) =~= ser_fields(wire) + crlf());
    assert(parse_response_head(head) == Ok::<(int, Seq<u8>, FieldsView), HttpError>(
        (status as int, reason, wire),
    ));
    // The wire set always carries a date, so none is synthesised.
    assert(has_name(wire, date_name())) by {
        if has_name(hs, date_name()) {
            let j = choose|j: int| 0 <= j < hs.len() && name_matches(hs[j].0, date_name());
            assert(wire[base.len() + j] == hs[j]);
            assert(name_matches(wire[base.len() + j].0, date_name()));
        } else {
            assert(wire[1] == (date_name(), date));
            assert(name_matches(wire[1].0, date_name()));
        }
    }
    // The framing is fixed at the body's length.
    assert(has_name(wire, content_length_name())) by {
        assert(wire[0] == cl);
        assert(name_matches(wire[0].0, content_length_name()));
    }
    assert(!has_name(wire, transfer_encoding_name())) by {
        assert forall|i: int| 0 <= i < wire.len() implies !name_matches(
            #[trigger] wire[i].0,
            transfer_encoding_name(),
        ) by {
            if i >= base.len() {
                assert(wire[i] == hs[i - base.len()]);
                if name_matches(wire[i].0, transfer_encoding_name()) {
                    assert(has_name(hs, transfer_encoding_name()));
                }
            }
        }
    }
    assert(last_value(wire, content_length_name()) == Some(dec_str(body.len()))) by {
        assert forall|i: int| 0 <= i < hs.len() implies !name_matches(
            #[trigger] hs[i].0,
            content_length_name(),
        ) by {
            if name_matches(hs[i].0, content_length_name()) {
                assert(has_name(hs, content_length_name()));
            }
        }
        lemma_last_value_skip_suffix(base, hs, content_length_name());
        assert(last_value(wire, content_length_name()) == last_value(base, content_length_name()));
        if has_name(hs, date_name()) {
            assert(base.last() == cl);
            assert(last_value(base, content_length_name()) == Some(cl.1));
        } else {
            assert(base.last() == (date_name(), date));
            let b2 = base.drop_last();
            assert(b2.last() == cl);
            assert(last_value(b2, content_length_name()) == Some(cl.1));
            assert(last_value(base, content_length_name()) == last_value(b2, content_length_name()));
        }
    }
    assert(framing_spec(wire) == Ok::<Framing, HttpError>(
        Framing::Fixed(body.len() as usize),
    ));
    assert(bytes.len() == b + 4 + body.len());
    assert(bytes.subrange(b + 4, b + 4 + body.len()) =~= body);
}

} // verus!
