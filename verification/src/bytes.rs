//! Byte-level primitives: pattern search and integer parsing.
//!
//! The wire grammar is defined over byte sequences; this module holds the
//! spec-level notion of "first occurrence of a pattern" together with the
//! lemmas that let the parser reason about serialised lines, and the
//! verified decimal and hexadecimal number parsers.

use vstd::prelude::*;

verus! {

pub const CR: u8 = 13;
pub const LF: u8 = 10;
pub const SP: u8 = 32;
pub const COLON: u8 = 58;
pub const SEMICOLON: u8 = 59;
pub const ZERO: u8 = 48;

/// The two-byte line terminator.
pub open spec fn crlf() -> Seq<u8> {
    seq![CR, LF]
}

/// The four-byte head boundary: a line terminator followed by a blank line.
pub open spec fn crlfcrlf() -> Seq<u8> {
    seq![CR, LF, CR, LF]
}

/// Index of the first occurrence of `pat` as a contiguous subsequence of `s`.
pub open spec fn find_pat(s: Seq<u8>, pat: Seq<u8>) -> Option<int>
    decreases s.len(),
{
    if pat.len() == 0 {
        Some(0)
    } else if s.len() < pat.len() {
        None
    } else if s.take(pat.len() as int) == pat {
        Some(0)
    } else {
        match find_pat(s.skip(1), pat) {
            Some(i) => Some(i + 1),
            None => None,
        }
    }
}

/// A prefix free of the pattern's first byte shifts the first match.
pub proof fn lemma_find_pat_skip_prefix(a: Seq<u8>, rest: Seq<u8>, pat: Seq<u8>)
    requires
        pat.len() > 0,
        forall|i: int| 0 <= i < a.len() ==> a[i] != pat[0],
    ensures
        find_pat(a + rest, pat) == match find_pat(rest, pat) {
            Some(i) => Some(i + a.len() as int),
            None => None::<int>,
        },
    decreases a.len(),
{
    let n = pat.len() as int;
    if a.len() == 0 {
        assert(a + rest =~= rest);
    } else {
        lemma_find_pat_skip_prefix(a.skip(1), rest, pat);
        let s = a + rest;
        assert(s.skip(1) =~= a.skip(1) + rest);
        if s.len() >= pat.len() {
            assert(s.take(n)[0] == a[0]);
            assert(s.take(n) != pat);
        } else {
            assert(rest.len() < pat.len());
        }
    }
}

/// Where the input begins with a pattern-first-byte-free prefix followed by
/// the pattern itself, the first match sits exactly at the prefix's end.
pub proof fn lemma_find_pat_at(a: Seq<u8>, rest: Seq<u8>, pat: Seq<u8>)
    requires
        pat.len() > 0,
        forall|i: int| 0 <= i < a.len() ==> a[i] != pat[0],
        rest.len() >= pat.len(),
        rest.take(pat.len() as int) == pat,
    ensures
        find_pat(a + rest, pat) == Some(a.len() as int),
{
    lemma_find_pat_skip_prefix(a, rest, pat);
}

/// Stepping the head-boundary search over one serialised line: a CR-free,
/// non-empty line plus its terminator either completes the boundary (when a
/// second terminator follows at once) or shifts the search past itself.
pub proof fn lemma_boundary_after_line(line: Seq<u8>, rest: Seq<u8>)
    requires
        line.len() > 0,
        forall|i: int| 0 <= i < line.len() ==> line[i] != CR,
    ensures
        find_pat(line + crlf() + rest, crlfcrlf()) == if rest.len() >= 2 && rest[0] == CR
            && rest[1] == LF {
            Some(line.len() as int)
        } else {
            match find_pat(rest, crlfcrlf()) {
                Some(i) => Some(i + line.len() + 2),
                None => None::<int>,
            }
        },
{
    let p4 = crlfcrlf();
    let tail = crlf() + rest;
    assert(line + crlf() + rest =~= line + tail);
    lemma_find_pat_skip_prefix(line, tail, p4);
    if tail.len() >= 4 && tail.take(4) == p4 {
        assert(rest.len() >= 2 && rest[0] == CR && rest[1] == LF);
    } else {
        if rest.len() >= 2 && rest[0] == CR && rest[1] == LF {
            assert(tail.take(4) =~= p4);
        }
        // The terminator's two bytes cannot start the boundary here.
        if tail.len() >= 4 {
            assert(tail.skip(1) =~= seq![LF] + rest);
            lemma_find_pat_skip_prefix(seq![LF], rest, p4);
        } else {
            assert(rest.len() < 4);
            lemma_find_pat_skip_prefix(seq![LF], rest, p4);
            assert(tail.skip(1) =~= seq![LF] + rest);
        }
    }
}

pub open spec fn is_digit(b: u8) -> bool {
    48 <= b <= 57
}

pub open spec fn digit_val(b: u8) -> nat {
    (b - 48) as nat
}

/// A non-empty, all-decimal-digit byte sequence.
pub open spec fn is_dec(s: Seq<u8>) -> bool {
    s.len() > 0 && forall|i: int| 0 <= i < s.len() ==> is_digit(s[i])
}

/// The number a decimal digit sequence denotes.
pub open spec fn dec_val(s: Seq<u8>) -> nat
    decreases s.len(),
{
    if s.len() == 0 {
        0
    } else {
        dec_val(s.drop_last()) * 10 + digit_val(s.last())
    }
}

pub open spec fn is_hex_digit(b: u8) -> bool {
    is_digit(b) || 97 <= b <= 102 || 65 <= b <= 70
}

pub open spec fn hex_digit_val(b: u8) -> nat {
    if is_digit(b) {
        (b - 48) as nat
    } else if 97 <= b <= 102 {
        (b - 87) as nat
    } else {
        (b - 55) as nat
    }
}

/// A non-empty, all-hexadecimal-digit byte sequence.
pub open spec fn is_hex(s: Seq<u8>) -> bool {
    s.len() > 0 && forall|i: int| 0 <= i < s.len() ==> is_hex_digit(s[i])
}

/// The number a hexadecimal digit sequence denotes.
pub open spec fn hex_val(s: Seq<u8>) -> nat
    decreases s.len(),
{
    if s.len() == 0 {
        0
    } else {
        hex_val(s.drop_last()) * 16 + hex_digit_val(s.last())
    }
}

pub open spec fn pow(base: nat, e: nat) -> nat
    decreases e,
{
    if e == 0 {
        1
    } else {
        base * pow(base, (e - 1) as nat)
    }
}

/// A digit string's value stays under `base ^ length`.
pub proof fn lemma_val_upper(s: Seq<u8>, base: nat)
    requires
        base == 10 || base == 16,
        base == 10 ==> forall|i: int| 0 <= i < s.len() ==> is_digit(s[i]),
        base == 16 ==> forall|i: int| 0 <= i < s.len() ==> is_hex_digit(s[i]),
    ensures
        base == 10 ==> dec_val(s) < pow(10, s.len()),
        base == 16 ==> hex_val(s) < pow(16, s.len()),
    decreases s.len(),
{
    if s.len() == 0 {
        assert(pow(base, 0) == 1);
    } else {
        let d = s.drop_last();
        assert(forall|i: int| 0 <= i < d.len() ==> d[i] == s[i]);
        lemma_val_upper(d, base);
        assert(pow(base, s.len()) == base * pow(base, (s.len() - 1) as nat));
        if base == 10 {
            assert(digit_val(s.last()) <= 9);
            assert(dec_val(d) * 10 <= (pow(10, (s.len() - 1) as nat) - 1) * 10)
                by (nonlinear_arith)
                requires
                    dec_val(d) <= pow(10, (s.len() - 1) as nat) - 1,
            ;
        } else {
            assert(hex_digit_val(s.last()) <= 15);
            assert(hex_val(d) * 16 <= (pow(16, (s.len() - 1) as nat) - 1) * 16)
                by (nonlinear_arith)
                requires
                    hex_val(d) <= pow(16, (s.len() - 1) as nat) - 1,
            ;
        }
    }
}

/// A digit string without a leading zero is at least `base ^ (length - 1)`.
pub proof fn lemma_val_lower(s: Seq<u8>, base: nat)
    requires
        base == 10 || base == 16,
        s.len() > 0,
        s[0] != ZERO,
        base == 10 ==> is_dec(s),
        base == 16 ==> is_hex(s),
    ensures
        base == 10 ==> dec_val(s) >= pow(10, (s.len() - 1) as nat),
        base == 16 ==> hex_val(s) >= pow(16, (s.len() - 1) as nat),
    decreases s.len(),
{
    if s.len() == 1 {
    } else {
        let d = s.drop_last();
        assert(d[0] == s[0]);
        assert(forall|i: int| 0 <= i < d.len() ==> d[i] == s[i]);
        lemma_val_lower(d, base);
        if base == 10 {
            assert(dec_val(d) * 10 >= pow(10, (d.len() - 1) as nat) * 10) by (nonlinear_arith)
                requires
                    dec_val(d) >= pow(10, (d.len() - 1) as nat),
            ;
        } else {
            assert(hex_val(d) * 16 >= pow(16, (d.len() - 1) as nat) * 16) by (nonlinear_arith)
                requires
                    hex_val(d) >= pow(16, (d.len() - 1) as nat),
            ;
        }
    }
}

/// A leading zero does not change a digit string's value.
pub proof fn lemma_leading_zero(s: Seq<u8>)
    requires
        s.len() > 0,
        s[0] == ZERO,
    ensures
        dec_val(s) == dec_val(s.skip(1)),
        hex_val(s) == hex_val(s.skip(1)),
    decreases s.len(),
{
    if s.len() == 1 {
        assert(s.skip(1) =~= Seq::<u8>::empty());
        assert(s.drop_last() =~= Seq::<u8>::empty());
    } else {
        let d = s.drop_last();
        assert(d[0] == ZERO);
        lemma_leading_zero(d);
        assert(s.skip(1).drop_last() =~= d.skip(1));
        assert(s.skip(1).last() == s.last());
    }
}

/// Byte-level characterisation of the first CRLF pair.
pub proof fn lemma_find_crlf_char(s: Seq<u8>)
    ensures
        match find_pat(s, crlf()) {
            Some(i) => 0 <= i && i + 2 <= s.len() && s[i] == CR && s[i + 1] == LF && forall|j: int|
                0 <= j < i ==> !(#[trigger] s[j] == CR && s[j + 1] == LF),
            None => forall|j: int| 0 <= j && j + 2 <= s.len() ==> !(#[trigger] s[j] == CR && s[j + 1] == LF),
        },
    decreases s.len(),
{
    let pat = crlf();
    if s.len() < 2 {
    } else if s.take(2) == pat {
    } else {
        assert(!(s[0] == CR && s[1] == LF)) by {
            if s[0] == CR && s[1] == LF {
                assert(s.take(2) =~= pat);
            }
        }
        lemma_find_crlf_char(s.skip(1));
        match find_pat(s.skip(1), pat) {
            Some(i) => {
                assert(s[i + 1] == s.skip(1)[i]);
                assert(s[i + 2] == s.skip(1)[i + 1]);
                assert forall|j: int| 0 <= j < i + 1 implies !(#[trigger] s[j] == CR && s[j + 1]
                    == LF) by {
                    if j > 0 {
                        assert(s[j] == s.skip(1)[j - 1]);
                        assert(s[j + 1] == s.skip(1)[j]);
                    }
                }
            },
            None => {
                assert forall|j: int| 0 <= j && j + 2 <= s.len() implies !(#[trigger] s[j] == CR
                    && s[j + 1] == LF) by {
                    if j > 0 {
                        assert(s[j] == s.skip(1)[j - 1]);
                        assert(s[j + 1] == s.skip(1)[j]);
                    }
                }
            },
        }
    }
}

/// Byte-level characterisation of the first head boundary.
pub proof fn lemma_find_boundary_char(s: Seq<u8>)
    ensures
        match find_pat(s, crlfcrlf()) {
            Some(i) => 0 <= i && i + 4 <= s.len() && s[i] == CR && s[i + 1] == LF && s[i + 2] == CR
                && s[i + 3] == LF && forall|j: int|
                0 <= j < i ==> !(#[trigger] s[j] == CR && s[j + 1] == LF && s[j + 2] == CR && s[j
                    + 3] == LF),
            None => forall|j: int|
                0 <= j && j + 4 <= s.len() ==> !(#[trigger] s[j] == CR && s[j + 1] == LF && s[j
                    + 2] == CR && s[j + 3] == LF),
        },
    decreases s.len(),
{
    let pat = crlfcrlf();
    if s.len() < 4 {
    } else if s.take(4) == pat {
    } else {
        assert(!(s[0] == CR && s[1] == LF && s[2] == CR && s[3] == LF)) by {
            if s[0] == CR && s[1] == LF && s[2] == CR && s[3] == LF {
                assert(s.take(4) =~= pat);
            }
        }
        lemma_find_boundary_char(s.skip(1));
        match find_pat(s.skip(1), pat) {
            Some(i) => {
                assert(s[i + 1] == s.skip(1)[i]);
                assert(s[i + 2] == s.skip(1)[i + 1]);
                assert(s[i + 3] == s.skip(1)[i + 2]);
                assert(s[i + 4] == s.skip(1)[i + 3]);
                assert forall|j: int| 0 <= j < i + 1 implies !(#[trigger] s[j] == CR && s[j + 1]
                    == LF && s[j + 2] == CR && s[j + 3] == LF) by {
                    if j > 0 {
                        assert(s[j] == s.skip(1)[j - 1]);
                        assert(s[j + 1] == s.skip(1)[j]);
                        assert(s[j + 2] == s.skip(1)[j + 1]);
                        assert(s[j + 3] == s.skip(1)[j + 2]);
                    }
                }
            },
            None => {
                assert forall|j: int| 0 <= j && j + 4 <= s.len() implies !(#[trigger] s[j] == CR
                    && s[j + 1] == LF && s[j + 2] == CR && s[j + 3] == LF) by {
                    if j > 0 {
                        assert(s[j] == s.skip(1)[j - 1]);
                        assert(s[j + 1] == s.skip(1)[j]);
                        assert(s[j + 2] == s.skip(1)[j + 1]);
                        assert(s[j + 3] == s.skip(1)[j + 2]);
                    }
                }
            },
        }
    }
}

/// Byte-level characterisation of the first occurrence of a single byte.
pub proof fn lemma_find_byte_char(s: Seq<u8>, b: u8)
    ensures
        match find_pat(s, seq![b]) {
            Some(i) => 0 <= i < s.len() && s[i] == b && forall|j: int|
                0 <= j < i ==> #[trigger] s[j] != b,
            None => forall|j: int| 0 <= j < s.len() ==> #[trigger] s[j] != b,
        },
    decreases s.len(),
{
    let pat = seq![b];
    if s.len() < 1 {
    } else if s.take(1) == pat {
        assert(s[0] == s.take(1)[0]);
    } else {
        assert(s[0] != b) by {
            if s[0] == b {
                assert(s.take(1) =~= pat);
            }
        }
        lemma_find_byte_char(s.skip(1), b);
        match find_pat(s.skip(1), pat) {
            Some(i) => {
                assert(s[i + 1] == s.skip(1)[i]);
                assert forall|j: int| 0 <= j < i + 1 implies #[trigger] s[j] != b by {
                    if j > 0 {
                        assert(s[j] == s.skip(1)[j - 1]);
                    }
                }
            },
            None => {
                assert forall|j: int| 0 <= j < s.len() implies #[trigger] s[j] != b by {
                    if j > 0 {
                        assert(s[j] == s.skip(1)[j - 1]);
                    }
                }
            },
        }
    }
}

/// Search `v[from..to]` for the first CRLF pair wholly inside the range.
pub fn find_crlf_in(v: &Vec<u8>, from: usize, to: usize) -> (r: Option<usize>)
    requires
        from <= to <= v.len(),
    ensures
        ({
            let s = v@.subrange(from as int, to as int);
            match r {
                Some(i) => from <= i && find_pat(s, crlf()) == Some(i - from),
                None => find_pat(s, crlf()) == None::<int>,
            }
        }),
{
    let ghost s = v@.subrange(from as int, to as int);
    let mut i: usize = from;
    while to - i >= 2
        invariant
            from <= i <= to <= v.len(),
            s == v@.subrange(from as int, to as int),
            forall|j: int| from <= j < i ==> !(#[trigger] v@[j] == CR && v@[j + 1] == LF),
        decreases to - i,
    {
        if v[i] == CR && v[i + 1] == LF {
            proof {
                lemma_find_crlf_char(s);
                assert(s[i - from] == v@[i as int]);
                assert(s[i - from + 1] == v@[i + 1]);
                match find_pat(s, crlf()) {
                    Some(k) => {
                        if k < i - from {
                            assert(v@[from + k] == s[k]);
                            assert(v@[from + k + 1] == s[k + 1]);
                        }
                    },
                    None => {},
                }
            }
            return Some(i);
        }
        i = i + 1;
    }
    proof {
        lemma_find_crlf_char(s);
        match find_pat(s, crlf()) {
            Some(k) => {
                assert(v@[from + k] == s[k]);
                assert(v@[from + k + 1] == s[k + 1]);
            },
            None => {},
        }
    }
    None
}

/// Search `v[from..to]` for the first head boundary (CRLF CRLF) wholly
/// inside the range.
pub fn find_boundary_in(v: &Vec<u8>, from: usize, to: usize) -> (r: Option<usize>)
    requires
        from <= to <= v.len(),
    ensures
        ({
            let s = v@.subrange(from as int, to as int);
            match r {
                Some(i) => from <= i && find_pat(s, crlfcrlf()) == Some(i - from),
                None => find_pat(s, crlfcrlf()) == None::<int>,
            }
        }),
{
    let ghost s = v@.subrange(from as int, to as int);
    let mut i: usize = from;
    while to - i >= 4
        invariant
            from <= i <= to <= v.len(),
            s == v@.subrange(from as int, to as int),
            forall|j: int|
                from <= j < i ==> !(#[trigger] v@[j] == CR && v@[j + 1] == LF && v@[j + 2] == CR
                    && v@[j + 3] == LF),
        decreases to - i,
    {
        if v[i] == CR && v[i + 1] == LF && v[i + 2] == CR && v[i + 3] == LF {
            proof {
                lemma_find_boundary_char(s);
                assert(s[i - from] == v@[i as int]);
                assert(s[i - from + 1] == v@[i + 1]);
                assert(s[i - from + 2] == v@[i + 2]);
                assert(s[i - from + 3] == v@[i + 3]);
                match find_pat(s, crlfcrlf()) {
                    Some(k) => {
                        if k < i - from {
                            assert(v@[from + k] == s[k]);
                            assert(v@[from + k + 1] == s[k + 1]);
                            assert(v@[from + k + 2] == s[k + 2]);
                            assert(v@[from + k + 3] == s[k + 3]);
                        }
                    },
                    None => {},
                }
            }
            return Some(i);
        }
        i = i + 1;
    }
    proof {
        lemma_find_boundary_char(s);
        match find_pat(s, crlfcrlf()) {
            Some(k) => {
                assert(v@[from + k] == s[k]);
                assert(v@[from + k + 1] == s[k + 1]);
                assert(v@[from + k + 2] == s[k + 2]);
                assert(v@[from + k + 3] == s[k + 3]);
            },
            None => {},
        }
    }
    None
}

/// Search `v[from..to]` for the first occurrence of the byte `b`.
pub fn find_byte_in(v: &Vec<u8>, from: usize, to: usize, b: u8) -> (r: Option<usize>)
    requires
        from <= to <= v.len(),
    ensures
        ({
            let s = v@.subrange(from as int, to as int);
            match r {
                Some(i) => from <= i && find_pat(s, seq![b]) == Some(i - from),
                None => find_pat(s, seq![b]) == None::<int>,
            }
        }),
{
    let ghost s = v@.subrange(from as int, to as int);
    let mut i: usize = from;
    while i < to
        invariant
            from <= i <= to <= v.len(),
            s == v@.subrange(from as int, to as int),
            forall|j: int| from <= j < i ==> #[trigger] v@[j] != b,
        decreases to - i,
    {
        if v[i] == b {
            proof {
                lemma_find_byte_char(s, b);
                assert(s[i - from] == v@[i as int]);
                match find_pat(s, seq![b]) {
                    Some(k) => {
                        if k < i - from {
                            assert(v@[from + k] == s[k]);
                        }
                    },
                    None => {},
                }
            }
            return Some(i);
        }
        i = i + 1;
    }
    proof {
        lemma_find_byte_char(s, b);
        match find_pat(s, seq![b]) {
            Some(k) => {
                assert(v@[from + k] == s[k]);
            },
            None => {},
        }
    }
    None
}

/// Exponentiation is monotone in the exponent for bases of at least one.
pub proof fn lemma_pow_mono(base: nat, a: nat, b: nat)
    requires
        base >= 1,
        a <= b,
    ensures
        pow(base, a) <= pow(base, b),
    decreases b,
{
    if a < b {
        lemma_pow_mono(base, a, (b - 1) as nat);
        assert(pow(base, b) == base * pow(base, (b - 1) as nat));
        assert(base * pow(base, (b - 1) as nat) >= 1 * pow(base, (b - 1) as nat))
            by (nonlinear_arith)
            requires
                base >= 1,
                pow(base, (b - 1) as nat) >= 0,
        ;
    }
}

/// Dropping leading zeros does not change a digit string's value.
pub proof fn lemma_skip_zeros(s: Seq<u8>, k: int)
    requires
        0 <= k <= s.len(),
        forall|i: int| 0 <= i < k ==> s[i] == ZERO,
    ensures
        dec_val(s.skip(k)) == dec_val(s),
        hex_val(s.skip(k)) == hex_val(s),
    decreases k,
{
    if k == 0 {
        assert(s.skip(0) =~= s);
    } else {
        lemma_leading_zero(s);
        lemma_skip_zeros(s.skip(1), k - 1);
        assert(s.skip(1).skip(k - 1) =~= s.skip(k));
    }
}

/// The concrete powers the number parsers compare against.
pub proof fn lemma_pow_values()
    ensures
        pow(10, 19) == 10000000000000000000,
        pow(10, 20) == 100000000000000000000,
        pow(16, 15) == 1152921504606846976,
        pow(16, 16) == 18446744073709551616,
{
    reveal_with_fuel(pow, 21);
}

/// Parse `v[from..to]` as an unsigned decimal integer.  `None` means the
/// range is not a digit string or its value does not fit in `usize`.
pub fn parse_dec_range(v: &Vec<u8>, from: usize, to: usize) -> (r: Option<usize>)
    requires
        from <= to <= v.len(),
    ensures
        ({
            let s = v@.subrange(from as int, to as int);
            match r {
                Some(n) => is_dec(s) && n == dec_val(s),
                None => !is_dec(s) || dec_val(s) > usize::MAX,
            }
        }),
{
    let ghost s = v@.subrange(from as int, to as int);
    if from == to {
        return None;
    }
    let mut start: usize = from;
    while start < to && v[start] == ZERO
        invariant
            from <= start <= to <= v.len(),
            s == v@.subrange(from as int, to as int),
            forall|j: int| from <= j < start ==> v@[j] == ZERO,
        decreases to - start,
    {
        start = start + 1;
    }
    proof {
        lemma_skip_zeros(s, start - from);
        assert(s.skip(start - from) =~= v@.subrange(start as int, to as int));
    }
    let ghost tail = v@.subrange(start as int, to as int);
    if start == to {
        // Every byte was a zero digit.
        proof {
            assert(forall|i: int| 0 <= i < s.len() ==> s[i] == v@[from + i] && is_digit(s[i]));
        }
        return Some(0);
    }
    if to - start > 20 {
        // Even the smallest 21-digit value exceeds any machine word.
        proof {
            if is_dec(s) {
                assert(forall|i: int| 0 <= i < tail.len() ==> tail[i] == s[start - from + i]);
                lemma_val_lower(tail, 10);
                lemma_pow_mono(10, 20, (tail.len() - 1) as nat);
                lemma_pow_values();
            }
        }
        return None;
    }
    let mut acc: u128 = 0;
    let mut i: usize = start;
    proof {
        lemma_pow_values();
    }
    while i < to
        invariant
            from <= start <= i <= to <= v.len(),
            to - start <= 20,
            s == v@.subrange(from as int, to as int),
            tail == v@.subrange(start as int, to as int),
            forall|j: int| 0 <= j < i - start ==> is_digit(#[trigger] tail[j]),
            acc == dec_val(tail.take(i - start)),
            acc < pow(10, (i - start) as nat),
            pow(10, 20) == 100000000000000000000,
        decreases to - i,
    {
        let d = v[i];
        if d < 48 || d > 57 {
            proof {
                assert(s[i - from] == v@[i as int]);
            }
            return None;
        }
        proof {
            lemma_pow_mono(10, (i - start) as nat, 19);
            lemma_pow_values();
            let w = tail.take(i + 1 - start);
            assert(w.drop_last() =~= tail.take(i - start));
            assert(w.last() == v@[i as int]);
            assert(pow(10, (i + 1 - start) as nat) == 10 * pow(10, (i - start) as nat));
        }
        acc = acc * 10 + ((d - 48) as u128);
        i = i + 1;
    }
    proof {
        assert(tail.take(to - start) =~= tail);
        assert forall|j: int| 0 <= j < s.len() implies is_digit(#[trigger] s[j]) by {
            if j < start - from {
                assert(s[j] == v@[from + j]);
            } else {
                assert(s[j] == tail[j - (start - from)]);
                assert(is_digit(tail[j - (start - from)]));
            }
        }
        assert(is_dec(s));
    }
    if acc > (usize::MAX as u128) {
        return None;
    }
    Some(acc as usize)
}

/// Parse `v[from..to]` as an unsigned hexadecimal integer.  `None` means
/// the range is not a hex-digit string or its value does not fit in `usize`.
pub fn parse_hex_range(v: &Vec<u8>, from: usize, to: usize) -> (r: Option<usize>)
    requires
        from <= to <= v.len(),
    ensures
        ({
            let s = v@.subrange(from as int, to as int);
            match r {
                Some(n) => is_hex(s) && n == hex_val(s),
                None => !is_hex(s) || hex_val(s) > usize::MAX,
            }
        }),
{
    let ghost s = v@.subrange(from as int, to as int);
    if from == to {
        return None;
    }
    let mut start: usize = from;
    while start < to && v[start] == ZERO
        invariant
            from <= start <= to <= v.len(),
            s == v@.subrange(from as int, to as int),
            forall|j: int| from <= j < start ==> v@[j] == ZERO,
        decreases to - start,
    {
        start = start + 1;
    }
    proof {
        lemma_skip_zeros(s, start - from);
        assert(s.skip(start - from) =~= v@.subrange(start as int, to as int));
    }
    let ghost tail = v@.subrange(start as int, to as int);
    if start == to {
        // Every byte was a zero digit.
        proof {
            assert(forall|i: int| 0 <= i < s.len() ==> s[i] == v@[from + i] && is_hex_digit(s[i]));
        }
        return Some(0);
    }
    if to - start > 16 {
        // Even the smallest 17-hex-digit value exceeds any machine word.
        proof {
            if is_hex(s) {
                assert(forall|i: int| 0 <= i < tail.len() ==> tail[i] == s[start - from + i]);
                lemma_val_lower(tail, 16);
                lemma_pow_mono(16, 16, (tail.len() - 1) as nat);
                lemma_pow_values();
            }
        }
        return None;
    }
    let mut acc: u64 = 0;
    let mut i: usize = start;
    proof {
        lemma_pow_values();
    }
    while i < to
        invariant
            from <= start <= i <= to <= v.len(),
            to - start <= 16,
            s == v@.subrange(from as int, to as int),
            tail == v@.subrange(start as int, to as int),
            forall|j: int| 0 <= j < i - start ==> is_hex_digit(#[trigger] tail[j]),
            acc == hex_val(tail.take(i - start)),
            acc < pow(16, (i - start) as nat),
            pow(16, 16) == 18446744073709551616,
        decreases to - i,
    {
        let d = v[i];
        let dv: u64 = if 48 <= d && d <= 57 {
            (d - 48) as u64
        } else if 97 <= d && d <= 102 {
            (d - 87) as u64
        } else if 65 <= d && d <= 70 {
            (d - 55) as u64
        } else {
            proof {
                assert(s[i - from] == v@[i as int]);
            }
            return None;
        };
        proof {
            lemma_pow_mono(16, (i - start) as nat, 15);
            lemma_pow_values();
            let w = tail.take(i + 1 - start);
            assert(w.drop_last() =~= tail.take(i - start));
            assert(w.last() == v@[i as int]);
            assert(pow(16, (i + 1 - start) as nat) == 16 * pow(16, (i - start) as nat));
        }
        acc = acc * 16 + dv;
        i = i + 1;
    }
    proof {
        assert(tail.take(to - start) =~= tail);
        assert forall|j: int| 0 <= j < s.len() implies is_hex_digit(#[trigger] s[j]) by {
            if j < start - from {
                assert(s[j] == v@[from + j]);
            } else {
                assert(s[j] == tail[j - (start - from)]);
                assert(is_hex_digit(tail[j - (start - from)]));
            }
        }
        assert(is_hex(s));
    }
    if acc > (usize::MAX as u64) {
        return None;
    }
    Some(acc as usize)
}

/// Exact byte-sequence equality of two vectors.
pub fn bytes_equal(a: &Vec<u8>, b: &Vec<u8>) -> (r: bool)
    ensures
        r == (a@ == b@),
{
    if a.len() != b.len() {
        return false;
    }
    let mut i: usize = 0;
    while i < a.len()
        invariant
            i <= a.len(),
            a@.len() == b@.len(),
            forall|j: int| 0 <= j < i ==> a@[j] == b@[j],
        decreases a.len() - i,
    {
        if a[i] != b[i] {
            return false;
        }
        i = i + 1;
    }
    proof {
        assert(a@ =~= b@);
    }
    true
}

/// Copy `v[from..to]` into a fresh vector.
pub fn copy_range(v: &Vec<u8>, from: usize, to: usize) -> (r: Vec<u8>)
    requires
        from <= to <= v.len(),
    ensures
        r@ == v@.subrange(from as int, to as int),
{
    let mut r: Vec<u8> = Vec::new();
    proof {
        assert(v@.subrange(from as int, from as int) =~= Seq::<u8>::empty());
    }
    let mut i: usize = from;
    while i < to
        invariant
            from <= i <= to <= v.len(),
            r@ == v@.subrange(from as int, i as int),
        decreases to - i,
    {
        r.push(v[i]);
        proof {
            assert(v@.subrange(from as int, i + 1) =~= v@.subrange(from as int, i as int).push(
                v@[i as int],
            ));
        }
        i = i + 1;
    }
    r
}

} // verus!
