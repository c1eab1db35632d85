//! The executable recursive-descent parser, proved to agree with the
//! grammar's specification functions on every input: one function per
//! production, each consuming a prefix of the input from a cursor position
//! and returning the parsed construct with the new position, or a
//! [`ParseError`] holding the failure's kind and offset.

use vstd::prelude::*;

use crate::error::{ErrorKind, ParseError};
use crate::grammar::{
    digit_val, digits_end, digits_of, hex4, hex_val, is_digit, is_value_start, is_ws,
    lemma_insert_match, lemma_insert_no_match, lemma_scan_string_bounds, lemma_value_bounds,
    lit_false, lit_null, lit_true, match_lit, scan_string, simple_escape, skip_ws,
    spec_insert_pair, spec_parse_array, spec_parse_bool, spec_parse_document, spec_parse_elements,
    spec_parse_members, spec_parse_null, spec_parse_num, spec_parse_number, spec_parse_object,
    spec_parse_pair, spec_parse_str, spec_parse_value, utf8_bytes, ws_count, MAX_DEPTH,
};
use crate::value::{
    elems_deep_view, lemma_elems_deep_view_push, lemma_pairs_deep_view, lemma_pairs_deep_view_push,
    lemma_pairs_deep_view_update, pairs_deep_view, JsonNumber, SpecValue, Value,
};

verus! {

broadcast use vstd::slice::axiom_spec_len;

/// Does the executable string outcome `r` carry exactly the specified
/// outcome `sr`?
pub open spec fn str_res_matches(
    r: Result<(Vec<u8>, usize), ParseError>,
    sr: Result<(Seq<u8>, int), (ErrorKind, int)>,
) -> bool {
    match (r, sr) {
        (Ok((b, q)), Ok((sb, sq))) => b@ == sb && q as int == sq,
        (Err(e), Err((k, o))) => e.kind == k && e.offset as int == o,
        _ => false,
    }
}

/// Does the executable member outcome `r` carry exactly the specified
/// outcome `sr`?
pub open spec fn pair_res_matches(
    r: Result<((Vec<u8>, Value), usize), ParseError>,
    sr: Result<((Seq<u8>, SpecValue), int), (ErrorKind, int)>,
) -> bool {
    match (r, sr) {
        (Ok(((k, v), q)), Ok(((sk, sv), sq))) => k@ == sk && v.deep_view() == sv && q as int == sq,
        (Err(e), Err((ek, o))) => e.kind == ek && e.offset as int == o,
        _ => false,
    }
}

/// Does the executable document outcome `r` carry exactly the specified
/// outcome `sr`?
pub open spec fn doc_res_matches(
    r: Result<Value, ParseError>,
    sr: Result<SpecValue, (ErrorKind, int)>,
) -> bool {
    match (r, sr) {
        (Ok(v), Ok(sv)) => v.deep_view() == sv,
        (Err(e), Err((k, o))) => e.kind == k && e.offset as int == o,
        _ => false,
    }
}

/// Does the executable outcome `r` carry exactly the specified outcome `sr`?
pub open spec fn res_matches(
    r: Result<(Value, usize), ParseError>,
    sr: Result<(SpecValue, int), (ErrorKind, int)>,
) -> bool {
    match (r, sr) {
        (Ok((v, q)), Ok((sv, sq))) => v.deep_view() == sv && q as int == sq,
        (Err(e), Err((k, o))) => e.kind == k && e.offset as int == o,
        _ => false,
    }
}

/// A slice's length always fits in `usize`.
proof fn slice_len_bound(s: &[u8])
    ensures
        s@.len() <= usize::MAX,
{
    assert(vstd::slice::spec_slice_len(s) == s@.len());
}

/// Consumes whitespace: returns the first position at or after `pos` that
/// holds no whitespace byte, or the end of the input.
pub(crate) fn skip_whitespace(input: &[u8], pos: usize) -> (r: usize)
    requires
        pos <= input@.len(),
    ensures
        r as int == skip_ws(input@, pos as int),
        pos <= r <= input@.len(),
{
    let mut i: usize = pos;
    while i < input.len() && (input[i] == 0x20 || input[i] == 0x09 || input[i] == 0x0a
        || input[i] == 0x0d)
        invariant
            pos <= i <= input@.len(),
            skip_ws(input@, pos as int) == skip_ws(input@, i as int),
        decreases input@.len() - i,
    {
        assert(is_ws(input@[i as int]));
        assert(skip_ws(input@, i as int) == skip_ws(input@, i + 1));
        i = i + 1;
    }
    assert(ws_count(input@, i as int) == 0);
    i
}

/// Exact, case-sensitive match of the literal `lit` at `pos`.
pub(crate) fn match_literal(input: &[u8], pos: usize, lit: &[u8]) -> (r: bool)
    requires
        pos <= input@.len(),
    ensures
        r == match_lit(input@, pos as int, lit@),
{
    if input.len() - pos < lit.len() {
        return false;
    }
    let mut j: usize = 0;
    while j < lit.len()
        invariant
            0 <= j <= lit@.len(),
            pos + lit@.len() <= input@.len(),
            forall|k: int| 0 <= k < j ==> input@[pos + k] == lit@[k],
        decreases lit@.len() - j,
    {
        proof { slice_len_bound(input); }
        if input[pos + j] != lit[j] {
            assert(input@.subrange(pos as int, pos + lit@.len())[j as int] != lit@[j as int]);
            return false;
        }
        j = j + 1;
    }
    assert(input@.subrange(pos as int, pos + lit@.len()) =~= lit@);
    true
}

/// The `null` production at `pos`.
pub(crate) fn parse_null(input: &[u8], pos: usize) -> (r: Result<(Value, usize), ParseError>)
    requires
        pos <= input@.len(),
    ensures
        res_matches(r, spec_parse_null(input@, pos as int)),
{
    proof { slice_len_bound(input); }
    let lit: [u8; 4] = [0x6e, 0x75, 0x6c, 0x6c];
    assert(lit@ =~= lit_null());
    if match_literal(input, pos, lit.as_slice()) {
        Ok((Value::Null, pos + 4))
    } else {
        Err(ParseError { kind: ErrorKind::UnexpectedToken, offset: pos })
    }
}

/// The `true` / `false` production at `pos`.
pub(crate) fn parse_bool(input: &[u8], pos: usize) -> (r: Result<(Value, usize), ParseError>)
    requires
        pos <= input@.len(),
    ensures
        res_matches(r, spec_parse_bool(input@, pos as int)),
{
    proof { slice_len_bound(input); }
    let lit_t: [u8; 4] = [0x74, 0x72, 0x75, 0x65];
    let lit_f: [u8; 5] = [0x66, 0x61, 0x6c, 0x73, 0x65];
    assert(lit_t@ =~= lit_true());
    assert(lit_f@ =~= lit_false());
    if match_literal(input, pos, lit_t.as_slice()) {
        Ok((Value::Bool(true), pos + 4))
    } else if match_literal(input, pos, lit_f.as_slice()) {
        Ok((Value::Bool(false), pos + 5))
    } else {
        Err(ParseError { kind: ErrorKind::UnexpectedToken, offset: pos })
    }
}

/// Reads the digit run beginning at `from`: returns the digit values and
/// the position just past the run.
fn read_digits(input: &[u8], from: usize) -> (r: (Vec<u8>, usize))
    requires
        from <= input@.len(),
    ensures
        r.1 as int == digits_end(input@, from as int),
        r.0@ == digits_of(input@, from as int, digits_end(input@, from as int)),
        from <= r.1 <= input@.len(),
{
    let mut i: usize = from;
    let mut out: Vec<u8> = Vec::new();
    while i < input.len() && 0x30 <= input[i] && input[i] <= 0x39
        invariant
            from <= i <= input@.len(),
            digits_end(input@, from as int) == digits_end(input@, i as int),
            out@ == digits_of(input@, from as int, i as int),
        decreases input@.len() - i,
    {
        assert(is_digit(input@[i as int]));
        assert(digits_end(input@, i as int) == digits_end(input@, i + 1));
        out.push(input[i] - 0x30);
        proof {
            assert(input@.subrange(from as int, i + 1) =~= input@.subrange(from as int, i as int)
                .push(input@[i as int]));
            assert(out@ =~= digits_of(input@, from as int, i + 1));
        }
        i = i + 1;
    }
    assert(digits_end(input@, i as int) == i);
    (out, i)
}

/// The value of one ASCII hexadecimal digit.
fn hex_digit(b: u8) -> (r: Option<u8>)
    ensures
        match r {
            Some(v) => v as int == hex_val(b) && v < 16,
            None => hex_val(b) == -1,
        },
{
    if 0x30 <= b && b <= 0x39 {
        Some(b - 0x30)
    } else if 0x41 <= b && b <= 0x46 {
        Some(b - 0x41 + 10)
    } else if 0x61 <= b && b <= 0x66 {
        Some(b - 0x61 + 10)
    } else {
        None
    }
}

/// The value of the four hexadecimal digits at `p`, or `None` when one of
/// the four bytes is not a hexadecimal digit.
fn read_hex4(input: &[u8], p: usize) -> (r: Option<u32>)
    requires
        p + 4 <= input@.len(),
    ensures
        match r {
            Some(v) => v as int == hex4(input@, p as int) && v <= 0xffff,
            None => hex4(input@, p as int) == -1,
        },
{
    let d0 = hex_digit(input[p]);
    let d1 = hex_digit(input[p + 1]);
    let d2 = hex_digit(input[p + 2]);
    let d3 = hex_digit(input[p + 3]);
    match (d0, d1, d2, d3) {
        (Some(v0), Some(v1), Some(v2), Some(v3)) => Some(
            (v0 as u32) * 0x1000 + (v1 as u32) * 0x100 + (v2 as u32) * 0x10 + (v3 as u32),
        ),
        _ => None,
    }
}

/// Appends the UTF-8 encoding of the scalar value `cp`.
fn push_utf8(out: &mut Vec<u8>, cp: u32)
    requires
        cp < 0x110000,
    ensures
        final(out)@ == old(out)@ + utf8_bytes(cp as int),
{
    if cp < 0x80 {
        out.push(cp as u8);
        assert(out@ =~= old(out)@ + utf8_bytes(cp as int));
    } else if cp < 0x800 {
        assert(cp / 0x40 < 0x20) by (nonlinear_arith)
            requires cp < 0x800,
        ;
        out.push(0xc0 + (cp / 0x40) as u8);
        out.push(0x80 + (cp % 0x40) as u8);
        assert(out@ =~= old(out)@ + utf8_bytes(cp as int));
    } else if cp < 0x10000 {
        assert(cp / 0x1000 < 0x10 && (cp / 0x40) % 0x40 < 0x40) by (nonlinear_arith)
            requires cp < 0x10000,
        ;
        out.push(0xe0 + (cp / 0x1000) as u8);
        out.push(0x80 + ((cp / 0x40) % 0x40) as u8);
        out.push(0x80 + (cp % 0x40) as u8);
        assert(out@ =~= old(out)@ + utf8_bytes(cp as int));
    } else {
        assert(cp / 0x40000 < 8 && (cp / 0x1000) % 0x40 < 0x40 && (cp / 0x40) % 0x40 < 0x40)
            by (nonlinear_arith)
            requires cp < 0x110000,
        ;
        out.push(0xf0 + (cp / 0x40000) as u8);
        out.push(0x80 + ((cp / 0x1000) % 0x40) as u8);
        out.push(0x80 + ((cp / 0x40) % 0x40) as u8);
        out.push(0x80 + (cp % 0x40) as u8);
        assert(out@ =~= old(out)@ + utf8_bytes(cp as int));
    }
}

/// The content of a string literal whose opening quote stands at `pos`:
/// scans to the closing quote, resolving every escape sequence.
fn parse_string_raw(input: &[u8], pos: usize) -> (r: Result<(Vec<u8>, usize), ParseError>)
    requires
        pos < input@.len(),
        input@[pos as int] == 0x22,
    ensures
        str_res_matches(r, scan_string(input@, pos + 1, Seq::empty())),
{
    proof { slice_len_bound(input); }
    let ghost s = input@;
    let mut i: usize = pos + 1;
    let mut out: Vec<u8> = Vec::new();
    loop
        invariant
            pos + 1 <= i <= s.len(),
            input@ == s,
            pos < s.len() && s[pos as int] == 0x22,
            scan_string(s, pos + 1, Seq::empty()) == scan_string(s, i as int, out@),
        decreases s.len() - i,
    {
        if i >= input.len() {
            return Err(ParseError { kind: ErrorKind::UnterminatedString, offset: input.len() });
        }
        let b = input[i];
        if b == 0x22 {
            return Ok((out, i + 1));
        } else if b == 0x5c {
            if i + 1 >= input.len() {
                return Err(ParseError { kind: ErrorKind::InvalidEscape, offset: i });
            }
            let e = input[i + 1];
            if e == 0x22 || e == 0x5c || e == 0x2f || e == 0x62 || e == 0x66 || e == 0x6e
                || e == 0x72 || e == 0x74 {
                let c: u8 = if e == 0x22 {
                    0x22
                } else if e == 0x5c {
                    0x5c
                } else if e == 0x2f {
                    0x2f
                } else if e == 0x62 {
                    0x08
                } else if e == 0x66 {
                    0x0c
                } else if e == 0x6e {
                    0x0a
                } else if e == 0x72 {
                    0x0d
                } else {
                    0x09
                };
                assert(c as int == simple_escape(s[i + 1]));
                out.push(c);
                i = i + 2;
            } else if e == 0x75 {
                if input.len() - i < 6 {
                    assert(hex4(s, i + 2) == -1);
                    return Err(ParseError { kind: ErrorKind::InvalidEscape, offset: i });
                }
                let cp: u32 = match read_hex4(input, i + 2) {
                    Some(v) => v,
                    None => {
                        return Err(ParseError { kind: ErrorKind::InvalidEscape, offset: i });
                    },
                };
                if 0xd800 <= cp && cp < 0xdc00 {
                    if input.len() - i >= 8 && input[i + 6] == 0x5c && input[i + 7] == 0x75 {
                        if input.len() - i < 12 {
                            assert(hex4(s, i + 8) == -1);
                            return Err(ParseError { kind: ErrorKind::InvalidEscape, offset: i });
                        }
                        match read_hex4(input, i + 8) {
                            Some(lo) => {
                                if 0xdc00 <= lo && lo < 0xe000 {
                                    let combined: u32 = 0x10000 + (cp - 0xd800) * 0x400 + (lo
                                        - 0xdc00);
                                    push_utf8(&mut out, combined);
                                    i = i + 12;
                                } else {
                                    return Err(
                                        ParseError { kind: ErrorKind::InvalidEscape, offset: i },
                                    );
                                }
                            },
                            None => {
                                return Err(ParseError { kind: ErrorKind::InvalidEscape, offset: i });
                            },
                        }
                    } else {
                        return Err(ParseError { kind: ErrorKind::InvalidEscape, offset: i });
                    }
                } else if 0xdc00 <= cp && cp < 0xe000 {
                    return Err(ParseError { kind: ErrorKind::InvalidEscape, offset: i });
                } else {
                    push_utf8(&mut out, cp);
                    i = i + 6;
                }
            } else {
                return Err(ParseError { kind: ErrorKind::InvalidEscape, offset: i });
            }
        } else {
            out.push(b);
            i = i + 1;
        }
    }
}

/// The string production at `pos` (which holds the opening quote),
/// wrapped as a value.
pub(crate) fn parse_str(input: &[u8], pos: usize) -> (r: Result<(Value, usize), ParseError>)
    requires
        pos < input@.len(),
        input@[pos as int] == 0x22,
    ensures
        res_matches(r, spec_parse_str(input@, pos as int)),
{
    match parse_string_raw(input, pos) {
        Ok((bytes, q)) => Ok((Value::Str(bytes), q)),
        Err(e) => Err(e),
    }
}

/// The number production at `pos`: optional `-`, one or more digits, an
/// optional fraction, an optional exponent, kept digit for digit.
pub(crate) fn parse_num(input: &[u8], pos: usize) -> (r: Result<(Value, usize), ParseError>)
    requires
        pos <= input@.len(),
    ensures
        res_matches(r, spec_parse_num(input@, pos as int)),
{
    let ghost s = input@;
    let neg: bool = pos < input.len() && input[pos] == 0x2d;
    let ip: usize = if neg {
        pos + 1
    } else {
        pos
    };
    if ip >= input.len() || input[ip] < 0x30 || input[ip] > 0x39 {
        return Err(ParseError { kind: ErrorKind::InvalidNumber, offset: ip });
    }
    let (int_digits, ie) = read_digits(input, ip);
    // fraction part
    let mut frac_digits: Vec<u8> = Vec::new();
    let fe: usize;
    if ie < input.len() && input[ie] == 0x2e {
        let dp: usize = ie + 1;
        if dp >= input.len() || input[dp] < 0x30 || input[dp] > 0x39 {
            return Err(ParseError { kind: ErrorKind::InvalidNumber, offset: dp });
        }
        let (fd, fend) = read_digits(input, dp);
        frac_digits = fd;
        fe = fend;
    } else {
        fe = ie;
        assert(frac_digits@ =~= Seq::<u8>::empty());
    }
    // exponent part
    let mut exp_digits: Vec<u8> = Vec::new();
    let mut exp_neg: bool = false;
    let ee: usize;
    if fe < input.len() && (input[fe] == 0x65 || input[fe] == 0x45) {
        let sp: usize = fe + 1;
        exp_neg = sp < input.len() && input[sp] == 0x2d;
        let dp: usize = if sp < input.len() && (input[sp] == 0x2b || input[sp] == 0x2d) {
            sp + 1
        } else {
            sp
        };
        if dp >= input.len() || input[dp] < 0x30 || input[dp] > 0x39 {
            return Err(ParseError { kind: ErrorKind::InvalidNumber, offset: dp });
        }
        let (ed, eend) = read_digits(input, dp);
        exp_digits = ed;
        ee = eend;
    } else {
        ee = fe;
        assert(exp_digits@ =~= Seq::<u8>::empty());
    }
    let n = JsonNumber { neg, int_digits, frac_digits, exp_neg, exp_digits };
    Ok((Value::Num(n), ee))
}

/// One character of lookahead: could a value begin with byte `b`?
fn value_start(b: u8) -> (r: bool)
    ensures
        r == is_value_start(b),
{
    b == 0x22 || b == 0x2d || (0x30 <= b && b <= 0x39) || b == 0x74 || b == 0x66 || b == 0x6e
        || b == 0x5b || b == 0x7b
}

/// Byte-for-byte equality of two byte vectors.
fn bytes_eq(a: &Vec<u8>, b: &Vec<u8>) -> (r: bool)
    ensures
        r == (a@ == b@),
{
    if a.len() != b.len() {
        return false;
    }
    let mut i: usize = 0;
    while i < a.len()
        invariant
            0 <= i <= a@.len(),
            a@.len() == b@.len(),
            forall|j: int| 0 <= j < i ==> a@[j] == b@[j],
        decreases a@.len() - i,
    {
        if a[i] != b[i] {
            return false;
        }
        i = i + 1;
    }
    proof {
        assert(a@ =~= b@);
    }
    true
}

/// Inserts the member `(k, v)`: a duplicate key overwrites the earlier
/// member in place (last write wins); a fresh key is appended.
fn insert_pair(pairs: &mut Vec<(Vec<u8>, Value)>, k: Vec<u8>, v: Value)
    ensures
        pairs_deep_view(final(pairs)@) == spec_insert_pair(
            pairs_deep_view(old(pairs)@),
            k@,
            v.deep_view(),
        ),
{
    let ghost ops = old(pairs)@;
    proof {
        lemma_pairs_deep_view(ops);
    }
    let mut j: usize = 0;
    while j < pairs.len()
        invariant
            ops == old(pairs)@,
            pairs@ == ops,
            0 <= j <= ops.len(),
            forall|i: int| 0 <= i < j ==> ops[i].0@ != k@,
        decreases ops.len() - j,
    {
        let hit = bytes_eq(&pairs[j].0, &k);
        if hit {
            let ghost kx = k;
            let ghost vx = v;
            pairs.set(j, (k, v));
            proof {
                lemma_pairs_deep_view(ops);
                lemma_pairs_deep_view_update(ops, j as int, kx, vx);
                lemma_insert_match(pairs_deep_view(ops), kx@, vx.deep_view(), j as int);
            }
            return;
        }
        j = j + 1;
    }
    let ghost kx = k;
    let ghost vx = v;
    pairs.push((k, v));
    proof {
        lemma_pairs_deep_view_push(ops, kx, vx);
        lemma_insert_no_match(pairs_deep_view(ops), kx@, vx.deep_view());
    }
}

/// The value production at `pos`: skip whitespace, then dispatch on one
/// character of lookahead to exactly one production. `depth` is the
/// remaining nesting budget.
pub(crate) fn parse_value(input: &[u8], pos: usize, depth: usize) -> (r: Result<
    (Value, usize),
    ParseError,
>)
    requires
        pos <= input@.len(),
    ensures
        res_matches(r, spec_parse_value(input@, pos as int, depth as nat)),
    decreases depth, input@.len() - pos,
{
    let p = skip_whitespace(input, pos);
    if p >= input.len() {
        return Err(ParseError { kind: ErrorKind::UnexpectedEndOfInput, offset: input.len() });
    }
    let b = input[p];
    if b == 0x22 {
        parse_str(input, p)
    } else if b == 0x2d || (0x30 <= b && b <= 0x39) {
        parse_num(input, p)
    } else if b == 0x74 || b == 0x66 {
        parse_bool(input, p)
    } else if b == 0x6e {
        parse_null(input, p)
    } else if b == 0x5b {
        if depth == 0 {
            Err(ParseError { kind: ErrorKind::NestingTooDeep, offset: p })
        } else {
            parse_array(input, p, depth - 1)
        }
    } else if b == 0x7b {
        if depth == 0 {
            Err(ParseError { kind: ErrorKind::NestingTooDeep, offset: p })
        } else {
            parse_object(input, p, depth - 1)
        }
    } else {
        Err(ParseError { kind: ErrorKind::UnexpectedToken, offset: p })
    }
}

/// The array production: `pos` holds `[`; a comma-separated list of zero
/// or more values follows, then `]`. A trailing comma is rejected with
/// `ExpectedElement`.
pub(crate) fn parse_array(input: &[u8], pos: usize, depth: usize) -> (r: Result<
    (Value, usize),
    ParseError,
>)
    requires
        pos < input@.len(),
        input@[pos as int] == 0x5b,
    ensures
        res_matches(r, spec_parse_array(input@, pos as int, depth as nat)),
    decreases depth, input@.len() - pos,
{
    proof { slice_len_bound(input); }
    let ghost s = input@;
    let p = skip_whitespace(input, pos + 1);
    if p >= input.len() {
        return Err(ParseError { kind: ErrorKind::UnterminatedArray, offset: input.len() });
    }
    if input[p] == 0x5d {
        let elems: Vec<Value> = Vec::new();
        assert(elems_deep_view(elems@) =~= Seq::<SpecValue>::empty());
        return Ok((Value::Array(elems), p + 1));
    }
    let mut elems: Vec<Value> = Vec::new();
    let mut cur: usize = p;
    assert(elems_deep_view(elems@) =~= Seq::<SpecValue>::empty());
    loop
        invariant
            input@ == s,
            pos < cur < s.len(),
            spec_parse_array(s, pos as int, depth as nat) == spec_parse_elements(
                s,
                cur as int,
                depth as nat,
                elems_deep_view(elems@),
            ),
        decreases s.len() - cur,
    {
        let ghost acc = elems_deep_view(elems@);
        match parse_value(input, cur, depth) {
            Err(e) => {
                return Err(e);
            },
            Ok((v, q)) => {
                proof {
                    lemma_value_bounds(s, cur as int, depth as nat);
                }
                let r = skip_whitespace(input, q);
                if r >= input.len() {
                    return Err(
                        ParseError { kind: ErrorKind::UnterminatedArray, offset: input.len() },
                    );
                }
                let ghost ve = v.deep_view();
                if input[r] == 0x5d {
                    proof {
                        lemma_elems_deep_view_push(elems@, v);
                    }
                    elems.push(v);
                    proof {
                        assert(elems_deep_view(elems@) == acc.push(ve));
                    }
                    return Ok((Value::Array(elems), r + 1));
                } else if input[r] == 0x2c {
                    let p2 = skip_whitespace(input, r + 1);
                    if p2 >= input.len() {
                        return Err(
                            ParseError { kind: ErrorKind::ExpectedElement, offset: input.len() },
                        );
                    }
                    if !value_start(input[p2]) {
                        return Err(ParseError { kind: ErrorKind::ExpectedElement, offset: p2 });
                    }
                    proof {
                        lemma_elems_deep_view_push(elems@, v);
                    }
                    elems.push(v);
                    cur = p2;
                } else {
                    return Err(ParseError { kind: ErrorKind::UnterminatedArray, offset: r });
                }
            },
        }
    }
}

/// One object member at `pos`: a string key, optional whitespace, `:`,
/// and a value.
pub(crate) fn parse_pair(input: &[u8], pos: usize, depth: usize) -> (r: Result<
    ((Vec<u8>, Value), usize),
    ParseError,
>)
    requires
        pos <= input@.len(),
    ensures
        pair_res_matches(r, spec_parse_pair(input@, pos as int, depth as nat)),
    decreases depth, input@.len() - pos,
{
    let ghost s = input@;
    if pos >= input.len() {
        return Err(ParseError { kind: ErrorKind::ExpectedPair, offset: input.len() });
    }
    if input[pos] != 0x22 {
        return Err(ParseError { kind: ErrorKind::ExpectedPair, offset: pos });
    }
    match parse_string_raw(input, pos) {
        Err(e) => Err(e),
        Ok((k, q)) => {
            proof {
                lemma_scan_string_bounds(s, pos + 1, Seq::empty());
            }
            let c = skip_whitespace(input, q);
            if c >= input.len() {
                return Err(ParseError { kind: ErrorKind::ExpectedColon, offset: input.len() });
            }
            if input[c] != 0x3a {
                return Err(ParseError { kind: ErrorKind::ExpectedColon, offset: c });
            }
            match parse_value(input, c + 1, depth) {
                Err(e) => Err(e),
                Ok((v, q2)) => Ok(((k, v), q2)),
            }
        },
    }
}

/// The object production: `pos` holds `{`; a comma-separated list of zero
/// or more `key : value` members follows, then `}`. A duplicate key's
/// later value overwrites the earlier one (last write wins); a trailing
/// comma is rejected with `ExpectedPair` at the closing brace.
pub(crate) fn parse_object(input: &[u8], pos: usize, depth: usize) -> (r: Result<
    (Value, usize),
    ParseError,
>)
    requires
        pos < input@.len(),
        input@[pos as int] == 0x7b,
    ensures
        res_matches(r, spec_parse_object(input@, pos as int, depth as nat)),
    decreases depth, input@.len() - pos,
{
    proof { slice_len_bound(input); }
    let ghost s = input@;
    let p = skip_whitespace(input, pos + 1);
    if p >= input.len() {
        return Err(ParseError { kind: ErrorKind::UnterminatedObject, offset: input.len() });
    }
    if input[p] == 0x7d {
        let pairs: Vec<(Vec<u8>, Value)> = Vec::new();
        assert(pairs_deep_view(pairs@) =~= Seq::<(Seq<u8>, SpecValue)>::empty());
        return Ok((Value::Object(pairs), p + 1));
    }
    let mut pairs: Vec<(Vec<u8>, Value)> = Vec::new();
    let mut cur: usize = p;
    assert(pairs_deep_view(pairs@) =~= Seq::<(Seq<u8>, SpecValue)>::empty());
    loop
        invariant
            input@ == s,
            pos < cur < s.len(),
            spec_parse_object(s, pos as int, depth as nat) == spec_parse_members(
                s,
                cur as int,
                depth as nat,
                pairs_deep_view(pairs@),
            ),
        decreases s.len() - cur,
    {
        let ghost acc = pairs_deep_view(pairs@);
        match parse_pair(input, cur, depth) {
            Err(e) => {
                return Err(e);
            },
            Ok(((k, v), q)) => {
                proof {
                    crate::grammar::lemma_pair_bounds(s, cur as int, depth as nat);
                }
                let ghost kk = k@;
                let ghost vv = v.deep_view();
                insert_pair(&mut pairs, k, v);
                let r = skip_whitespace(input, q);
                if r >= input.len() {
                    return Err(
                        ParseError { kind: ErrorKind::UnterminatedObject, offset: input.len() },
                    );
                }
                if input[r] == 0x7d {
                    return Ok((Value::Object(pairs), r + 1));
                } else if input[r] == 0x2c {
                    let p2 = skip_whitespace(input, r + 1);
                    if p2 >= input.len() {
                        return Err(
                            ParseError { kind: ErrorKind::ExpectedPair, offset: input.len() },
                        );
                    }
                    cur = p2;
                } else {
                    return Err(ParseError { kind: ErrorKind::UnterminatedObject, offset: r });
                }
            },
        }
    }
}

/// Parses one complete document: a single value which only optional
/// whitespace may follow. The returned error's offset never exceeds the
/// input's length.
pub fn parse_document(input: &[u8]) -> (r: Result<Value, ParseError>)
    ensures
        doc_res_matches(r, spec_parse_document(input@)),
        match r {
            Ok(v) => true,
            Err(e) => e.offset <= input@.len(),
        },
{
    proof {
        lemma_value_bounds(input@, 0, MAX_DEPTH as nat);
    }
    match parse_value(input, 0, MAX_DEPTH) {
        Err(e) => Err(e),
        Ok((v, q)) => {
            let p = skip_whitespace(input, q);
            if p < input.len() {
                Err(ParseError { kind: ErrorKind::TrailingContent, offset: p })
            } else {
                Ok(v)
            }
        },
    }
}

} // verus!
