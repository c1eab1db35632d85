//! The JSON grammar as mathematics: one specification function per grammar
//! production, each mapping an input byte sequence and a start position to
//! either the parsed construct with the position just past it, or the kind
//! and offset of the failure.
//!
//! These functions are the reference the executable parser is proved
//! against. Positions are `int`; a production is only meaningful for
//! `0 <= pos <= s.len()`, and the recursion is guarded so that every
//! function is total regardless.

use vstd::prelude::*;

use crate::error::ErrorKind;
use crate::value::{SpecNumber, SpecValue};

verus! {

/// Nesting of arrays and objects deeper than this is rejected with
/// `NestingTooDeep` instead of exhausting the call stack.
pub const MAX_DEPTH: usize = 256;

/// JSON insignificant whitespace: space, tab, line feed, carriage return.
pub open spec fn is_ws(b: u8) -> bool {
    b == 0x20 || b == 0x09 || b == 0x0a || b == 0x0d
}

/// How many whitespace bytes follow at `pos`.
pub open spec fn ws_count(s: Seq<u8>, pos: int) -> nat
    decreases s.len() - pos,
{
    if 0 <= pos && pos < s.len() && is_ws(s[pos]) {
        1 + ws_count(s, pos + 1)
    } else {
        0
    }
}

/// The first position at or after `pos` that does not hold whitespace
/// (or the end of the input). Never smaller than `pos`.
pub open spec fn skip_ws(s: Seq<u8>, pos: int) -> int {
    pos + ws_count(s, pos)
}

/// An ASCII decimal digit.
pub open spec fn is_digit(b: u8) -> bool {
    0x30 <= b && b <= 0x39
}

/// The numeric value of an ASCII decimal digit.
pub open spec fn digit_val(b: u8) -> u8 {
    (b - 0x30) as u8
}

/// The first position at or after `pos` that does not hold a digit.
pub open spec fn digits_end(s: Seq<u8>, pos: int) -> int
    decreases s.len() - pos,
{
    if 0 <= pos && pos < s.len() && is_digit(s[pos]) {
        digits_end(s, pos + 1)
    } else {
        pos
    }
}

/// The digit values (each `0..=9`) of the digit run `s[from..to]`.
pub open spec fn digits_of(s: Seq<u8>, from: int, to: int) -> Seq<u8> {
    s.subrange(from, to).map_values(|b: u8| digit_val(b))
}

/// Exact, case-sensitive prefix match of `lit` at `pos`.
pub open spec fn match_lit(s: Seq<u8>, pos: int, lit: Seq<u8>) -> bool {
    &&& 0 <= pos
    &&& pos + lit.len() <= s.len()
    &&& s.subrange(pos, pos + lit.len()) == lit
}

/// The bytes of `null`.
pub open spec fn lit_null() -> Seq<u8> {
    seq![0x6e, 0x75, 0x6c, 0x6c]
}

/// The bytes of `true`.
pub open spec fn lit_true() -> Seq<u8> {
    seq![0x74, 0x72, 0x75, 0x65]
}

/// The bytes of `false`.
pub open spec fn lit_false() -> Seq<u8> {
    seq![0x66, 0x61, 0x6c, 0x73, 0x65]
}

/// Could a value begin with byte `b`? One character of lookahead picks the
/// production: `"` string, `-` or digit number, `t`/`f` boolean, `n` null,
/// `[` array, `{` object.
pub open spec fn is_value_start(b: u8) -> bool {
    ||| b == 0x22
    ||| b == 0x2d
    ||| is_digit(b)
    ||| b == 0x74
    ||| b == 0x66
    ||| b == 0x6e
    ||| b == 0x5b
    ||| b == 0x7b
}

/// The `null` production at `pos`.
pub open spec fn spec_parse_null(s: Seq<u8>, pos: int) -> Result<(SpecValue, int), (ErrorKind, int)> {
    if match_lit(s, pos, lit_null()) {
        Ok((SpecValue::Null, pos + 4))
    } else {
        Err((ErrorKind::UnexpectedToken, pos))
    }
}

/// The `true` / `false` production at `pos`.
pub open spec fn spec_parse_bool(s: Seq<u8>, pos: int) -> Result<(SpecValue, int), (ErrorKind, int)> {
    if match_lit(s, pos, lit_true()) {
        Ok((SpecValue::Bool(true), pos + 4))
    } else if match_lit(s, pos, lit_false()) {
        Ok((SpecValue::Bool(false), pos + 5))
    } else {
        Err((ErrorKind::UnexpectedToken, pos))
    }
}

/// The fraction part at `pos`: either absent (no `.` here), or `.` followed
/// by one or more digits. Returns the digit values and the position after.
pub open spec fn spec_parse_frac(s: Seq<u8>, pos: int) -> Result<(Seq<u8>, int), (ErrorKind, int)> {
    if pos < s.len() && s[pos] == 0x2e {
        let dp: int = pos + 1;
        if dp >= s.len() || !is_digit(s[dp]) {
            Err((ErrorKind::InvalidNumber, dp))
        } else {
            Ok((digits_of(s, dp, digits_end(s, dp)), digits_end(s, dp)))
        }
    } else {
        Ok((Seq::empty(), pos))
    }
}

/// The exponent part at `pos`: either absent (no `e`/`E` here), or `e`/`E`,
/// an optional sign, and one or more digits. Returns the sign, the digit
/// values, and the position after.
pub open spec fn spec_parse_exp(s: Seq<u8>, pos: int) -> Result<((bool, Seq<u8>), int), (ErrorKind, int)> {
    if pos < s.len() && (s[pos] == 0x65 || s[pos] == 0x45) {
        let sp: int = pos + 1;
        let neg: bool = sp < s.len() && s[sp] == 0x2d;
        let dp: int = if sp < s.len() && (s[sp] == 0x2b || s[sp] == 0x2d) { sp + 1 } else { sp };
        if dp >= s.len() || !is_digit(s[dp]) {
            Err((ErrorKind::InvalidNumber, dp))
        } else {
            Ok(((neg, digits_of(s, dp, digits_end(s, dp))), digits_end(s, dp)))
        }
    } else {
        Ok(((false, Seq::empty()), pos))
    }
}

/// The number production at `pos`: an optional `-`, one or more digits, an
/// optional fraction, an optional exponent. Fails with `InvalidNumber` when
/// no digit follows the sign, a `.`, or an exponent marker.
pub open spec fn spec_parse_number(s: Seq<u8>, pos: int) -> Result<(SpecNumber, int), (ErrorKind, int)> {
    let neg: bool = pos < s.len() && s[pos] == 0x2d;
    let ip: int = if neg { pos + 1 } else { pos };
    if ip >= s.len() || !is_digit(s[ip]) {
        Err((ErrorKind::InvalidNumber, ip))
    } else {
        let ie: int = digits_end(s, ip);
        match spec_parse_frac(s, ie) {
            Err(e) => Err(e),
            Ok((frac, fe)) => match spec_parse_exp(s, fe) {
                Err(e) => Err(e),
                Ok(((exp_neg, exp), ee)) => Ok((
                    SpecNumber {
                        neg,
                        int_digits: digits_of(s, ip, ie),
                        frac_digits: frac,
                        exp_neg,
                        exp_digits: exp,
                    },
                    ee,
                )),
            },
        }
    }
}

/// The number production, wrapped as a value.
pub open spec fn spec_parse_num(s: Seq<u8>, pos: int) -> Result<(SpecValue, int), (ErrorKind, int)> {
    match spec_parse_number(s, pos) {
        Ok((n, q)) => Ok((SpecValue::Num(n), q)),
        Err(e) => Err(e),
    }
}

/// The decoded byte of a one-character escape (`\"`, `\\`, `\/`, `\b`,
/// `\f`, `\n`, `\r`, `\t`), or `-1` when `b` is not such an escape.
pub open spec fn simple_escape(b: u8) -> int {
    if b == 0x22 {
        0x22
    } else if b == 0x5c {
        0x5c
    } else if b == 0x2f {
        0x2f
    } else if b == 0x62 {
        0x08
    } else if b == 0x66 {
        0x0c
    } else if b == 0x6e {
        0x0a
    } else if b == 0x72 {
        0x0d
    } else if b == 0x74 {
        0x09
    } else {
        -1
    }
}

/// The value of an ASCII hexadecimal digit, or `-1`.
pub open spec fn hex_val(b: u8) -> int {
    if 0x30 <= b && b <= 0x39 {
        b - 0x30
    } else if 0x41 <= b && b <= 0x46 {
        b - 0x41 + 10
    } else if 0x61 <= b && b <= 0x66 {
        b - 0x61 + 10
    } else {
        -1
    }
}

/// The value of the four hexadecimal digits at `pos`, or `-1` when fewer
/// than four bytes remain or one of them is not a hexadecimal digit.
pub open spec fn hex4(s: Seq<u8>, pos: int) -> int {
    if pos + 4 <= s.len() && hex_val(s[pos]) >= 0 && hex_val(s[pos + 1]) >= 0 && hex_val(
        s[pos + 2],
    ) >= 0 && hex_val(s[pos + 3]) >= 0 {
        hex_val(s[pos]) * 0x1000 + hex_val(s[pos + 1]) * 0x100 + hex_val(s[pos + 2]) * 0x10
            + hex_val(s[pos + 3])
    } else {
        -1
    }
}

/// The UTF-8 encoding of the Unicode scalar value `cp`.
pub open spec fn utf8_bytes(cp: int) -> Seq<u8>
    recommends
        0 <= cp < 0x110000,
{
    if cp < 0x80 {
        seq![cp as u8]
    } else if cp < 0x800 {
        seq![(0xc0 + cp / 0x40) as u8, (0x80 + cp % 0x40) as u8]
    } else if cp < 0x10000 {
        seq![
            (0xe0 + cp / 0x1000) as u8,
            (0x80 + (cp / 0x40) % 0x40) as u8,
            (0x80 + cp % 0x40) as u8,
        ]
    } else {
        seq![
            (0xf0 + cp / 0x40000) as u8,
            (0x80 + (cp / 0x1000) % 0x40) as u8,
            (0x80 + (cp / 0x40) % 0x40) as u8,
            (0x80 + cp % 0x40) as u8,
        ]
    }
}

/// Scans string content from `pos` (just past the opening quote), resolving
/// escapes, until the closing quote. `acc` holds the bytes decoded so far.
/// A `\u` escape naming a high surrogate must be followed by one naming a
/// low surrogate; the pair encodes a single scalar value.
pub open spec fn scan_string(s: Seq<u8>, pos: int, acc: Seq<u8>) -> Result<(Seq<u8>, int), (ErrorKind, int)>
    decreases s.len() - pos,
{
    if pos < 0 || pos >= s.len() {
        Err((ErrorKind::UnterminatedString, s.len() as int))
    } else if s[pos] == 0x22 {
        Ok((acc, pos + 1))
    } else if s[pos] == 0x5c {
        if pos + 1 >= s.len() {
            Err((ErrorKind::InvalidEscape, pos))
        } else if simple_escape(s[pos + 1]) >= 0 {
            scan_string(s, pos + 2, acc.push(simple_escape(s[pos + 1]) as u8))
        } else if s[pos + 1] == 0x75 {
            let cp: int = hex4(s, pos + 2);
            if cp < 0 {
                Err((ErrorKind::InvalidEscape, pos))
            } else if 0xd800 <= cp && cp < 0xdc00 {
                let lo: int = if pos + 8 <= s.len() && s[pos + 6] == 0x5c && s[pos + 7] == 0x75 {
                    hex4(s, pos + 8)
                } else {
                    -1
                };
                if 0xdc00 <= lo && lo < 0xe000 {
                    scan_string(
                        s,
                        pos + 12,
                        acc + utf8_bytes(0x10000 + (cp - 0xd800) * 0x400 + (lo - 0xdc00)),
                    )
                } else {
                    Err((ErrorKind::InvalidEscape, pos))
                }
            } else if 0xdc00 <= cp && cp < 0xe000 {
                Err((ErrorKind::InvalidEscape, pos))
            } else {
                scan_string(s, pos + 6, acc + utf8_bytes(cp))
            }
        } else {
            Err((ErrorKind::InvalidEscape, pos))
        }
    } else {
        scan_string(s, pos + 1, acc.push(s[pos]))
    }
}

/// The string production at `pos` (which must hold the opening quote),
/// wrapped as a value.
pub open spec fn spec_parse_str(s: Seq<u8>, pos: int) -> Result<(SpecValue, int), (ErrorKind, int)>
    recommends
        0 <= pos < s.len(),
        s[pos] == 0x22,
{
    match scan_string(s, pos + 1, Seq::empty()) {
        Ok((bytes, q)) => Ok((SpecValue::Str(bytes), q)),
        Err(e) => Err(e),
    }
}

/// Inserts the pair `(k, v)` into the member sequence `ps`: when `k` is
/// already present, the later pair overwrites the earlier one in place
/// (last write wins); otherwise the pair is appended.
pub open spec fn spec_insert_pair(
    ps: Seq<(Seq<u8>, SpecValue)>,
    k: Seq<u8>,
    v: SpecValue,
) -> Seq<(Seq<u8>, SpecValue)>
    decreases ps.len(),
{
    if ps.len() == 0 {
        seq![(k, v)]
    } else if ps[0].0 == k {
        seq![(k, v)] + ps.drop_first()
    } else {
        seq![ps[0]] + spec_insert_pair(ps.drop_first(), k, v)
    }
}

/// The value production at `pos`: skip whitespace, then dispatch on one
/// character of lookahead. `depth` is the remaining nesting budget; opening
/// an array or object with no budget left fails with `NestingTooDeep`.
pub open spec fn spec_parse_value(s: Seq<u8>, pos: int, depth: nat) -> Result<(SpecValue, int), (ErrorKind, int)>
    decreases depth, s.len() - pos, 2int,
{
    let p: int = skip_ws(s, pos);
    if p >= s.len() {
        Err((ErrorKind::UnexpectedEndOfInput, s.len() as int))
    } else {
        let b: u8 = s[p];
        if b == 0x22 {
            spec_parse_str(s, p)
        } else if b == 0x2d || is_digit(b) {
            spec_parse_num(s, p)
        } else if b == 0x74 || b == 0x66 {
            spec_parse_bool(s, p)
        } else if b == 0x6e {
            spec_parse_null(s, p)
        } else if b == 0x5b {
            if depth == 0 {
                Err((ErrorKind::NestingTooDeep, p))
            } else {
                spec_parse_array(s, p, (depth - 1) as nat)
            }
        } else if b == 0x7b {
            if depth == 0 {
                Err((ErrorKind::NestingTooDeep, p))
            } else {
                spec_parse_object(s, p, (depth - 1) as nat)
            }
        } else {
            Err((ErrorKind::UnexpectedToken, p))
        }
    }
}

/// The array production: `pos` holds `[`; zero or more comma-separated
/// values follow, then `]`.
pub open spec fn spec_parse_array(s: Seq<u8>, pos: int, depth: nat) -> Result<(SpecValue, int), (ErrorKind, int)>
    decreases depth, s.len() - pos, 1int,
{
    let p: int = skip_ws(s, pos + 1);
    if p >= s.len() {
        Err((ErrorKind::UnterminatedArray, s.len() as int))
    } else if s[p] == 0x5d {
        Ok((SpecValue::Array(Seq::empty()), p + 1))
    } else {
        spec_parse_elements(s, p, depth, Seq::empty())
    }
}

/// One or more further array elements starting at `pos` (not whitespace);
/// `acc` holds the elements already parsed. After an element: `]` closes
/// the array, `,` must be followed by the start of another value
/// (`ExpectedElement` otherwise, so a trailing comma is rejected), and
/// anything else means the closing bracket was never reached.
pub open spec fn spec_parse_elements(
    s: Seq<u8>,
    pos: int,
    depth: nat,
    acc: Seq<SpecValue>,
) -> Result<(SpecValue, int), (ErrorKind, int)>
    decreases depth, s.len() - pos, 3int,
{
    match spec_parse_value(s, pos, depth) {
        Err(e) => Err(e),
        Ok((v, q)) => {
            let r: int = skip_ws(s, q);
            if r >= s.len() {
                Err((ErrorKind::UnterminatedArray, s.len() as int))
            } else if s[r] == 0x5d {
                Ok((SpecValue::Array(acc.push(v)), r + 1))
            } else if s[r] == 0x2c {
                let p2: int = skip_ws(s, r + 1);
                if p2 >= s.len() || !is_value_start(s[p2]) {
                    Err((ErrorKind::ExpectedElement, if p2 <= s.len() { p2 } else { s.len() as int }))
                } else if p2 <= pos {
                    // a parsed value ends past its start, so this case cannot arise
                    Err((ErrorKind::ExpectedElement, p2))
                } else {
                    spec_parse_elements(s, p2, depth, acc.push(v))
                }
            } else {
                Err((ErrorKind::UnterminatedArray, r))
            }
        },
    }
}

/// One object member at `pos` (not whitespace): a string key, optional
/// whitespace, `:`, and a value. A member not beginning with a string key
/// fails with `ExpectedPair`, a missing `:` with `ExpectedColon`.
pub open spec fn spec_parse_pair(s: Seq<u8>, pos: int, depth: nat) -> Result<((Seq<u8>, SpecValue), int), (ErrorKind, int)>
    decreases depth, s.len() - pos, 2int,
{
    if pos >= s.len() {
        Err((ErrorKind::ExpectedPair, s.len() as int))
    } else if s[pos] != 0x22 {
        Err((ErrorKind::ExpectedPair, pos))
    } else {
        match scan_string(s, pos + 1, Seq::empty()) {
            Err(e) => Err(e),
            Ok((k, q)) => {
                let c: int = skip_ws(s, q);
                if c >= s.len() {
                    Err((ErrorKind::ExpectedColon, s.len() as int))
                } else if s[c] != 0x3a {
                    Err((ErrorKind::ExpectedColon, c))
                } else if c < pos {
                    // a parsed key ends past its start, so this case cannot arise
                    Err((ErrorKind::ExpectedColon, c))
                } else {
                    match spec_parse_value(s, c + 1, depth) {
                        Err(e) => Err(e),
                        Ok((v, q2)) => Ok(((k, v), q2)),
                    }
                }
            },
        }
    }
}

/// The object production: `pos` holds `{`; zero or more comma-separated
/// members follow, then `}`.
pub open spec fn spec_parse_object(s: Seq<u8>, pos: int, depth: nat) -> Result<(SpecValue, int), (ErrorKind, int)>
    decreases depth, s.len() - pos, 1int,
{
    let p: int = skip_ws(s, pos + 1);
    if p >= s.len() {
        Err((ErrorKind::UnterminatedObject, s.len() as int))
    } else if s[p] == 0x7d {
        Ok((SpecValue::Object(Seq::empty()), p + 1))
    } else {
        spec_parse_members(s, p, depth, Seq::empty())
    }
}

/// One or more further object members starting at `pos` (not whitespace);
/// `acc` holds the members already parsed, keys unique. After a member:
/// `}` closes the object, `,` must be followed by another member (so a
/// trailing comma fails with `ExpectedPair` at the `}`), and anything else
/// means the closing brace was never reached.
pub open spec fn spec_parse_members(
    s: Seq<u8>,
    pos: int,
    depth: nat,
    acc: Seq<(Seq<u8>, SpecValue)>,
) -> Result<(SpecValue, int), (ErrorKind, int)>
    decreases depth, s.len() - pos, 3int,
{
    match spec_parse_pair(s, pos, depth) {
        Err(e) => Err(e),
        Ok(((k, v), q)) => {
            let acc2: Seq<(Seq<u8>, SpecValue)> = spec_insert_pair(acc, k, v);
            let r: int = skip_ws(s, q);
            if r >= s.len() {
                Err((ErrorKind::UnterminatedObject, s.len() as int))
            } else if s[r] == 0x7d {
                Ok((SpecValue::Object(acc2), r + 1))
            } else if s[r] == 0x2c {
                let p2: int = skip_ws(s, r + 1);
                if p2 >= s.len() {
                    Err((ErrorKind::ExpectedPair, s.len() as int))
                } else if p2 <= pos {
                    // a parsed member ends past its start, so this case cannot arise
                    Err((ErrorKind::ExpectedPair, p2))
                } else {
                    spec_parse_members(s, p2, depth, acc2)
                }
            } else {
                Err((ErrorKind::UnterminatedObject, r))
            }
        },
    }
}

/// A complete document: one value, optional trailing whitespace, then the
/// end of the input; anything else after the value is `TrailingContent` at
/// the first unconsumed byte.
pub open spec fn spec_parse_document(s: Seq<u8>) -> Result<SpecValue, (ErrorKind, int)> {
    match spec_parse_value(s, 0, MAX_DEPTH as nat) {
        Err(e) => Err(e),
        Ok((v, q)) => {
            let p: int = skip_ws(s, q);
            if p < s.len() {
                Err((ErrorKind::TrailingContent, p))
            } else {
                Ok(v)
            }
        },
    }
}

/// Inserting a fresh key appends the pair.
pub proof fn lemma_insert_no_match(ps: Seq<(Seq<u8>, SpecValue)>, k: Seq<u8>, v: SpecValue)
    requires
        forall|j: int| 0 <= j < ps.len() ==> ps[j].0 != k,
    ensures
        spec_insert_pair(ps, k, v) == ps.push((k, v)),
    decreases ps.len(),
{
    if ps.len() == 0 {
        assert(spec_insert_pair(ps, k, v) =~= ps.push((k, v)));
    } else {
        let rest = ps.drop_first();
        assert(forall|j: int| 0 <= j < rest.len() ==> rest[j] == ps[j + 1]);
        lemma_insert_no_match(rest, k, v);
        assert(spec_insert_pair(ps, k, v) =~= ps.push((k, v)));
    }
}

/// Inserting a key already present at `j` (its first occurrence)
/// overwrites that member in place.
pub proof fn lemma_insert_match(ps: Seq<(Seq<u8>, SpecValue)>, k: Seq<u8>, v: SpecValue, j: int)
    requires
        0 <= j < ps.len(),
        ps[j].0 == k,
        forall|i: int| 0 <= i < j ==> ps[i].0 != k,
    ensures
        spec_insert_pair(ps, k, v) == ps.update(j, (k, v)),
    decreases ps.len(),
{
    if j == 0 {
        assert(spec_insert_pair(ps, k, v) =~= ps.update(0, (k, v)));
    } else {
        let rest = ps.drop_first();
        assert(forall|i: int| 0 <= i < rest.len() ==> rest[i] == ps[i + 1]);
        lemma_insert_match(rest, k, v, j - 1);
        assert(spec_insert_pair(ps, k, v) =~= ps.update(j, (k, v)));
    }
}

/// Skipping whitespace stays within the input.
pub proof fn lemma_skip_ws_bounds(s: Seq<u8>, pos: int)
    requires
        0 <= pos <= s.len(),
    ensures
        pos <= skip_ws(s, pos) <= s.len(),
    decreases s.len() - pos,
{
    if pos < s.len() && is_ws(s[pos]) {
        lemma_skip_ws_bounds(s, pos + 1);
    }
}

/// A digit run stays within the input.
pub proof fn lemma_digits_end_bounds(s: Seq<u8>, pos: int)
    requires
        0 <= pos <= s.len(),
    ensures
        pos <= digits_end(s, pos) <= s.len(),
    decreases s.len() - pos,
{
    if pos < s.len() && is_digit(s[pos]) {
        lemma_digits_end_bounds(s, pos + 1);
    }
}

/// String content scanning advances and stays within the input: a scanned
/// string ends past where it began, and a failure's offset never lies
/// beyond the input.
pub proof fn lemma_scan_string_bounds(s: Seq<u8>, pos: int, acc: Seq<u8>)
    requires
        0 <= pos,
    ensures
        match scan_string(s, pos, acc) {
            Ok((b, q)) => pos < q <= s.len(),
            Err((k, o)) => 0 <= o <= s.len(),
        },
    decreases s.len() - pos,
{
    if pos >= s.len() {
    } else if s[pos] == 0x22 {
    } else if s[pos] == 0x5c {
        if pos + 1 >= s.len() {
        } else if simple_escape(s[pos + 1]) >= 0 {
            lemma_scan_string_bounds(s, pos + 2, acc.push(simple_escape(s[pos + 1]) as u8));
        } else if s[pos + 1] == 0x75 {
            let cp: int = hex4(s, pos + 2);
            if cp < 0 {
            } else if 0xd800 <= cp && cp < 0xdc00 {
                let lo: int = if pos + 8 <= s.len() && s[pos + 6] == 0x5c && s[pos + 7] == 0x75 {
                    hex4(s, pos + 8)
                } else {
                    -1
                };
                if 0xdc00 <= lo && lo < 0xe000 {
                    lemma_scan_string_bounds(
                        s,
                        pos + 12,
                        acc + utf8_bytes(0x10000 + (cp - 0xd800) * 0x400 + (lo - 0xdc00)),
                    );
                }
            } else if 0xdc00 <= cp && cp < 0xe000 {
            } else {
                lemma_scan_string_bounds(s, pos + 6, acc + utf8_bytes(cp));
            }
        }
    } else {
        lemma_scan_string_bounds(s, pos + 1, acc.push(s[pos]));
    }
}

/// The fraction part stays within the input.
pub proof fn lemma_frac_bounds(s: Seq<u8>, pos: int)
    requires
        0 <= pos <= s.len(),
    ensures
        match spec_parse_frac(s, pos) {
            Ok((f, e)) => pos <= e <= s.len(),
            Err((k, o)) => 0 <= o <= s.len(),
        },
{
    if pos < s.len() && s[pos] == 0x2e {
        if pos + 1 < s.len() && is_digit(s[pos + 1]) {
            lemma_digits_end_bounds(s, pos + 1);
        }
    }
}

/// The exponent part stays within the input.
pub proof fn lemma_exp_bounds(s: Seq<u8>, pos: int)
    requires
        0 <= pos <= s.len(),
    ensures
        match spec_parse_exp(s, pos) {
            Ok((e, q)) => pos <= q <= s.len(),
            Err((k, o)) => 0 <= o <= s.len(),
        },
{
    if pos < s.len() && (s[pos] == 0x65 || s[pos] == 0x45) {
        let sp: int = pos + 1;
        let dp: int = if sp < s.len() && (s[sp] == 0x2b || s[sp] == 0x2d) {
            sp + 1
        } else {
            sp
        };
        if dp < s.len() && is_digit(s[dp]) {
            lemma_digits_end_bounds(s, dp);
        }
    }
}

/// A parsed number ends past where it began, and a failure's offset never
/// lies beyond the input.
pub proof fn lemma_number_bounds(s: Seq<u8>, pos: int)
    requires
        0 <= pos <= s.len(),
    ensures
        match spec_parse_number(s, pos) {
            Ok((n, q)) => pos < q <= s.len(),
            Err((k, o)) => 0 <= o <= s.len(),
        },
{
    let neg: bool = pos < s.len() && s[pos] == 0x2d;
    let ip: int = if neg { pos + 1 } else { pos };
    if ip < s.len() && is_digit(s[ip]) {
        lemma_digits_end_bounds(s, ip + 1);
        assert(digits_end(s, ip) == digits_end(s, ip + 1));
        let ie: int = digits_end(s, ip);
        lemma_frac_bounds(s, ie);
        match spec_parse_frac(s, ie) {
            Ok((f, fe)) => {
                lemma_exp_bounds(s, fe);
            },
            Err(e) => {},
        }
    }
}

/// A parsed value ends past where it began, and a failure's offset never
/// lies beyond the input.
pub proof fn lemma_value_bounds(s: Seq<u8>, pos: int, depth: nat)
    requires
        0 <= pos <= s.len(),
    ensures
        match spec_parse_value(s, pos, depth) {
            Ok((v, q)) => pos < q <= s.len(),
            Err((k, o)) => 0 <= o <= s.len(),
        },
    decreases depth, s.len() - pos, 2int,
{
    lemma_skip_ws_bounds(s, pos);
    let p: int = skip_ws(s, pos);
    if p < s.len() {
        let b: u8 = s[p];
        if b == 0x22 {
            lemma_scan_string_bounds(s, p + 1, Seq::empty());
        } else if b == 0x2d || is_digit(b) {
            lemma_number_bounds(s, p);
        } else if b == 0x5b && depth > 0 {
            lemma_array_bounds(s, p, (depth - 1) as nat);
        } else if b == 0x7b && depth > 0 {
            lemma_object_bounds(s, p, (depth - 1) as nat);
        }
    }
}

/// A parsed array ends past where it began, and a failure's offset never
/// lies beyond the input.
pub proof fn lemma_array_bounds(s: Seq<u8>, pos: int, depth: nat)
    requires
        0 <= pos < s.len(),
    ensures
        match spec_parse_array(s, pos, depth) {
            Ok((v, q)) => pos < q <= s.len(),
            Err((k, o)) => 0 <= o <= s.len(),
        },
    decreases depth, s.len() - pos, 1int,
{
    lemma_skip_ws_bounds(s, pos + 1);
    let p: int = skip_ws(s, pos + 1);
    if p < s.len() && s[p] != 0x5d {
        lemma_elements_bounds(s, p, depth, Seq::empty());
    }
}

/// Array element parsing ends past where it began, and a failure's offset
/// never lies beyond the input.
pub proof fn lemma_elements_bounds(s: Seq<u8>, pos: int, depth: nat, acc: Seq<SpecValue>)
    requires
        0 <= pos < s.len(),
    ensures
        match spec_parse_elements(s, pos, depth, acc) {
            Ok((v, q)) => pos < q <= s.len(),
            Err((k, o)) => 0 <= o <= s.len(),
        },
    decreases depth, s.len() - pos, 3int,
{
    lemma_value_bounds(s, pos, depth);
    match spec_parse_value(s, pos, depth) {
        Err(e) => {},
        Ok((v, q)) => {
            lemma_skip_ws_bounds(s, q);
            let r: int = skip_ws(s, q);
            if r < s.len() && s[r] == 0x2c {
                lemma_skip_ws_bounds(s, r + 1);
                let p2: int = skip_ws(s, r + 1);
                if p2 < s.len() && is_value_start(s[p2]) {
                    lemma_elements_bounds(s, p2, depth, acc.push(v));
                }
            }
        },
    }
}

/// A parsed object member ends past where it began, and a failure's offset
/// never lies beyond the input.
pub proof fn lemma_pair_bounds(s: Seq<u8>, pos: int, depth: nat)
    requires
        0 <= pos <= s.len(),
    ensures
        match spec_parse_pair(s, pos, depth) {
            Ok((kv, q)) => pos < q <= s.len(),
            Err((k, o)) => 0 <= o <= s.len(),
        },
    decreases depth, s.len() - pos, 2int,
{
    if pos < s.len() && s[pos] == 0x22 {
        lemma_scan_string_bounds(s, pos + 1, Seq::empty());
        match scan_string(s, pos + 1, Seq::empty()) {
            Err(e) => {},
            Ok((k, q)) => {
                lemma_skip_ws_bounds(s, q);
                let c: int = skip_ws(s, q);
                if c < s.len() && s[c] == 0x3a {
                    lemma_value_bounds(s, c + 1, depth);
                }
            },
        }
    }
}

/// A parsed object ends past where it began, and a failure's offset never
/// lies beyond the input.
pub proof fn lemma_object_bounds(s: Seq<u8>, pos: int, depth: nat)
    requires
        0 <= pos < s.len(),
    ensures
        match spec_parse_object(s, pos, depth) {
            Ok((v, q)) => pos < q <= s.len(),
            Err((k, o)) => 0 <= o <= s.len(),
        },
    decreases depth, s.len() - pos, 1int,
{
    lemma_skip_ws_bounds(s, pos + 1);
    let p: int = skip_ws(s, pos + 1);
    if p < s.len() && s[p] != 0x7d {
        lemma_members_bounds(s, p, depth, Seq::empty());
    }
}

/// Object member parsing ends past where it began, and a failure's offset
/// never lies beyond the input.
pub proof fn lemma_members_bounds(
    s: Seq<u8>,
    pos: int,
    depth: nat,
    acc: Seq<(Seq<u8>, SpecValue)>,
)
    requires
        0 <= pos < s.len(),
    ensures
        match spec_parse_members(s, pos, depth, acc) {
            Ok((v, q)) => pos < q <= s.len(),
            Err((k, o)) => 0 <= o <= s.len(),
        },
    decreases depth, s.len() - pos, 3int,
{
    lemma_pair_bounds(s, pos, depth);
    match spec_parse_pair(s, pos, depth) {
        Err(e) => {},
        Ok(((k, v), q)) => {
            lemma_skip_ws_bounds(s, q);
            let r: int = skip_ws(s, q);
            if r < s.len() && s[r] == 0x2c {
                lemma_skip_ws_bounds(s, r + 1);
                let p2: int = skip_ws(s, r + 1);
                if p2 < s.len() {
                    lemma_members_bounds(s, p2, depth, spec_insert_pair(acc, k, v));
                }
            }
        },
    }
}

} // verus!
