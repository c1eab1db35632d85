//! A canonical renderer, defined only at the specification level: it is
//! the measuring stick for the round-trip law, which states that parsing
//! a rendered document gives back exactly the value it came from.
//!
//! The rendering is minimal: no insignificant whitespace, strings escaped
//! only where the grammar demands it (quote, backslash, and control
//! bytes), numbers written digit for digit.

use vstd::prelude::*;

use crate::error::ErrorKind;
use crate::grammar::{
    digits_end, digits_of, hex4, hex_val, is_digit, is_value_start, is_ws, lemma_insert_no_match,
    lit_false, lit_null, lit_true, match_lit, scan_string, simple_escape, skip_ws, spec_parse_exp,
    spec_parse_frac, spec_parse_number, spec_parse_pair, spec_parse_value, utf8_bytes,
};
use crate::grammar::{spec_parse_elements, spec_parse_members};
use crate::value::{SpecNumber, SpecValue};

verus! {

broadcast use vstd::seq::axiom_seq_index_decreases, vstd::seq::axiom_seq_subrange_decreases;

/// Digit values, each below ten.
pub open spec fn wf_digits(ds: Seq<u8>) -> bool {
    forall|i: int| 0 <= i < ds.len() ==> ds[i] < 10
}

/// A well-formed number: at least one integer digit, every digit below
/// ten, and no exponent sign without an exponent.
pub open spec fn wf_number(n: SpecNumber) -> bool {
    &&& n.int_digits.len() >= 1
    &&& wf_digits(n.int_digits)
    &&& wf_digits(n.frac_digits)
    &&& wf_digits(n.exp_digits)
    &&& (n.exp_digits.len() == 0 ==> !n.exp_neg)
}

/// Keys pairwise distinct.
pub open spec fn distinct_keys(ps: Seq<(Seq<u8>, SpecValue)>) -> bool {
    forall|i: int, j: int| 0 <= i < j < ps.len() ==> ps[i].0 != ps[j].0
}

/// A well-formed value: numbers well formed, object keys distinct, and
/// the same throughout the tree.
pub open spec fn wf_value(v: SpecValue) -> bool
    decreases v,
{
    match v {
        SpecValue::Null => true,
        SpecValue::Bool(b) => true,
        SpecValue::Num(n) => wf_number(n),
        SpecValue::Str(bs) => true,
        SpecValue::Array(vs) => wf_elems(vs),
        SpecValue::Object(ps) => wf_members(ps) && distinct_keys(ps),
    }
}

/// Every element well formed.
pub open spec fn wf_elems(vs: Seq<SpecValue>) -> bool
    decreases vs,
{
    if vs.len() == 0 {
        true
    } else {
        wf_value(vs[0]) && wf_elems(vs.subrange(1, vs.len() as int))
    }
}

/// Every member's value well formed.
pub open spec fn wf_members(ps: Seq<(Seq<u8>, SpecValue)>) -> bool
    decreases ps,
{
    if ps.len() == 0 {
        true
    } else {
        wf_value(ps[0].1) && wf_members(ps.subrange(1, ps.len() as int))
    }
}

/// The larger of two naturals.
pub open spec fn nat_max(a: nat, b: nat) -> nat {
    if a >= b {
        a
    } else {
        b
    }
}

/// How deeply arrays and objects nest below `v`.
pub open spec fn depth_of(v: SpecValue) -> nat
    decreases v,
{
    match v {
        SpecValue::Array(vs) => 1 + elems_depth(vs),
        SpecValue::Object(ps) => 1 + members_depth(ps),
        _ => 0,
    }
}

/// The deepest nesting among the elements.
pub open spec fn elems_depth(vs: Seq<SpecValue>) -> nat
    decreases vs,
{
    if vs.len() == 0 {
        0
    } else {
        nat_max(depth_of(vs[0]), elems_depth(vs.subrange(1, vs.len() as int)))
    }
}

/// The deepest nesting among the members' values.
pub open spec fn members_depth(ps: Seq<(Seq<u8>, SpecValue)>) -> nat
    decreases ps,
{
    if ps.len() == 0 {
        0
    } else {
        nat_max(depth_of(ps[0].1), members_depth(ps.subrange(1, ps.len() as int)))
    }
}

/// Digit values as ASCII digits.
pub open spec fn render_digits(ds: Seq<u8>) -> Seq<u8> {
    ds.map_values(|d: u8| (0x30 + d) as u8)
}

/// A number, written exactly as its parts dictate.
pub open spec fn render_number(n: SpecNumber) -> Seq<u8> {
    (if n.neg {
        seq![0x2du8]
    } else {
        Seq::empty()
    }) + render_digits(n.int_digits) + (if n.frac_digits.len() > 0 {
        seq![0x2eu8] + render_digits(n.frac_digits)
    } else {
        Seq::empty()
    }) + (if n.exp_digits.len() > 0 {
        seq![0x65u8] + (if n.exp_neg {
            seq![0x2du8]
        } else {
            Seq::empty()
        }) + render_digits(n.exp_digits)
    } else {
        Seq::empty()
    })
}

/// The lowercase ASCII hexadecimal digit for a value below sixteen.
pub open spec fn hex_digit_char(v: u8) -> u8 {
    if v < 10 {
        (0x30 + v) as u8
    } else {
        (0x61 + v - 10) as u8
    }
}

/// One string content byte: escaped where the grammar demands it (the
/// quote, the backslash, and control bytes), written raw otherwise.
pub open spec fn render_str_byte(b: u8) -> Seq<u8> {
    if b == 0x22 {
        seq![0x5c, 0x22]
    } else if b == 0x5c {
        seq![0x5c, 0x5c]
    } else if b == 0x08 {
        seq![0x5c, 0x62]
    } else if b == 0x0c {
        seq![0x5c, 0x66]
    } else if b == 0x0a {
        seq![0x5c, 0x6e]
    } else if b == 0x0d {
        seq![0x5c, 0x72]
    } else if b == 0x09 {
        seq![0x5c, 0x74]
    } else if b < 0x20 {
        seq![0x5c, 0x75, 0x30, 0x30, hex_digit_char(b / 16), hex_digit_char(b % 16)]
    } else {
        seq![b]
    }
}

/// String content, byte by byte.
pub open spec fn render_str_content(bs: Seq<u8>) -> Seq<u8>
    decreases bs.len(),
{
    if bs.len() == 0 {
        Seq::empty()
    } else {
        render_str_byte(bs[0]) + render_str_content(bs.subrange(1, bs.len() as int))
    }
}

/// A string literal: quoted, escaped content.
pub open spec fn render_string(bs: Seq<u8>) -> Seq<u8> {
    seq![0x22u8] + render_str_content(bs) + seq![0x22u8]
}

/// A whole value, written without insignificant whitespace.
pub open spec fn render(v: SpecValue) -> Seq<u8>
    decreases v,
{
    match v {
        SpecValue::Null => lit_null(),
        SpecValue::Bool(b) => if b {
            lit_true()
        } else {
            lit_false()
        },
        SpecValue::Num(n) => render_number(n),
        SpecValue::Str(bs) => render_string(bs),
        SpecValue::Array(vs) => seq![0x5bu8] + render_elems(vs) + seq![0x5du8],
        SpecValue::Object(ps) => seq![0x7bu8] + render_members(ps) + seq![0x7du8],
    }
}

/// Comma-separated elements.
pub open spec fn render_elems(vs: Seq<SpecValue>) -> Seq<u8>
    decreases vs,
{
    if vs.len() == 0 {
        Seq::empty()
    } else if vs.len() == 1 {
        render(vs[0])
    } else {
        render(vs[0]) + seq![0x2cu8] + render_elems(vs.subrange(1, vs.len() as int))
    }
}

/// Comma-separated `key : value` members.
pub open spec fn render_members(ps: Seq<(Seq<u8>, SpecValue)>) -> Seq<u8>
    decreases ps,
{
    if ps.len() == 0 {
        Seq::empty()
    } else if ps.len() == 1 {
        render_string(ps[0].0) + seq![0x3au8] + render(ps[0].1)
    } else {
        render_string(ps[0].0) + seq![0x3au8] + render(ps[0].1) + seq![0x2cu8] + render_members(
            ps.subrange(1, ps.len() as int),
        )
    }
}

/// A rendered value is never empty and always begins with a byte that the
/// value dispatch accepts.
pub proof fn lemma_render_first_byte(v: SpecValue)
    requires
        wf_value(v),
    ensures
        render(v).len() >= 1,
        is_value_start(render(v)[0]),
{
    match v {
        SpecValue::Num(n) => {
            assert(render_digits(n.int_digits).len() == n.int_digits.len());
            if n.neg {
            } else {
                assert(render(v)[0] == render_digits(n.int_digits)[0]);
                assert(render_digits(n.int_digits)[0] == (0x30 + n.int_digits[0]) as u8);
                assert(is_digit((0x30 + n.int_digits[0]) as u8));
            }
        },
        _ => {},
    }
}

/// A byte that could lengthen a number token just before it.
pub open spec fn extends_number(b: u8) -> bool {
    is_digit(b) || b == 0x2e || b == 0x65 || b == 0x45
}

/// A run of rendered digits, followed by a non-digit or the end, scans
/// back to exactly the digit values it came from.
pub proof fn lemma_digits_run(s: Seq<u8>, a: int, ds: Seq<u8>)
    requires
        wf_digits(ds),
        0 <= a,
        a + ds.len() <= s.len(),
        s.subrange(a, a + ds.len()) == render_digits(ds),
        a + ds.len() == s.len() || !is_digit(s[a + ds.len()]),
    ensures
        digits_end(s, a) == a + ds.len(),
        digits_of(s, a, a + ds.len()) == ds,
    decreases ds.len(),
{
    let b: int = a + ds.len();
    if ds.len() == 0 {
        assert(digits_of(s, a, a) =~= ds);
    } else {
        assert(s[a] == render_digits(ds)[0]);
        assert(s[a] == (0x30 + ds[0]) as u8);
        assert(is_digit(s[a]));
        let rest = ds.subrange(1, ds.len() as int);
        assert forall|t: int| 0 <= t < rest.len() implies s.subrange(a + 1, b)[t]
            == render_digits(rest)[t] by {
            assert(s.subrange(a, a + ds.len())[t + 1] == render_digits(ds)[t + 1]);
        }
        assert(s.subrange(a + 1, b) =~= render_digits(rest));
        lemma_digits_run(s, a + 1, rest);
        assert(digits_end(s, a) == digits_end(s, a + 1));
        assert(digits_of(s, a, b) =~= ds);
    }
}

/// A rendered hexadecimal digit reads back to its value.
pub proof fn lemma_hex_digit_char(v: u8)
    requires
        v < 16,
    ensures
        hex_val(hex_digit_char(v)) == v as int,
{
}

/// Rendered string content followed by a closing quote scans to exactly
/// the bytes it came from, appended to whatever was scanned before.
pub proof fn lemma_scan_rendered(s: Seq<u8>, i: int, bs: Seq<u8>, acc: Seq<u8>)
    requires
        0 <= i,
        i + render_str_content(bs).len() + 1 <= s.len(),
        s.subrange(i, i + render_str_content(bs).len()) == render_str_content(bs),
        s[i + render_str_content(bs).len()] == 0x22,
    ensures
        scan_string(s, i, acc) == Ok::<(Seq<u8>, int), (ErrorKind, int)>(
            (acc + bs, i + render_str_content(bs).len() + 1),
        ),
    decreases bs.len(),
{
    let rc = render_str_content(bs);
    if bs.len() == 0 {
        assert(s[i] == 0x22);
        assert(acc + bs =~= acc);
    } else {
        let b: u8 = bs[0];
        let rb = render_str_byte(b);
        let rest = bs.subrange(1, bs.len() as int);
        let rc2 = render_str_content(rest);
        assert(rc == rb + rc2);
        assert forall|t: int| 0 <= t < rb.len() implies s[i + t] == rb[t] by {
            assert(s.subrange(i, i + rc.len())[t] == rc[t]);
        }
        assert forall|t: int| 0 <= t < rc2.len() implies s.subrange(
            i + rb.len(),
            i + rb.len() + rc2.len(),
        )[t] == rc2[t] by {
            assert(s.subrange(i, i + rc.len())[rb.len() + t] == rc[rb.len() + t]);
        }
        assert(s.subrange(i + rb.len(), i + rb.len() + rc2.len()) =~= rc2);
        assert(s[i + rb.len() + rc2.len()] == 0x22);
        if b == 0x22 || b == 0x5c || b == 0x08 || b == 0x0c || b == 0x0a || b == 0x0d || b
            == 0x09 {
            assert(s[i] == 0x5c);
            assert(simple_escape(s[i + 1]) == b as int);
            lemma_scan_rendered(s, i + 2, rest, acc.push(b));
            assert(acc.push(b) + rest =~= acc + bs);
        } else if b < 0x20 {
            assert(s[i] == 0x5c && s[i + 1] == 0x75);
            assert(simple_escape(0x75) == -1);
            assert(s[i + 2] == 0x30 && s[i + 3] == 0x30);
            assert(s[i + 4] == hex_digit_char(b / 16) && s[i + 5] == hex_digit_char(b % 16));
            lemma_hex_digit_char(b / 16);
            lemma_hex_digit_char(b % 16);
            assert(hex4(s, i + 2) == ((b / 16) as int) * 0x10 + ((b % 16) as int));
            assert(hex4(s, i + 2) == b as int);
            assert(utf8_bytes(b as int) =~= seq![b]);
            lemma_scan_rendered(s, i + 6, rest, acc + utf8_bytes(b as int));
            assert((acc + utf8_bytes(b as int)) + rest =~= acc + bs);
        } else {
            assert(rb =~= seq![b]);
            assert(s[i + 0] == rb[0]);
            assert(s[i] == b);
            lemma_scan_rendered(s, i + 1, rest, acc.push(b));
            assert(acc.push(b) + rest =~= acc + bs);
        }
    }
}

/// A rendered number, not followed by a byte that could lengthen it,
/// parses back to exactly the number it came from.
pub proof fn lemma_parse_rendered_number(s: Seq<u8>, pos: int, n: SpecNumber)
    requires
        wf_number(n),
        0 <= pos,
        pos + render_number(n).len() <= s.len(),
        s.subrange(pos, pos + render_number(n).len()) == render_number(n),
        pos + render_number(n).len() == s.len() || !extends_number(s[pos + render_number(n).len()]),
    ensures
        spec_parse_number(s, pos) == Ok::<(SpecNumber, int), (ErrorKind, int)>(
            (n, pos + render_number(n).len()),
        ),
{
    let rn = render_number(n);
    let end: int = pos + rn.len();
    let sgn: Seq<u8> = if n.neg { seq![0x2du8] } else { Seq::empty() };
    let rid = render_digits(n.int_digits);
    let fr: Seq<u8> = if n.frac_digits.len() > 0 {
        seq![0x2eu8] + render_digits(n.frac_digits)
    } else {
        Seq::empty()
    };
    let ex: Seq<u8> = if n.exp_digits.len() > 0 {
        seq![0x65u8] + (if n.exp_neg { seq![0x2du8] } else { Seq::empty() })
            + render_digits(n.exp_digits)
    } else {
        Seq::empty()
    };
    assert(rn == sgn + rid + fr + ex);
    assert forall|t: int| 0 <= t < rn.len() implies s[pos + t] == rn[t] by {
        assert(s.subrange(pos, pos + rn.len())[t] == rn[t]);
    }
    let ni: int = n.int_digits.len() as int;
    let nf: int = n.frac_digits.len() as int;
    let ne: int = n.exp_digits.len() as int;
    let ip: int = pos + sgn.len();
    let ie: int = ip + ni;
    let fe: int = ie + fr.len();
    assert(end == fe + ex.len());
    // the sign
    if n.neg {
        assert(s[pos + 0] == rn[0]);
        assert(s[pos] == 0x2d);
    } else {
        assert(s[pos + 0] == rn[0]);
        assert(rn[0] == rid[0]);
        assert(s[pos] == rid[0]);
        assert(s[pos] == (0x30 + n.int_digits[0]) as u8);
        assert(s[pos] != 0x2d);
    }
    // the integer digits
    assert forall|t: int| 0 <= t < ni implies s.subrange(ip, ie)[t] == rid[t] by {
        assert(s[ip + t] == rn[sgn.len() + t]);
    }
    assert(s.subrange(ip, ie) =~= rid);
    assert(ie == s.len() || !is_digit(s[ie])) by {
        if ie < s.len() {
            if nf > 0 {
                assert(s[ie] == rn[sgn.len() + ni]);
                assert(s[ie] == 0x2e);
            } else if ne > 0 {
                assert(s[ie] == rn[sgn.len() + ni]);
                assert(s[ie] == 0x65);
            }
        }
    }
    lemma_digits_run(s, ip, n.int_digits);
    assert(is_digit(s[ip]));
    // the fraction part
    if nf > 0 {
        assert(s[pos + (sgn.len() + ni)] == rn[sgn.len() + ni]);
        assert(rn[sgn.len() + ni] == fr[0]);
        assert(s[ie] == 0x2e);
        let rfd = render_digits(n.frac_digits);
        assert forall|t: int| 0 <= t < nf implies s.subrange(ie + 1, fe)[t] == rfd[t] by {
            assert(s[ie + 1 + t] == rn[sgn.len() + ni + 1 + t]);
            assert(fr[1 + t] == rfd[t]);
        }
        assert(s.subrange(ie + 1, fe) =~= rfd);
        assert(fe == s.len() || !is_digit(s[fe])) by {
            if fe < s.len() && ne > 0 {
                assert(s[fe] == rn[sgn.len() + ni + fr.len()]);
                assert(s[fe] == 0x65);
            }
        }
        lemma_digits_run(s, ie + 1, n.frac_digits);
        assert(s[ie + 1] == (0x30 + n.frac_digits[0]) as u8);
        assert(spec_parse_frac(s, ie) == Ok::<(Seq<u8>, int), (ErrorKind, int)>(
            (n.frac_digits, fe),
        ));
    } else {
        assert(ie == fe);
        if ie < s.len() {
            assert(s[ie] != 0x2e) by {
                if ne > 0 {
                    assert(s[ie] == 0x65);
                } else {
                    assert(!extends_number(s[end]));
                }
            }
        }
        assert(n.frac_digits =~= Seq::<u8>::empty());
        assert(spec_parse_frac(s, ie) == Ok::<(Seq<u8>, int), (ErrorKind, int)>(
            (n.frac_digits, fe),
        ));
    }
    // the exponent part
    if ne > 0 {
        assert(s[fe] == rn[sgn.len() + ni + fr.len()]);
        assert(s[fe] == 0x65);
        let esgn: Seq<u8> = if n.exp_neg { seq![0x2du8] } else { Seq::empty() };
        let red = render_digits(n.exp_digits);
        let dp: int = fe + 1 + esgn.len();
        assert forall|t: int| 0 <= t < ne implies s.subrange(dp, end)[t] == red[t] by {
            assert(s[dp + t] == rn[sgn.len() + ni + fr.len() + 1 + esgn.len() + t]);
            assert(ex[1 + esgn.len() + t] == red[t]);
        }
        assert(s.subrange(dp, end) =~= red);
        assert(end == s.len() || !is_digit(s[end]));
        lemma_digits_run(s, dp, n.exp_digits);
        assert(s[dp] == (0x30 + n.exp_digits[0]) as u8);
        assert(is_digit(s[dp]));
        if n.exp_neg {
            assert(s[pos + (sgn.len() + ni + fr.len() + 1)] == rn[sgn.len() + ni + fr.len() + 1]);
            assert(rn[sgn.len() + ni + fr.len() + 1] == ex[1]);
            assert(s[fe + 1] == 0x2d);
        } else {
            assert(s[pos + (sgn.len() + ni + fr.len() + 1)] == rn[sgn.len() + ni + fr.len() + 1]);
            assert(rn[sgn.len() + ni + fr.len() + 1] == ex[1]);
            assert(s[fe + 1] == ex[1]);
            assert(s[fe + 1] == (0x30 + n.exp_digits[0]) as u8);
            assert(s[fe + 1] != 0x2d && s[fe + 1] != 0x2b);
        }
        assert(spec_parse_exp(s, fe) == Ok::<((bool, Seq<u8>), int), (ErrorKind, int)>(
            ((n.exp_neg, n.exp_digits), end),
        ));
    } else {
        assert(fe == end);
        if fe < s.len() {
            assert(!extends_number(s[end]));
            assert(s[fe] != 0x65 && s[fe] != 0x45);
        }
        assert(n.exp_digits =~= Seq::<u8>::empty());
        assert(!n.exp_neg);
        assert(spec_parse_exp(s, fe) == Ok::<((bool, Seq<u8>), int), (ErrorKind, int)>(
            ((n.exp_neg, n.exp_digits), end),
        ));
    }
    assert(spec_parse_number(s, pos) == Ok::<(SpecNumber, int), (ErrorKind, int)>((n, end)));
}

/// A rendered string literal scans back to exactly the bytes it came
/// from.
pub proof fn lemma_parse_rendered_string(s: Seq<u8>, pos: int, bs: Seq<u8>)
    requires
        0 <= pos,
        pos + render_string(bs).len() <= s.len(),
        s.subrange(pos, pos + render_string(bs).len()) == render_string(bs),
    ensures
        s[pos] == 0x22,
        scan_string(s, pos + 1, Seq::empty()) == Ok::<(Seq<u8>, int), (ErrorKind, int)>(
            (bs, pos + render_string(bs).len()),
        ),
{
    let rs = render_string(bs);
    let rc = render_str_content(bs);
    assert(rs == seq![0x22u8] + rc + seq![0x22u8]);
    assert forall|t: int| 0 <= t < rs.len() implies s[pos + t] == rs[t] by {
        assert(s.subrange(pos, pos + rs.len())[t] == rs[t]);
    }
    assert(s[pos + 0] == rs[0]);
    assert(rs[0] == 0x22);
    assert(s[pos] == 0x22);
    assert forall|t: int| 0 <= t < rc.len() implies s.subrange(pos + 1, pos + 1 + rc.len())[t]
        == rc[t] by {
        assert(s[pos + 1 + t] == rs[1 + t]);
    }
    assert(s.subrange(pos + 1, pos + 1 + rc.len()) =~= rc);
    assert(s[pos + 1 + rc.len()] == rs[1 + rc.len() as int]);
    assert(s[pos + 1 + rc.len()] == 0x22);
    lemma_scan_rendered(s, pos + 1, bs, Seq::empty());
    assert(Seq::empty() + bs =~= bs);
}

/// A rendered value, not followed by a byte that could lengthen a number
/// token, parses back to exactly the value it came from, with the cursor
/// just past the rendering.
pub proof fn lemma_parse_rendered_value(s: Seq<u8>, pos: int, v: SpecValue, depth: nat)
    requires
        wf_value(v),
        depth_of(v) <= depth,
        0 <= pos,
        pos + render(v).len() <= s.len(),
        s.subrange(pos, pos + render(v).len()) == render(v),
        pos + render(v).len() == s.len() || !extends_number(s[pos + render(v).len()]),
    ensures
        spec_parse_value(s, pos, depth) == Ok::<(SpecValue, int), (ErrorKind, int)>(
            (v, pos + render(v).len()),
        ),
    decreases v,
{
    let rv = render(v);
    let end: int = pos + rv.len();
    lemma_render_first_byte(v);
    assert forall|t: int| 0 <= t < rv.len() implies s[pos + t] == rv[t] by {
        assert(s.subrange(pos, pos + rv.len())[t] == rv[t]);
    }
    assert(s[pos + 0] == rv[0]);
    assert(!is_ws(s[pos]));
    assert(skip_ws(s, pos) == pos);
    match v {
        SpecValue::Null => {
            assert(s.subrange(pos, pos + 4) =~= lit_null());
            assert(match_lit(s, pos, lit_null()));
        },
        SpecValue::Bool(b) => {
            if b {
                assert(s.subrange(pos, pos + 4) =~= lit_true());
                assert(match_lit(s, pos, lit_true()));
            } else {
                assert(s.subrange(pos, pos + 5) =~= lit_false());
                assert(match_lit(s, pos, lit_false()));
                assert(!match_lit(s, pos, lit_true())) by {
                    if match_lit(s, pos, lit_true()) {
                        assert(s.subrange(pos, pos + 4)[0] == lit_true()[0]);
                    }
                }
            }
        },
        SpecValue::Num(n) => {
            lemma_parse_rendered_number(s, pos, n);
        },
        SpecValue::Str(bs) => {
            lemma_parse_rendered_string(s, pos, bs);
        },
        SpecValue::Array(vs) => {
            assert(s[pos] == 0x5b);
            let re = render_elems(vs);
            assert(rv == seq![0x5bu8] + re + seq![0x5du8]);
            if vs.len() == 0 {
                assert(s[pos + 1] == rv[1]);
                assert(s[pos + 1] == 0x5d);
                assert(skip_ws(s, pos + 1) == pos + 1);
                assert(vs =~= Seq::<SpecValue>::empty());
            } else {
                lemma_render_first_byte(vs[0]);
                assert(re[0] == render(vs[0])[0]);
                assert(s[pos + 1] == rv[1]);
                assert(rv[1] == re[0]);
                assert(is_value_start(s[pos + 1]));
                assert(!is_ws(s[pos + 1]));
                assert(skip_ws(s, pos + 1) == pos + 1);
                assert(s[pos + 1] != 0x5d);
                assert forall|t: int| 0 <= t < re.len() implies s.subrange(
                    pos + 1,
                    pos + 1 + re.len(),
                )[t] == re[t] by {
                    assert(s[pos + (1 + t)] == rv[1 + t]);
                }
                assert(s.subrange(pos + 1, pos + 1 + re.len()) =~= re);
                assert(s[pos + (1 + re.len())] == rv[1 + re.len() as int]);
                assert(s[pos + 1 + re.len()] == 0x5d);
                lemma_parse_rendered_elems(s, pos + 1, vs, (depth - 1) as nat, Seq::empty());
                assert(Seq::empty() + vs =~= vs);
            }
        },
        SpecValue::Object(ps) => {
            assert(s[pos] == 0x7b);
            let rm = render_members(ps);
            assert(rv == seq![0x7bu8] + rm + seq![0x7du8]);
            if ps.len() == 0 {
                assert(s[pos + 1] == rv[1]);
                assert(s[pos + 1] == 0x7d);
                assert(skip_ws(s, pos + 1) == pos + 1);
                assert(ps =~= Seq::<(Seq<u8>, SpecValue)>::empty());
            } else {
                let rk = render_string(ps[0].0);
                assert(rk.len() >= 2);
                assert(rm[0] == rk[0]);
                assert(rk[0] == 0x22);
                assert(s[pos + 1] == rv[1]);
                assert(rv[1] == rm[0]);
                assert(s[pos + 1] == 0x22);
                assert(!is_ws(s[pos + 1]));
                assert(skip_ws(s, pos + 1) == pos + 1);
                assert(s[pos + 1] != 0x7d);
                assert forall|t: int| 0 <= t < rm.len() implies s.subrange(
                    pos + 1,
                    pos + 1 + rm.len(),
                )[t] == rm[t] by {
                    assert(s[pos + (1 + t)] == rv[1 + t]);
                }
                assert(s.subrange(pos + 1, pos + 1 + rm.len()) =~= rm);
                assert(s[pos + (1 + rm.len())] == rv[1 + rm.len() as int]);
                assert(s[pos + 1 + rm.len()] == 0x7d);
                lemma_parse_rendered_members(s, pos + 1, ps, (depth - 1) as nat, Seq::empty());
                assert(Seq::empty() + ps =~= ps);
            }
        },
    }
}

/// Rendered elements followed by `]` parse back to exactly the elements,
/// appended to whatever was parsed before.
pub proof fn lemma_parse_rendered_elems(
    s: Seq<u8>,
    pos: int,
    vs: Seq<SpecValue>,
    depth: nat,
    acc: Seq<SpecValue>,
)
    requires
        vs.len() >= 1,
        wf_elems(vs),
        elems_depth(vs) <= depth,
        0 <= pos,
        pos + render_elems(vs).len() + 1 <= s.len(),
        s.subrange(pos, pos + render_elems(vs).len()) == render_elems(vs),
        s[pos + render_elems(vs).len()] == 0x5d,
    ensures
        spec_parse_elements(s, pos, depth, acc) == Ok::<(SpecValue, int), (ErrorKind, int)>(
            (SpecValue::Array(acc + vs), pos + render_elems(vs).len() + 1),
        ),
    decreases vs,
{
    let re = render_elems(vs);
    let r0 = render(vs[0]);
    assert forall|t: int| 0 <= t < re.len() implies s[pos + t] == re[t] by {
        assert(s.subrange(pos, pos + re.len())[t] == re[t]);
    }
    if vs.len() == 1 {
        assert(re == r0);
        assert(s[pos + r0.len()] == 0x5d);
        assert(!extends_number(0x5d));
        assert(elems_depth(vs.subrange(1, 1)) == 0);
        assert(depth_of(vs[0]) <= depth);
        lemma_parse_rendered_value(s, pos, vs[0], depth);
        let q: int = pos + r0.len();
        assert(skip_ws(s, q) == q);
        assert(acc.push(vs[0]) =~= acc + vs);
    } else {
        let rest = vs.subrange(1, vs.len() as int);
        let re2 = render_elems(rest);
        assert(re == r0 + seq![0x2cu8] + re2);
        assert(s[pos + r0.len()] == re[r0.len() as int]);
        assert(re[r0.len() as int] == 0x2c);
        assert(!extends_number(0x2c));
        assert forall|t: int| 0 <= t < r0.len() implies s.subrange(pos, pos + r0.len())[t]
            == r0[t] by {
            assert(s[pos + t] == re[t]);
        }
        assert(s.subrange(pos, pos + r0.len()) =~= r0);
        assert(depth_of(vs[0]) <= depth);
        lemma_parse_rendered_value(s, pos, vs[0], depth);
        let q: int = pos + r0.len();
        assert(s[q] == 0x2c);
        assert(skip_ws(s, q) == q);
        assert(s[q] != 0x5d);
        assert(wf_elems(rest));
        assert(wf_value(rest[0]));
        lemma_render_first_byte(rest[0]);
        assert(re2[0] == render(rest[0])[0]);
        assert(s[pos + (r0.len() + 1)] == re[r0.len() as int + 1]);
        assert(re[r0.len() as int + 1] == re2[0]);
        assert(is_value_start(s[q + 1]));
        assert(!is_ws(s[q + 1]));
        assert(skip_ws(s, q + 1) == q + 1);
        assert forall|t: int| 0 <= t < re2.len() implies s.subrange(q + 1, q + 1 + re2.len())[t]
            == re2[t] by {
            assert(s[pos + (r0.len() + 1 + t)] == re[r0.len() as int + 1 + t]);
        }
        assert(s.subrange(q + 1, q + 1 + re2.len()) =~= re2);
        assert(s[q + 1 + re2.len()] == 0x5d);
        lemma_parse_rendered_elems(s, q + 1, rest, depth, acc.push(vs[0]));
        assert(acc.push(vs[0]) + rest =~= acc + vs);
    }
}

/// Rendered members followed by `}` parse back to exactly the members,
/// appended to whatever was parsed before, provided no key collides.
#[verifier::rlimit(100)]
#[verifier::spinoff_prover]
pub proof fn lemma_parse_rendered_members(
    s: Seq<u8>,
    pos: int,
    ps: Seq<(Seq<u8>, SpecValue)>,
    depth: nat,
    acc: Seq<(Seq<u8>, SpecValue)>,
)
    requires
        ps.len() >= 1,
        wf_members(ps),
        distinct_keys(ps),
        members_depth(ps) <= depth,
        0 <= pos,
        pos + render_members(ps).len() + 1 <= s.len(),
        s.subrange(pos, pos + render_members(ps).len()) == render_members(ps),
        s[pos + render_members(ps).len()] == 0x7d,
        forall|i: int, j: int|
            0 <= i < acc.len() && 0 <= j < ps.len() ==> acc[i].0 != ps[j].0,
    ensures
        spec_parse_members(s, pos, depth, acc) == Ok::<(SpecValue, int), (ErrorKind, int)>(
            (SpecValue::Object(acc + ps), pos + render_members(ps).len() + 1),
        ),
    decreases ps,
{
    let rm = render_members(ps);
    let k0 = ps[0].0;
    let v0 = ps[0].1;
    let rk = render_string(k0);
    let rv0 = render(v0);
    assert forall|t: int| 0 <= t < rm.len() implies s[pos + t] == rm[t] by {
        assert(s.subrange(pos, pos + rm.len())[t] == rm[t]);
    }
    // the key
    assert forall|t: int| 0 <= t < rk.len() implies s.subrange(pos, pos + rk.len())[t] == rk[t] by {
        assert(s[pos + t] == rm[t]);
    }
    assert(s.subrange(pos, pos + rk.len()) =~= rk);
    lemma_parse_rendered_string(s, pos, k0);
    let qk: int = pos + rk.len();
    // the colon
    assert(s[pos + rk.len()] == rm[rk.len() as int]);
    assert(s[qk] == 0x3a);
    assert(skip_ws(s, qk) == qk);
    // the value
    let vpos: int = qk + 1;
    assert forall|t: int| 0 <= t < rv0.len() implies s.subrange(vpos, vpos + rv0.len())[t]
        == rv0[t] by {
        assert(s[pos + (rk.len() + 1 + t)] == rm[rk.len() as int + 1 + t]);
    }
    assert(s.subrange(vpos, vpos + rv0.len()) =~= rv0);
    let q2: int = vpos + rv0.len();
    if ps.len() == 1 {
        assert(members_depth(ps.subrange(1, 1)) == 0);
        assert(q2 == pos + rm.len());
        assert(s[q2] == 0x7d);
        assert(!extends_number(0x7d));
    } else {
        assert(s[pos + (rk.len() + 1 + rv0.len())] == rm[rk.len() as int + 1 + rv0.len() as int]);
        assert(s[q2] == 0x2c);
        assert(!extends_number(0x2c));
    }
    assert(depth_of(v0) <= depth);
    lemma_parse_rendered_value(s, vpos, v0, depth);
    assert(spec_parse_pair(s, pos, depth) == Ok::<((Seq<u8>, SpecValue), int), (ErrorKind, int)>(
        ((k0, v0), q2),
    ));
    // the insertion appends, since no key collides
    assert forall|j: int| 0 <= j < acc.len() implies acc[j].0 != k0 by {}
    lemma_insert_no_match(acc, k0, v0);
    let acc2 = acc.push((k0, v0));
    assert(skip_ws(s, q2) == q2);
    if ps.len() == 1 {
        assert(ps[0] == (k0, v0));
        assert(acc2 =~= acc + ps);
    } else {
        let rest = ps.subrange(1, ps.len() as int);
        let rm2 = render_members(rest);
        assert(rm == rk + seq![0x3au8] + rv0 + seq![0x2cu8] + rm2);
        assert(s[q2] != 0x7d);
        let p2: int = q2 + 1;
        let rk2 = render_string(rest[0].0);
        assert(rm2[0] == rk2[0]);
        assert(rk2[0] == 0x22);
        assert(s[pos + (rk.len() + 1 + rv0.len() + 1)] == rm[rk.len() as int + 1 + rv0.len() as int + 1]);
        assert(rm[rk.len() as int + 1 + rv0.len() as int + 1] == rm2[0]);
        assert(s[p2] == 0x22);
        assert(!is_ws(s[p2]));
        assert(skip_ws(s, p2) == p2);
        assert forall|t: int| 0 <= t < rm2.len() implies s.subrange(p2, p2 + rm2.len())[t]
            == rm2[t] by {
            assert(s[pos + (rk.len() + 1 + rv0.len() + 1 + t)] == rm[rk.len() as int + 1
                + rv0.len() as int + 1 + t]);
        }
        assert(s.subrange(p2, p2 + rm2.len()) =~= rm2);
        assert(s[p2 + rm2.len()] == 0x7d);
        assert(distinct_keys(rest));
        assert forall|i: int, j: int|
            0 <= i < acc2.len() && 0 <= j < rest.len() implies acc2[i].0 != rest[j].0 by {
            if i < acc.len() {
                assert(acc[i].0 != ps[j + 1].0);
            } else {
                assert(ps[0].0 != ps[j + 1].0);
            }
        }
        lemma_parse_rendered_members(s, p2, rest, depth, acc2);
        assert(ps[0] == (k0, v0));
        assert(acc2 + rest =~= acc + ps);
    }
}

} // verus!
