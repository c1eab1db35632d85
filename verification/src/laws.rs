//! Properties of the parser as a whole, stated over the grammar's
//! specification functions and proved once for every input.

use vstd::prelude::*;

use crate::error::ErrorKind;
use crate::grammar::{
    lemma_skip_ws_bounds, lemma_value_bounds, skip_ws, spec_parse_document, spec_parse_value,
    MAX_DEPTH,
};
use crate::render::{depth_of, lemma_parse_rendered_value, render, wf_value};
use crate::value::SpecValue;

verus! {

/// Round trip: a well-formed document, rendered and parsed again, comes
/// back exactly as it was — same structure, same values, up to the depth
/// the parser admits.
pub proof fn lemma_render_round_trip(v: SpecValue)
    requires
        wf_value(v),
        depth_of(v) <= MAX_DEPTH as nat,
    ensures
        spec_parse_document(render(v)) == Ok::<SpecValue, (ErrorKind, int)>(v),
{
    let s = render(v);
    assert(s.subrange(0, s.len() as int) =~= s);
    lemma_parse_rendered_value(s, 0, v, MAX_DEPTH as nat);
    assert(skip_ws(s, s.len() as int) == s.len());
}

/// Every failure reports an offset at or before the end of the input:
/// no error ever points past the input's length.
pub proof fn lemma_error_offset_in_bounds(s: Seq<u8>)
    ensures
        match spec_parse_document(s) {
            Err((k, o)) => 0 <= o <= s.len(),
            Ok(v) => true,
        },
{
    lemma_value_bounds(s, 0, MAX_DEPTH as nat);
    match spec_parse_value(s, 0, MAX_DEPTH as nat) {
        Err(e) => {},
        Ok((v, q)) => {
            lemma_skip_ws_bounds(s, q);
        },
    }
}

/// Nesting deeper than the limit is rejected, never overflows the stack:
/// an input of more than `MAX_DEPTH` opening brackets fails with
/// `NestingTooDeep` at the offset where the budget ran out.
pub proof fn lemma_deep_nesting_rejected(s: Seq<u8>)
    requires
        s.len() > MAX_DEPTH,
        forall|i: int| 0 <= i < s.len() ==> s[i] == 0x5b,
    ensures
        spec_parse_document(s) == Err::<SpecValue, (ErrorKind, int)>(
            (ErrorKind::NestingTooDeep, MAX_DEPTH as int),
        ),
{
    lemma_all_brackets(s, 0, MAX_DEPTH as nat);
}

/// Inside an input of nothing but `[`, a value at `pos` with `depth`
/// budget left fails with `NestingTooDeep` exactly `depth` brackets
/// further in.
proof fn lemma_all_brackets(s: Seq<u8>, pos: int, depth: nat)
    requires
        forall|i: int| 0 <= i < s.len() ==> s[i] == 0x5b,
        0 <= pos < s.len(),
        depth < s.len() - pos,
    ensures
        spec_parse_value(s, pos, depth) == Err::<(SpecValue, int), (ErrorKind, int)>(
            (ErrorKind::NestingTooDeep, pos + depth),
        ),
    decreases depth,
{
    assert(skip_ws(s, pos) == pos);
    if depth > 0 {
        assert(skip_ws(s, pos + 1) == pos + 1);
        lemma_all_brackets(s, pos + 1, (depth - 1) as nat);
    }
}

} // verus!
