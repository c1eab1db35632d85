//! The JSON value model: a tagged union with one variant per value kind,
//! together with its mathematical abstraction.
//!
//! A numeric literal is kept exactly as written, split into its grammatical
//! parts (sign, integer digits, fraction digits, exponent); no rounding
//! happens inside the parser, so a caller may convert to whatever numeric
//! type it wants. Strings are owned byte sequences: the UTF-8 bytes of the
//! decoded content, with every escape sequence already resolved.

use vstd::prelude::*;

verus! {

broadcast use vstd::seq::axiom_seq_index_decreases, vstd::seq::axiom_seq_subrange_decreases, vstd::std_specs::vec::axiom_vec_decreases_to_view;

/// A JSON numeric literal, kept digit for digit as it appeared in the input.
///
/// Each digit vector holds digit values (`0..=9`), not ASCII bytes.
/// `frac_digits` is empty exactly when the literal had no fraction part, and
/// `exp_digits` is empty exactly when it had no exponent part (`exp_neg` is
/// `false` in that case).
#[derive(Debug, PartialEq, Eq)]
pub struct JsonNumber {
    pub neg: bool,
    pub int_digits: Vec<u8>,
    pub frac_digits: Vec<u8>,
    pub exp_neg: bool,
    pub exp_digits: Vec<u8>,
}

/// The mathematical model of a [`JsonNumber`].
pub struct SpecNumber {
    pub neg: bool,
    pub int_digits: Seq<u8>,
    pub frac_digits: Seq<u8>,
    pub exp_neg: bool,
    pub exp_digits: Seq<u8>,
}

impl DeepView for JsonNumber {
    type V = SpecNumber;

    open spec fn deep_view(&self) -> SpecNumber {
        SpecNumber {
            neg: self.neg,
            int_digits: self.int_digits@,
            frac_digits: self.frac_digits@,
            exp_neg: self.exp_neg,
            exp_digits: self.exp_digits@,
        }
    }
}

/// One JSON value: exactly one variant is active, fixed at construction.
///
/// An object is a sequence of key/value pairs whose keys are unique; the
/// parser keeps the first occurrence's position and overwrites its value when
/// a duplicate key appears later (last write wins).
#[derive(Debug, PartialEq)]
pub enum Value {
    Null,
    Bool(bool),
    Num(JsonNumber),
    Str(Vec<u8>),
    Array(Vec<Value>),
    Object(Vec<(Vec<u8>, Value)>),
}

/// The mathematical model of a [`Value`]: the same tree over `Seq`.
pub enum SpecValue {
    Null,
    Bool(bool),
    Num(SpecNumber),
    Str(Seq<u8>),
    Array(Seq<SpecValue>),
    Object(Seq<(Seq<u8>, SpecValue)>),
}

/// The models of a sequence of array elements, element by element.
pub open spec fn elems_deep_view(vs: Seq<Value>) -> Seq<SpecValue>
    decreases vs,
{
    if vs.len() == 0 {
        Seq::empty()
    } else {
        seq![vs[0].deep_view()] + elems_deep_view(vs.subrange(1, vs.len() as int))
    }
}

/// The models of a sequence of object members, member by member.
pub open spec fn pairs_deep_view(ps: Seq<(Vec<u8>, Value)>) -> Seq<(Seq<u8>, SpecValue)>
    decreases ps,
{
    if ps.len() == 0 {
        Seq::empty()
    } else {
        seq![(ps[0].0@, ps[0].1.deep_view())] + pairs_deep_view(ps.subrange(1, ps.len() as int))
    }
}

impl DeepView for Value {
    type V = SpecValue;

    open spec fn deep_view(&self) -> SpecValue
        decreases self,
    {
        match self {
            Value::Null => SpecValue::Null,
            Value::Bool(b) => SpecValue::Bool(*b),
            Value::Num(n) => SpecValue::Num(n.deep_view()),
            Value::Str(s) => SpecValue::Str(s@),
            Value::Array(vs) => SpecValue::Array(elems_deep_view(vs@)),
            Value::Object(ps) => SpecValue::Object(pairs_deep_view(ps@)),
        }
    }
}

/// An element sequence's model is the sequence of the elements' models.
pub proof fn lemma_elems_deep_view(vs: Seq<Value>)
    ensures
        elems_deep_view(vs).len() == vs.len(),
        forall|i: int| 0 <= i < vs.len() ==> elems_deep_view(vs)[i] == vs[i].deep_view(),
    decreases vs.len(),
{
    if vs.len() > 0 {
        let rest = vs.subrange(1, vs.len() as int);
        lemma_elems_deep_view(rest);
        assert(elems_deep_view(vs) == seq![vs[0].deep_view()] + elems_deep_view(rest));
        assert forall|i: int| 0 <= i < vs.len() implies elems_deep_view(vs)[i] == vs[i].deep_view() by {
            if i > 0 {
                assert(elems_deep_view(rest)[i - 1] == rest[i - 1].deep_view());
                assert(rest[i - 1] == vs[i]);
            }
        }
    }
}

/// A member sequence's model is the sequence of the members' models.
pub proof fn lemma_pairs_deep_view(ps: Seq<(Vec<u8>, Value)>)
    ensures
        pairs_deep_view(ps).len() == ps.len(),
        forall|i: int| 0 <= i < ps.len() ==> pairs_deep_view(ps)[i] == (ps[i].0@, ps[i].1.deep_view()),
    decreases ps.len(),
{
    if ps.len() > 0 {
        let rest = ps.subrange(1, ps.len() as int);
        lemma_pairs_deep_view(rest);
        assert(pairs_deep_view(ps) == seq![(ps[0].0@, ps[0].1.deep_view())] + pairs_deep_view(rest));
        assert forall|i: int| 0 <= i < ps.len() implies pairs_deep_view(ps)[i] == (
        ps[i].0@,
        ps[i].1.deep_view(),
        ) by {
            if i > 0 {
                assert(pairs_deep_view(rest)[i - 1] == (rest[i - 1].0@, rest[i - 1].1.deep_view()));
                assert(rest[i - 1] == ps[i]);
            }
        }
    }
}

/// Appending an element appends its model.
pub proof fn lemma_elems_deep_view_push(vs: Seq<Value>, v: Value)
    ensures
        elems_deep_view(vs.push(v)) == elems_deep_view(vs).push(v.deep_view()),
{
    lemma_elems_deep_view(vs.push(v));
    lemma_elems_deep_view(vs);
    assert(elems_deep_view(vs.push(v)) =~= elems_deep_view(vs).push(v.deep_view()));
}

/// Overwriting a member overwrites its model.
pub proof fn lemma_pairs_deep_view_update(ps: Seq<(Vec<u8>, Value)>, j: int, k: Vec<u8>, v: Value)
    requires
        0 <= j < ps.len(),
    ensures
        pairs_deep_view(ps.update(j, (k, v))) == pairs_deep_view(ps).update(
            j,
            (k@, v.deep_view()),
        ),
{
    lemma_pairs_deep_view(ps.update(j, (k, v)));
    lemma_pairs_deep_view(ps);
    assert(pairs_deep_view(ps.update(j, (k, v))) =~= pairs_deep_view(ps).update(
        j,
        (k@, v.deep_view()),
    ));
}

/// Appending a member appends its model.
pub proof fn lemma_pairs_deep_view_push(ps: Seq<(Vec<u8>, Value)>, k: Vec<u8>, v: Value)
    ensures
        pairs_deep_view(ps.push((k, v))) == pairs_deep_view(ps).push((k@, v.deep_view())),
{
    lemma_pairs_deep_view(ps.push((k, v)));
    lemma_pairs_deep_view(ps);
    assert(pairs_deep_view(ps.push((k, v))) =~= pairs_deep_view(ps).push((k@, v.deep_view())));
}

} // verus!
