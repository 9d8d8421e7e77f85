use vstd::prelude::*;

use crate::grammar::{repeat, DataElement, FieldSpec};

verus! {

/// The flat field list that an element stands for: a field repeated in place,
/// or the whole expansion of a group's children repeated.
pub open spec fn expand_one(e: DataElement) -> Seq<FieldSpec>
    decreases e,
{
    match e {
        DataElement::Field(kind, info) => repeat(
            seq![FieldSpec { kind, width: info.bytes_to_take }],
            info.repetitions as nat,
        ),
        DataElement::Nested(n) => repeat(expand_seq(n.elements@), n.repetitions as nat),
    }
}

/// The expansions of `es`, one after the other.
pub open spec fn expand_seq(es: Seq<DataElement>) -> Seq<FieldSpec>
    decreases es,
{
    if es.len() == 0 {
        seq![]
    } else {
        expand_seq(es.drop_last()) + expand_one(es[es.len() - 1])
    }
}

fn append_all(out: &mut Vec<FieldSpec>, xs: &Vec<FieldSpec>)
    ensures
        final(out)@ == old(out)@ + xs@,
{
    let mut i: usize = 0;
    while i < xs.len()
        invariant
            i <= xs@.len(),
            out@ == old(out)@ + xs@.subrange(0, i as int),
        decreases xs@.len() - i,
    {
        out.push(xs[i]);
        assert(xs@.subrange(0, i + 1) == xs@.subrange(0, i as int).push(xs@[i as int]));
        i = i + 1;
    }
    assert(xs@.subrange(0, xs@.len() as int) == xs@);
}

/// Appends `n` copies of `xs` to `out`.
fn append_repeated(out: &mut Vec<FieldSpec>, xs: &Vec<FieldSpec>, n: usize)
    ensures
        final(out)@ == old(out)@ + repeat(xs@, n as nat),
{
    let mut k: usize = 0;
    while k < n
        invariant
            k <= n,
            out@ == old(out)@ + repeat(xs@, k as nat),
        decreases n - k,
    {
        append_all(out, xs);
        assert(repeat(xs@, (k + 1) as nat) == repeat(xs@, k as nat) + xs@);
        k = k + 1;
    }
}

/// Flattens a parsed descriptor into its field list: each field repeated in
/// place, each group's whole expansion repeated.
pub fn expand_elements(elements: &Vec<DataElement>) -> (r: Vec<FieldSpec>)
    ensures
        r@ == expand_seq(elements@),
    decreases elements@,
{
    let mut expanded_elements: Vec<FieldSpec> = Vec::new();
    let mut i: usize = 0;
    while i < elements.len()
        invariant
            i <= elements@.len(),
            expanded_elements@ == expand_seq(elements@.subrange(0, i as int)),
        decreases elements@.len() - i,
    {
        let ghost before = expanded_elements@;
        assert(elements@.subrange(0, i + 1).drop_last() == elements@.subrange(0, i as int));
        match &elements[i] {
            DataElement::Nested(nested) => {
                proof {
                    assert(decreases_to!(elements@ => elements@[i as int]));
                }
                let inner = expand_elements(&nested.elements);
                append_repeated(&mut expanded_elements, &inner, nested.repetitions);
                assert(expanded_elements@ == before + expand_one(elements@[i as int]));
            },
            DataElement::Field(kind, info) => {
                let one = vec![FieldSpec { kind: *kind, width: info.bytes_to_take }];
                assert(one@ =~= seq![FieldSpec { kind: *kind, width: info.bytes_to_take }]);
                append_repeated(&mut expanded_elements, &one, info.repetitions);
                assert(expanded_elements@ == before + expand_one(elements@[i as int]));
            },
        }
        assert(expanded_elements@ == before + expand_one(elements@[i as int]));
        i = i + 1;
    }
    assert(elements@.subrange(0, elements@.len() as int) == elements@);
    expanded_elements
}

} // verus!
