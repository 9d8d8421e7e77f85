use vstd::prelude::*;

use crate::convert::{get_sub_slice, i32_text, lossy_text, to_double, to_float, to_integer, to_text, trim};
use crate::error::DescriptorParserError;
use crate::grammar::{descriptor_fields, FieldSpec, GrammarError, Kind};
use crate::plan::{lemma_sum_widths_prefix, sum_widths, CompiledPlan};

verus! {

/// One decoded field. `F` and `D` are the single- and double-precision number
/// types that the caller reads floating-point fields into.
#[derive(Debug, Clone, PartialEq)]
pub enum Value<F, D> {
    Integer(i32),
    Float(F),
    Double(D),
    Str(String),
}

/// Where field `i` of `fs` starts in a record.
pub open spec fn offset(fs: Seq<FieldSpec>, i: int) -> nat {
    sum_widths(fs.subrange(0, i))
}

/// The bytes of field `i` of `fs` in `buf`.
pub open spec fn field_bytes(fs: Seq<FieldSpec>, buf: Seq<u8>, i: int) -> Seq<u8> {
    buf.subrange(offset(fs, i) as int, offset(fs, i) + fs[i].width)
}

/// `v` is what a field of kind `kind` with bytes `b` decodes to. Of a number
/// field only its type is stated: its value is lexical's reading of the text.
pub open spec fn decodes_to<F, D>(kind: Kind, b: Seq<u8>, v: Value<F, D>) -> bool {
    match kind {
        Kind::Integer => i32_text(trim(b)) is Some && v == Value::<F, D>::Integer(
            i32_text(trim(b))->Some_0,
        ),
        Kind::Str => v is Str && v->Str_0@ == lossy_text(trim(b)),
        Kind::Float => v is Float,
        Kind::Double => v is Double,
    }
}

/// The field may be refused: an integer field whose text is not an `i32`, or
/// any number field, whose reading lexical decides.
pub open spec fn may_fail(kind: Kind, b: Seq<u8>) -> bool {
    match kind {
        Kind::Integer => i32_text(trim(b)) is None,
        Kind::Str => false,
        Kind::Float => true,
        Kind::Double => true,
    }
}

/// `e` is the refusal of a field of kind `kind` with bytes `b`, carrying its raw text.
pub open spec fn refusal(kind: Kind, b: Seq<u8>, e: DescriptorParserError) -> bool {
    match kind {
        Kind::Integer => e.is_invalid_i32(lossy_text(b)),
        Kind::Float => e.is_invalid_f32(lossy_text(b)),
        Kind::Double => e.is_invalid_f64(lossy_text(b)),
        Kind::Str => false,
    }
}

/// Decoding `buf` against `fs` ends at field `i` with `e`: the field may be
/// refused, `e` is its refusal, and no integer field before it was refused.
pub open spec fn stops_at(fs: Seq<FieldSpec>, buf: Seq<u8>, i: int, e: DescriptorParserError) -> bool {
    &&& 0 <= i < fs.len()
    &&& may_fail(fs[i].kind, field_bytes(fs, buf, i))
    &&& refusal(fs[i].kind, field_bytes(fs, buf, i), e)
    &&& forall|j: int|
        0 <= j < i ==> !(fs[j].kind == Kind::Integer && #[trigger] may_fail(
            fs[j].kind,
            field_bytes(fs, buf, j),
        ))
}

/// A decode result with the record seen as a sequence.
pub open spec fn record_view<F, D>(r: Result<Vec<Value<F, D>>, DescriptorParserError>) -> Result<
    Seq<Value<F, D>>,
    DescriptorParserError,
> {
    match r {
        Ok(v) => Ok(v@),
        Err(e) => Err(e),
    }
}

/// What decoding `buf` against fields `fs` of total width `total` returns: a
/// short buffer is refused with both counts; otherwise either one value per
/// field, each what its bytes decode to, or the error of the field where
/// decoding stopped.
pub open spec fn decode_post<F, D>(
    fs: Seq<FieldSpec>,
    total: usize,
    buf: Seq<u8>,
    r: Result<Seq<Value<F, D>>, DescriptorParserError>,
) -> bool {
    &&& buf.len() < total ==> r == Err::<Seq<Value<F, D>>, DescriptorParserError>(
        DescriptorParserError::NotEnoughBytes(buf.len() as usize, total),
    )
    &&& buf.len() >= total ==> match r {
        Ok(vals) => {
            &&& vals.len() == fs.len()
            &&& forall|i: int|
                0 <= i < vals.len() ==> decodes_to(
                    fs[i].kind,
                    field_bytes(fs, buf, i),
                    #[trigger] vals[i],
                )
        },
        Err(e) => exists|i: int| #[trigger] stops_at(fs, buf, i, e),
    }
}

/// A buffer of exactly the plan's width, none of whose fields can be refused
/// (integer fields that hold an `i32`, and string fields), decodes in full:
/// one value per field of the descriptor's expansion.
pub proof fn lemma_exact_buffer_decodes<F, D>(
    d: Seq<char>,
    fs: Seq<FieldSpec>,
    buf: Seq<u8>,
    r: Result<Seq<Value<F, D>>, DescriptorParserError>,
)
    requires
        descriptor_fields(d) == Ok::<Seq<FieldSpec>, GrammarError>(fs),
        sum_widths(fs) <= usize::MAX,
        buf.len() == sum_widths(fs),
        forall|i: int| 0 <= i < fs.len() ==> !#[trigger] may_fail(fs[i].kind, field_bytes(fs, buf, i)),
        decode_post(fs, sum_widths(fs) as usize, buf, r),
    ensures
        r is Ok,
        r->Ok_0.len() == fs.len(),
{
    if r is Err {
        let e = r->Err_0;
        let i = choose|i: int| #[trigger] stops_at(fs, buf, i, e);
        assert(!may_fail(fs[i].kind, field_bytes(fs, buf, i)));
    }
}

/// Decodes one record. A buffer shorter than the plan's total width is refused
/// up front. Otherwise the fields are read in order, each from its own bytes,
/// and the first refused field ends the decode with its error.
pub fn decode<F: lexical::FromLexical, D: lexical::FromLexical>(plan: &CompiledPlan, buf: &[u8]) -> (r:
    Result<Vec<Value<F, D>>, DescriptorParserError>)
    requires
        plan.wf(),
    ensures
        decode_post(plan.spec_fields(), plan.spec_total_width(), buf@, record_view(r)),
{
    let total = plan.total_width();
    if buf.len() < total {
        return Err(DescriptorParserError::NotEnoughBytes(buf.len(), total));
    }
    let fields = plan.fields();
    proof {
        plan.lemma_wf();
    }
    let ghost fs = plan.spec_fields();
    let mut values: Vec<Value<F, D>> = Vec::new();
    let mut start_byte: usize = 0;
    let mut i: usize = 0;
    while i < fields.len()
        invariant
            fs == plan.spec_fields(),
            fields@ == fs,
            total == plan.spec_total_width(),
            total == sum_widths(fs) <= buf@.len(),
            i <= fs.len(),
            start_byte == offset(fs, i as int),
            values@.len() == i,
            forall|j: int|
                0 <= j < i ==> decodes_to(fs[j].kind, field_bytes(fs, buf@, j), #[trigger] values@[j]),
            forall|j: int|
                0 <= j < i ==> !(fs[j].kind == Kind::Integer && #[trigger] may_fail(
                    fs[j].kind,
                    field_bytes(fs, buf@, j),
                )),
        decreases fs.len() - i,
    {
        let field = fields[i];
        proof {
            assert(fs.subrange(0, i + 1).drop_last() == fs.subrange(0, i as int));
            lemma_sum_widths_prefix(fs, i + 1);
        }
        let raw = get_sub_slice(&mut start_byte, field.width, buf);
        assert(raw@ == field_bytes(fs, buf@, i as int));
        let v = match field.kind {
            Kind::Integer => match to_integer(raw) {
                Ok(n) => Value::Integer(n),
                Err(e) => {
                    assert(stops_at(fs, buf@, i as int, e));
                    return Err(e);
                },
            },
            Kind::Float => match to_float::<F>(raw) {
                Ok(x) => Value::Float(x),
                Err(e) => {
                    assert(stops_at(fs, buf@, i as int, e));
                    return Err(e);
                },
            },
            Kind::Double => match to_double::<D>(raw) {
                Ok(x) => Value::Double(x),
                Err(e) => {
                    assert(stops_at(fs, buf@, i as int, e));
                    return Err(e);
                },
            },
            Kind::Str => Value::Str(to_text(raw)),
        };
        values.push(v);
        i = i + 1;
    }
    Ok(values)
}

} // verus!
