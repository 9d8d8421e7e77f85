use vstd::prelude::*;
use vstd::string::StrSliceExecFns;

use crate::expand::{expand_elements, expand_seq};
use crate::grammar::{descriptor_fields, parse_items, split_elements, FieldSpec, GrammarError};

verus! {

/// The sum of the widths of `fs`.
pub open spec fn sum_widths(fs: Seq<FieldSpec>) -> nat
    decreases fs.len(),
{
    if fs.len() == 0 {
        0
    } else {
        sum_widths(fs.drop_last()) + fs.last().width as nat
    }
}

/// A descriptor compiled once into its flat field list and total width, and
/// reused for any number of records.
#[derive(Debug, Clone)]
pub struct CompiledPlan {
    fields: Vec<FieldSpec>,
    total_width: usize,
}

impl CompiledPlan {
    /// The fields of the plan, in record order.
    pub closed spec fn spec_fields(&self) -> Seq<FieldSpec> {
        self.fields@
    }

    /// The number of bytes that a record takes.
    pub closed spec fn spec_total_width(&self) -> usize {
        self.total_width
    }

    /// The total width is the sum of the field widths.
    pub closed spec fn wf(&self) -> bool {
        self.total_width == sum_widths(self.fields@)
    }

    pub fn fields(&self) -> (r: &[FieldSpec])
        ensures
            r@ == self.spec_fields(),
    {
        self.fields.as_slice()
    }

    pub fn total_width(&self) -> (r: usize)
        ensures
            r == self.spec_total_width(),
    {
        self.total_width
    }

    /// The plan is well formed: its total width is the sum of its fields' widths.
    pub proof fn lemma_wf(&self)
        requires
            self.wf(),
        ensures
            self.spec_total_width() == sum_widths(self.spec_fields()),
    {
    }
}

fn descriptor_chars(descriptor: &str) -> (r: Vec<char>)
    ensures
        r@ == descriptor@,
{
    let n = descriptor.unicode_len();
    let mut out: Vec<char> = Vec::new();
    let mut i: usize = 0;
    while i < n
        invariant
            i <= n == descriptor@.len(),
            out@ == descriptor@.subrange(0, i as int),
        decreases n - i,
    {
        out.push(descriptor.get_char(i));
        assert(descriptor@.subrange(0, i + 1) == descriptor@.subrange(0, i as int).push(
            descriptor@[i as int],
        ));
        i = i + 1;
    }
    assert(descriptor@.subrange(0, n as int) == descriptor@);
    out
}

/// What compiling descriptor `d` returns: the plan of its expansion and the
/// sum of its widths, or the grammar error of its first refused item, or
/// `TooWide` when the widths add up to more than a `usize` holds.
pub open spec fn compile_post(d: Seq<char>, r: Result<CompiledPlan, GrammarError>) -> bool {
    match descriptor_fields(d) {
        Ok(fs) => if sum_widths(fs) <= usize::MAX {
            &&& r is Ok
            &&& r->Ok_0.wf()
            &&& r->Ok_0.spec_fields() == fs
            &&& r->Ok_0.spec_total_width() == sum_widths(fs)
        } else {
            r == Err::<CompiledPlan, GrammarError>(GrammarError::TooWide)
        },
        Err(e) => r == Err::<CompiledPlan, GrammarError>(e),
    }
}

/// Compiling the same descriptor twice gives plans with the same fields and
/// the same total width, or the same error.
pub proof fn lemma_compile_idempotent(
    d: Seq<char>,
    r1: Result<CompiledPlan, GrammarError>,
    r2: Result<CompiledPlan, GrammarError>,
)
    requires
        compile_post(d, r1),
        compile_post(d, r2),
    ensures
        r1 is Ok <==> r2 is Ok,
        r1 is Ok ==> r1->Ok_0.spec_fields() == r2->Ok_0.spec_fields()
            && r1->Ok_0.spec_total_width() == r2->Ok_0.spec_total_width(),
        r1 is Err ==> r1 == r2,
{
}

/// Compiles a descriptor such as `I10,S10,F13` or `2(I5,S5)` into a plan.
/// Fails with the grammar error of the first refused item, or with
/// `TooWide` when the widths add up to more than a `usize` holds. Every `str`
/// meets the length bound: its length in bytes is at most `isize::MAX`.
pub fn compile(descriptor: &str) -> (r: Result<CompiledPlan, GrammarError>)
    requires
        descriptor@.len() <= isize::MAX,
    ensures
        compile_post(descriptor@, r),
{
    let chars = descriptor_chars(descriptor);
    let split = split_elements(&chars);
    proof {
        crate::grammar::lemma_split_top_lengths(chars@);
        assert forall|j: int| 0 <= j < split@.len() implies #[trigger] split@[j]@.len()
            < chars@.len() + 1 by {
            assert(split@.map_values(|v: Vec<char>| v@)[j] == split@[j]@);
        }
    }
    let mut elements = Vec::new();
    match parse_items(&split, chars.len() + 1, &mut elements) {
        Err(e) => return Err(e),
        Ok(()) => {},
    }
    let fields = expand_elements(&elements);
    assert(expand_seq(seq![]) == Seq::<FieldSpec>::empty());
    assert(fields@ =~= seq![] + fields@);
    assert(descriptor_fields(descriptor@) == Ok::<Seq<FieldSpec>, GrammarError>(fields@));
    let mut total: usize = 0;
    let mut i: usize = 0;
    while i < fields.len()
        invariant
            i <= fields@.len(),
            total == sum_widths(fields@.subrange(0, i as int)),
            descriptor_fields(descriptor@) == Ok::<Seq<FieldSpec>, GrammarError>(fields@),
        decreases fields@.len() - i,
    {
        assert(fields@.subrange(0, i + 1).drop_last() == fields@.subrange(0, i as int));
        if total > usize::MAX - fields[i].width {
            proof {
                assert(sum_widths(fields@.subrange(0, i + 1)) == total + fields@[i as int].width);
                lemma_sum_widths_prefix(fields@, i + 1);
                assert(sum_widths(fields@) > usize::MAX);
            }
            return Err(GrammarError::TooWide);
        }
        total = total + fields[i].width;
        i = i + 1;
    }
    assert(fields@.subrange(0, fields@.len() as int) == fields@);
    Ok(CompiledPlan { fields, total_width: total })
}

pub proof fn lemma_sum_widths_prefix(fs: Seq<FieldSpec>, j: int)
    requires
        0 <= j <= fs.len(),
    ensures
        sum_widths(fs.subrange(0, j)) <= sum_widths(fs),
    decreases fs.len() - j,
{
    if j < fs.len() {
        lemma_sum_widths_prefix(fs, j + 1);
        assert(fs.subrange(0, j + 1).drop_last() == fs.subrange(0, j));
    } else {
        assert(fs.subrange(0, j) == fs);
    }
}

} // verus!
