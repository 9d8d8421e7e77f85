use vstd::prelude::*;
use vstd::slice::{slice_subrange, slice_to_vec};

use crate::expand::{expand_one, expand_seq};

verus! {

/// The type code of a field.
#[derive(Debug, Clone, Copy, PartialEq, Eq, Structural)]
pub enum Kind {
    Integer,
    Float,
    Double,
    Str,
}

/// Why a descriptor was refused.
#[derive(Debug, Clone, Copy, PartialEq, Eq, Structural)]
pub enum GrammarError {
    /// A repetition count that is not a positive decimal number that fits a `usize`.
    InvalidRepetitions,
    /// A field width that is not a positive decimal number that fits a `usize`.
    InvalidWidth,
    /// A type code other than `I`, `F`, `D` or `S`, in either case.
    UnsupportedType(char),
    /// A field with no type code.
    MissingType,
    /// An opening parenthesis without its closing one.
    UnclosedBracket,
    /// A plan whose total width does not fit a `usize`.
    TooWide,
}

/// One field of a flattened plan.
#[derive(Debug, Clone, Copy, PartialEq, Eq, Structural)]
pub struct FieldSpec {
    pub kind: Kind,
    pub width: usize,
}

/// `n` copies of `xs`, one after the other.
pub open spec fn repeat(xs: Seq<FieldSpec>, n: nat) -> Seq<FieldSpec>
    decreases n,
{
    if n == 0 {
        seq![]
    } else {
        repeat(xs, (n - 1) as nat) + xs
    }
}

proof fn lemma_repeat_add(xs: Seq<FieldSpec>, a: nat, b: nat)
    ensures
        repeat(xs, a + b) == repeat(xs, a) + repeat(xs, b),
    decreases b,
{
    if b == 0 {
        assert(repeat(xs, a) + seq![] =~= repeat(xs, a));
    } else {
        lemma_repeat_add(xs, a, (b - 1) as nat);
        assert((a + b - 1) as nat == a + (b - 1) as nat);
        assert(repeat(xs, a) + repeat(xs, (b - 1) as nat) + xs =~= repeat(xs, a) + (repeat(
            xs,
            (b - 1) as nat,
        ) + xs));
    }
}

/// Repetition multiplies across nesting: `n` copies of `m` copies of a
/// sequence are `n * m` copies of it, in the same order.
pub proof fn lemma_repeat_nested(xs: Seq<FieldSpec>, m: nat, n: nat)
    ensures
        repeat(repeat(xs, m), n) == repeat(xs, n * m),
    decreases n,
{
    if n > 0 {
        lemma_repeat_nested(xs, m, (n - 1) as nat);
        assert(n * m == (n - 1) as nat * m + m) by (nonlinear_arith)
            requires
                n > 0,
        ;
        lemma_repeat_add(xs, (n - 1) as nat * m, m);
        assert(repeat(repeat(xs, m), n) == repeat(repeat(xs, m), (n - 1) as nat) + repeat(xs, m));
        assert(repeat(xs, (n - 1) as nat * m + m) == repeat(xs, n * m));
    } else {
        assert(n * m == 0) by (nonlinear_arith)
            requires
                n == 0,
        ;
    }
}

/// A group repeated once stands for its children as they are.
pub proof fn lemma_repeat_once(xs: Seq<FieldSpec>)
    ensures
        repeat(xs, 1) == xs,
{
    assert(repeat(xs, 0) + xs =~= xs);
}

pub open spec fn is_digit(c: char) -> bool {
    '0' <= c <= '9'
}

pub open spec fn is_alpha(c: char) -> bool {
    ('a' <= c <= 'z') || ('A' <= c <= 'Z')
}

/// The value of a string of decimal digits.
pub open spec fn digits_value(t: Seq<char>) -> nat
    decreases t.len(),
{
    if t.len() == 0 {
        0
    } else {
        10 * digits_value(t.drop_last()) + (t.last() as nat - '0' as nat) as nat
    }
}

/// A positive decimal number that fits a `usize`.
pub open spec fn positive_number(t: Seq<char>) -> Option<usize> {
    if t.len() > 0 && (forall|i: int| 0 <= i < t.len() ==> is_digit(#[trigger] t[i]))
        && 1 <= digits_value(t) <= usize::MAX {
        Some(digits_value(t) as usize)
    } else {
        None
    }
}

/// A repetition count: one where the text is empty, else a positive number.
pub open spec fn repetitions_of(t: Seq<char>) -> Option<usize> {
    if t.len() == 0 {
        Some(1)
    } else {
        positive_number(t)
    }
}

pub open spec fn kind_of(c: char) -> Option<Kind> {
    if c == 'I' || c == 'i' {
        Some(Kind::Integer)
    } else if c == 'F' || c == 'f' {
        Some(Kind::Float)
    } else if c == 'D' || c == 'd' {
        Some(Kind::Double)
    } else if c == 'S' || c == 's' {
        Some(Kind::Str)
    } else {
        None
    }
}

/// The index of the first `(` in `s` at or after `i`.
pub open spec fn open_from(s: Seq<char>, i: int) -> Option<int>
    decreases s.len() - i,
{
    if i < 0 || i >= s.len() {
        None
    } else if s[i] == '(' {
        Some(i)
    } else {
        open_from(s, i + 1)
    }
}

/// The index of the first ASCII letter in `s` at or after `i`.
pub open spec fn alpha_from(s: Seq<char>, i: int) -> Option<int>
    decreases s.len() - i,
{
    if i < 0 || i >= s.len() {
        None
    } else if is_alpha(s[i]) {
        Some(i)
    } else {
        alpha_from(s, i + 1)
    }
}

/// Scanning `s` from index `i` at parenthesis depth `depth`, the index of the
/// parenthesis that brings the depth back to zero.
pub open spec fn match_close(s: Seq<char>, i: int, depth: int) -> Option<int>
    decreases s.len() - i,
{
    if i < 0 || i >= s.len() {
        None
    } else if s[i] == '(' {
        match_close(s, i + 1, depth + 1)
    } else if s[i] == ')' {
        if depth - 1 < 1 {
            Some(i)
        } else {
            match_close(s, i + 1, depth - 1)
        }
    } else {
        match_close(s, i + 1, depth)
    }
}

/// The flat field list that one item of a descriptor stands for, or why the
/// item is refused.
pub open spec fn item_fields(s: Seq<char>) -> Result<Seq<FieldSpec>, GrammarError>
    decreases s.len() + 1, 0int,
{
    match open_from(s, 0) {
        Some(p) => if 0 <= p < s.len() {
            match repetitions_of(s.subrange(0, p)) {
                None => Err(GrammarError::InvalidRepetitions),
                Some(reps) => {
                    let rest = s.subrange(p, s.len() as int);
                    match match_close(rest, 1, 1) {
                        None => Err(GrammarError::UnclosedBracket),
                        Some(k) => if 1 <= k <= rest.len() {
                            let inner = rest.subrange(1, k);
                            match list_fields(split_top(inner), inner.len() + 1int) {
                                Ok(fs) => Ok(repeat(fs, reps as nat)),
                                Err(e) => Err(e),
                            }
                        } else {
                            Err(GrammarError::UnclosedBracket)
                        },
                    }
                },
            }
        } else {
            Err(GrammarError::UnclosedBracket)
        },
        None => match alpha_from(s, 0) {
            None => Err(GrammarError::MissingType),
            Some(a) => if 0 <= a < s.len() {
                match repetitions_of(s.subrange(0, a)) {
                    None => Err(GrammarError::InvalidRepetitions),
                    Some(reps) => match positive_number(s.subrange(a + 1, s.len() as int)) {
                        None => Err(GrammarError::InvalidWidth),
                        Some(width) => match kind_of(s[a]) {
                            None => Err(GrammarError::UnsupportedType(s[a])),
                            Some(kind) => Ok(
                                repeat(seq![FieldSpec { kind, width }], reps as nat),
                            ),
                        },
                    },
                }
            } else {
                Err(GrammarError::MissingType)
            },
        },
    }
}

/// The flat field lists of the items `ps`, one after the other, or the first
/// item's refusal. Every item is shorter than `bound`.
pub open spec fn list_fields(ps: Seq<Seq<char>>, bound: int) -> Result<Seq<FieldSpec>, GrammarError>
    decreases bound, ps.len(),
{
    if ps.len() == 0 {
        Ok(seq![])
    } else if ps.last().len() < bound {
        match list_fields(ps.drop_last(), bound) {
            Err(e) => Err(e),
            Ok(front) => match item_fields(ps.last()) {
                Err(e) => Err(e),
                Ok(back) => Ok(front + back),
            },
        }
    } else {
        Err(GrammarError::MissingType)
    }
}

/// `e` is the element that item `s` parses to: a field with the type code,
/// count and width that the text gives, or a group with the count before its
/// parenthesis and, in order, one child parsed from each item inside it.
pub open spec fn parses_to(s: Seq<char>, e: DataElement) -> bool
    decreases s.len(),
{
    match open_from(s, 0) {
        Some(p) => 0 <= p < s.len() && match repetitions_of(s.subrange(0, p)) {
            None => false,
            Some(reps) => {
                let rest = s.subrange(p, s.len() as int);
                match match_close(rest, 1, 1) {
                    None => false,
                    Some(k) => 1 <= k <= rest.len() && {
                        let inner = rest.subrange(1, k);
                        let ps = split_top(inner);
                        &&& e is Nested
                        &&& e->Nested_0.repetitions == reps
                        &&& e->Nested_0.elements@.len() == ps.len()
                        &&& forall|j: int|
                            0 <= j < ps.len() ==> ps[j].len() <= inner.len() && parses_to(
                                ps[j],
                                #[trigger] e->Nested_0.elements@[j],
                            )
                    },
                }
            },
        },
        None => match alpha_from(s, 0) {
            None => false,
            Some(a) => 0 <= a < s.len() && match (
                repetitions_of(s.subrange(0, a)),
                positive_number(s.subrange(a + 1, s.len() as int)),
                kind_of(s[a]),
            ) {
                (Some(reps), Some(width), Some(kind)) => e == DataElement::Field(
                    kind,
                    ElementInfo { repetitions: reps, bytes_to_take: width },
                ),
                _ => false,
            },
        },
    }
}

/// Every count and every width in `e` is at least one.
pub open spec fn element_wf(e: DataElement) -> bool
    decreases e,
{
    match e {
        DataElement::Field(_k, info) => info.repetitions >= 1 && info.bytes_to_take >= 1,
        DataElement::Nested(n) => n.repetitions >= 1 && forall|j: int|
            0 <= j < n.elements@.len() ==> element_wf(#[trigger] n.elements@[j]),
    }
}

/// A parsed element has no zero count and no zero width.
pub proof fn lemma_parsed_wf(s: Seq<char>, e: DataElement)
    requires
        parses_to(s, e),
    ensures
        element_wf(e),
    decreases s.len(),
{
    if open_from(s, 0) is Some {
        let p = open_from(s, 0)->Some_0;
        let rest = s.subrange(p, s.len() as int);
        let k = match_close(rest, 1, 1)->Some_0;
        let inner = rest.subrange(1, k);
        let ps = split_top(inner);
        let n = e->Nested_0;
        assert forall|j: int| 0 <= j < n.elements@.len() implies element_wf(
            #[trigger] n.elements@[j],
        ) by {
            assert(ps[j].len() <= inner.len() && parses_to(ps[j], n.elements@[j]));
            lemma_parsed_wf(ps[j], n.elements@[j]);
        }
    }
}

/// The flat field list of a whole descriptor, or why it is refused.
pub open spec fn descriptor_fields(s: Seq<char>) -> Result<Seq<FieldSpec>, GrammarError> {
    list_fields(split_top(s), s.len() + 1int)
}

/// The repetition count and width of a field.
#[derive(Debug, Clone, Copy, PartialEq, Eq, Structural)]
pub struct ElementInfo {
    pub repetitions: usize,
    pub bytes_to_take: usize,
}

impl ElementInfo {
    pub fn new(repetitions: usize, bytes_to_take: usize) -> (r: Self)
        ensures
            r.repetitions == repetitions,
            r.bytes_to_take == bytes_to_take,
    {
        Self { repetitions, bytes_to_take }
    }
}

/// A repeated, parenthesised group of elements.
#[derive(Debug)]
pub struct Nested {
    pub repetitions: usize,
    pub elements: Vec<DataElement>,
}

/// A node of a parsed descriptor: a field, or a repeated group.
#[derive(Debug)]
pub enum DataElement {
    Field(Kind, ElementInfo),
    Nested(Nested),
}

impl DataElement {
    pub open spec fn is_field(&self) -> bool {
        self is Field
    }

    /// The width of a field.
    pub fn bytes_to_take(&self) -> (r: usize)
        requires
            self.is_field(),
        ensures
            r == self->Field_1.bytes_to_take,
    {
        match self {
            DataElement::Field(_kind, info) => info.bytes_to_take,
            DataElement::Nested(_nested) => 0,
        }
    }

    /// The repetition count of a field.
    pub fn repetitions(&self) -> (r: usize)
        requires
            self.is_field(),
        ensures
            r == self->Field_1.repetitions,
    {
        match self {
            DataElement::Field(_kind, info) => info.repetitions,
            DataElement::Nested(_nested) => 0,
        }
    }
}

/// Outcome of scanning a descriptor from the left: the items closed so far, the
/// item being collected, and the parenthesis depth.
pub open spec fn split_state(s: Seq<char>) -> (Seq<Seq<char>>, Seq<char>, int)
    decreases s.len(),
{
    if s.len() == 0 {
        (seq![], seq![], 0)
    } else {
        let (done, cur, depth) = split_state(s.drop_last());
        let c = s.last();
        if c == ' ' {
            (done, cur, depth)
        } else if c == ',' && depth == 0 {
            (done.push(cur), seq![], depth)
        } else if c == '(' {
            (done, cur.push(c), depth + 1)
        } else if c == ')' {
            (done, cur.push(c), depth - 1)
        } else {
            (done, cur.push(c), depth)
        }
    }
}

/// The items of a descriptor list: the text split at commas outside
/// parentheses, with spaces removed; a trailing empty item is dropped.
pub open spec fn split_top(s: Seq<char>) -> Seq<Seq<char>> {
    let (done, cur, _depth) = split_state(s);
    if cur.len() == 0 {
        done
    } else {
        done.push(cur)
    }
}

/// Splits a descriptor list into its top-level items. Every `Vec<char>` meets
/// the length bound, as no allocation exceeds `isize::MAX` bytes.
pub fn split_elements(s: &Vec<char>) -> (r: Vec<Vec<char>>)
    requires
        s@.len() <= isize::MAX,
    ensures
        r@.map_values(|v: Vec<char>| v@) == split_top(s@),
{
    let mut complete_list: Vec<Vec<char>> = Vec::new();
    let mut current_element: Vec<char> = Vec::new();
    let mut bracket_count: isize = 0;
    let mut i: usize = 0;
    while i < s.len()
        invariant
            i <= s@.len() <= isize::MAX,
            -(i as int) <= bracket_count <= i,
            split_state(s@.subrange(0, i as int)) == (
                complete_list@.map_values(|v: Vec<char>| v@),
                current_element@,
                bracket_count as int,
            ),
        decreases s@.len() - i,
    {
        let c = s[i];
        proof {
            assert(s@.subrange(0, i + 1).drop_last() == s@.subrange(0, i as int));
        }
        if c == ' ' {
        } else if c == ',' && bracket_count == 0 {
            let done = current_element;
            current_element = Vec::new();
            complete_list.push(done);
            assert(complete_list@.map_values(|v: Vec<char>| v@) =~= split_state(
                s@.subrange(0, i as int),
            ).0.push(done@));
        } else if c == '(' {
            bracket_count = bracket_count + 1;
            current_element.push(c);
        } else if c == ')' {
            bracket_count = bracket_count - 1;
            current_element.push(c);
        } else {
            current_element.push(c);
        }
        i = i + 1;
    }
    assert(s@.subrange(0, s@.len() as int) == s@);
    if current_element.len() == 0 {
        complete_list
    } else {
        let last = current_element;
        complete_list.push(last);
        assert(complete_list@.map_values(|v: Vec<char>| v@) =~= split_state(s@).0.push(last@));
        complete_list
    }
}

proof fn lemma_split_state_lengths(s: Seq<char>)
    ensures
        split_state(s).1.len() <= s.len(),
        forall|k: int| 0 <= k < split_state(s).0.len() ==> #[trigger] split_state(s).0[k].len() <= s.len(),
    decreases s.len(),
{
    if s.len() > 0 {
        lemma_split_state_lengths(s.drop_last());
    }
}

/// No item of a split list is longer than the list's text.
pub proof fn lemma_split_top_lengths(s: Seq<char>)
    ensures
        forall|k: int| 0 <= k < split_top(s).len() ==> #[trigger] split_top(s)[k].len() <= s.len(),
{
    lemma_split_state_lengths(s);
}

proof fn lemma_digits_prefix(t: Seq<char>, j: int)
    requires
        0 <= j <= t.len(),
        forall|i: int| 0 <= i < t.len() ==> is_digit(#[trigger] t[i]),
    ensures
        digits_value(t.subrange(0, j)) <= digits_value(t),
    decreases t.len() - j,
{
    if j < t.len() {
        lemma_digits_prefix(t, j + 1);
        assert(t.subrange(0, j + 1).drop_last() == t.subrange(0, j));
    } else {
        assert(t.subrange(0, j) == t);
    }
}

fn copy_range(s: &Vec<char>, lo: usize, hi: usize) -> (r: Vec<char>)
    requires
        lo <= hi <= s@.len(),
    ensures
        r@ == s@.subrange(lo as int, hi as int),
{
    slice_to_vec(slice_subrange(s.as_slice(), lo, hi))
}

/// Reads `s[lo..hi]` as a positive decimal number.
fn read_positive(s: &Vec<char>, lo: usize, hi: usize) -> (r: Option<usize>)
    requires
        lo <= hi <= s@.len(),
    ensures
        r == positive_number(s@.subrange(lo as int, hi as int)),
{
    let ghost t = s@.subrange(lo as int, hi as int);
    if lo == hi {
        return None;
    }
    let mut v: usize = 0;
    let mut i: usize = lo;
    while i < hi
        invariant
            lo <= i <= hi <= s@.len(),
            t == s@.subrange(lo as int, hi as int),
            forall|j: int| 0 <= j < i - lo ==> is_digit(#[trigger] t[j]),
            v == digits_value(t.subrange(0, i - lo)),
        decreases hi - i,
    {
        let c = s[i];
        assert(t[i - lo] == c);
        if !('0' <= c && c <= '9') {
            return None;
        }
        let d = (c as u32 - '0' as u32) as usize;
        assert(t.subrange(0, i - lo + 1).drop_last() == t.subrange(0, i - lo));
        if v > (usize::MAX - d) / 10 {
            proof {
                assert(10 * v + d > usize::MAX) by (nonlinear_arith)
                    requires
                        v > (usize::MAX - d) / 10,
                        d <= 9,
                ;
                if forall|j: int| 0 <= j < t.len() ==> is_digit(#[trigger] t[j]) {
                    lemma_digits_prefix(t, i - lo + 1);
                }
            }
            return None;
        }
        proof {
            assert(10 * v + d <= usize::MAX) by (nonlinear_arith)
                requires
                    v <= (usize::MAX - d) / 10,
                    d <= 9,
            ;
        }
        v = 10 * v + d;
        i = i + 1;
    }
    assert(t.subrange(0, t.len() as int) == t);
    if v == 0 {
        None
    } else {
        Some(v)
    }
}

fn read_repetitions(s: &Vec<char>, lo: usize, hi: usize) -> (r: Option<usize>)
    requires
        lo <= hi <= s@.len(),
    ensures
        r == repetitions_of(s@.subrange(lo as int, hi as int)),
{
    if lo == hi {
        Some(1)
    } else {
        read_positive(s, lo, hi)
    }
}

fn find_open(s: &Vec<char>) -> (r: Option<usize>)
    ensures
        match r {
            Some(p) => open_from(s@, 0) == Some(p as int) && p < s@.len(),
            None => open_from(s@, 0) is None,
        },
{
    let mut i: usize = 0;
    while i < s.len()
        invariant
            i <= s@.len(),
            open_from(s@, 0) == open_from(s@, i as int),
        decreases s@.len() - i,
    {
        if s[i] == '(' {
            return Some(i);
        }
        i = i + 1;
    }
    None
}

fn find_alpha(s: &Vec<char>) -> (r: Option<usize>)
    ensures
        match r {
            Some(a) => alpha_from(s@, 0) == Some(a as int) && a < s@.len(),
            None => alpha_from(s@, 0) is None,
        },
{
    let mut i: usize = 0;
    while i < s.len()
        invariant
            i <= s@.len(),
            alpha_from(s@, 0) == alpha_from(s@, i as int),
        decreases s@.len() - i,
    {
        let c = s[i];
        if ('a' <= c && c <= 'z') || ('A' <= c && c <= 'Z') {
            return Some(i);
        }
        i = i + 1;
    }
    None
}

fn find_close(rest: &Vec<char>) -> (r: Option<usize>)
    ensures
        match r {
            Some(k) => match_close(rest@, 1, 1) == Some(k as int) && 1 <= k < rest@.len(),
            None => match_close(rest@, 1, 1) is None,
        },
{
    let mut depth: usize = 1;
    let mut i: usize = 1;
    while i < rest.len()
        invariant
            1 <= i,
            1 <= depth <= i,
            match_close(rest@, 1, 1) == match_close(rest@, i as int, depth as int),
        decreases rest@.len() - i,
    {
        let c = rest[i];
        if c == '(' {
            depth = depth + 1;
        } else if c == ')' {
            if depth - 1 < 1 {
                return Some(i);
            }
            depth = depth - 1;
        }
        i = i + 1;
    }
    None
}

fn kind_code(c: char) -> (r: Option<Kind>)
    ensures
        r == kind_of(c),
{
    if c == 'I' || c == 'i' {
        Some(Kind::Integer)
    } else if c == 'F' || c == 'f' {
        Some(Kind::Float)
    } else if c == 'D' || c == 'd' {
        Some(Kind::Double)
    } else if c == 'S' || c == 's' {
        Some(Kind::Str)
    } else {
        None
    }
}

/// Parses one item of a descriptor, spaces already removed: a field such as
/// `2I10`, or a group such as `2(I5,S5)`.
pub fn parse_element(s: &Vec<char>) -> (r: Result<DataElement, GrammarError>)
    requires
        s@.len() <= isize::MAX,
    ensures
        match r {
            Ok(e) => item_fields(s@) == Ok::<Seq<FieldSpec>, GrammarError>(expand_one(e))
                && parses_to(s@, e),
            Err(x) => item_fields(s@) == Err::<Seq<FieldSpec>, GrammarError>(x),
        },
    decreases s@.len() + 1, 0int,
{
    match find_open(s) {
        Some(p) => {
            let repetitions = match read_repetitions(s, 0, p) {
                Some(n) => n,
                None => return Err(GrammarError::InvalidRepetitions),
            };
            let rest = copy_range(s, p, s.len());
            let k = match find_close(&rest) {
                Some(k) => k,
                None => return Err(GrammarError::UnclosedBracket),
            };
            let inner = copy_range(&rest, 1, k);
            let split = split_elements(&inner);
            proof {
                lemma_split_top_lengths(inner@);
                assert forall|j: int| 0 <= j < split@.len() implies #[trigger] split@[j]@.len()
                    < inner@.len() + 1 by {
                    assert(split@.map_values(|v: Vec<char>| v@)[j] == split@[j]@);
                }
            }
            let mut elements: Vec<DataElement> = Vec::new();
            match parse_items(&split, inner.len() + 1, &mut elements) {
                Ok(()) => {
                    assert(expand_seq(seq![]) == Seq::<FieldSpec>::empty());
                    assert(expand_seq(elements@) =~= seq![] + expand_seq(elements@));
                    let ghost ps = split@.map_values(|v: Vec<char>| v@);
                    assert(ps == split_top(inner@));
                    assert forall|j: int| 0 <= j < ps.len() implies ps[j].len() <= inner@.len()
                        && parses_to(ps[j], #[trigger] elements@[j]) by {
                        assert(ps[j] == split@[j]@);
                        assert(elements@[0 + j] == elements@[j]);
                    }
                    let r = DataElement::Nested(Nested { repetitions, elements });
                    assert(parses_to(s@, r));
                    Ok(r)
                },
                Err(e) => Err(e),
            }
        },
        None => {
            let a = match find_alpha(s) {
                Some(a) => a,
                None => return Err(GrammarError::MissingType),
            };
            let repetitions = match read_repetitions(s, 0, a) {
                Some(n) => n,
                None => return Err(GrammarError::InvalidRepetitions),
            };
            let width = match read_positive(s, a + 1, s.len()) {
                Some(n) => n,
                None => return Err(GrammarError::InvalidWidth),
            };
            match kind_code(s[a]) {
                Some(kind) => Ok(DataElement::Field(kind, ElementInfo::new(repetitions, width))),
                None => Err(GrammarError::UnsupportedType(s[a])),
            }
        },
    }
}

/// Parses the items `split`, each shorter than `bound`, in order and appends
/// them to `list`; stops at the first refused item.
pub(crate) fn parse_items(split: &Vec<Vec<char>>, bound: usize, list: &mut Vec<DataElement>) -> (r:
    Result<(), GrammarError>)
    requires
        bound <= isize::MAX + 1,
        forall|j: int| 0 <= j < split@.len() ==> #[trigger] split@[j]@.len() < bound,
    ensures
        match list_fields(split@.map_values(|v: Vec<char>| v@), bound as int) {
            Ok(fs) => {
                &&& r is Ok
                &&& expand_seq(final(list)@) == expand_seq(old(list)@) + fs
                &&& final(list)@.len() == old(list)@.len() + split@.len()
                &&& final(list)@.subrange(0, old(list)@.len() as int) == old(list)@
                &&& forall|j: int|
                    0 <= j < split@.len() ==> parses_to(
                        split@[j]@,
                        #[trigger] final(list)@[old(list)@.len() + j],
                    )
            },
            Err(x) => r == Err::<(), GrammarError>(x),
        },
    decreases bound, split@.len(),
{
    let ghost ps = split@.map_values(|v: Vec<char>| v@);
    let ghost start = expand_seq(list@);
    let mut i: usize = 0;
    while i < split.len()
        invariant
            i <= split@.len(),
            ps == split@.map_values(|v: Vec<char>| v@),
            bound <= isize::MAX + 1,
            forall|j: int| 0 <= j < split@.len() ==> #[trigger] split@[j]@.len() < bound,
            start == expand_seq(old(list)@),
            list_fields(ps.subrange(0, i as int), bound as int) is Ok,
            expand_seq(list@) == start + list_fields(ps.subrange(0, i as int), bound as int)->Ok_0,
            list@.len() == old(list)@.len() + i,
            list@.subrange(0, old(list)@.len() as int) == old(list)@,
            forall|j: int|
                0 <= j < i ==> parses_to(split@[j]@, #[trigger] list@[old(list)@.len() + j]),
        decreases split@.len() - i,
    {
        let ghost before = list@;
        assert(ps.subrange(0, i + 1).drop_last() == ps.subrange(0, i as int));
        assert(ps[i as int] == split@[i as int]@);
        match parse_element(&split[i]) {
            Ok(e) => {
                list.push(e);
                assert(list@.drop_last() == before);
                assert(list@.subrange(0, old(list)@.len() as int) =~= before.subrange(
                    0,
                    old(list)@.len() as int,
                ));
                assert forall|j: int| 0 <= j < i + 1 implies parses_to(
                    split@[j]@,
                    #[trigger] list@[old(list)@.len() + j],
                ) by {
                    if j < i {
                        assert(list@[old(list)@.len() + j] == before[old(list)@.len() + j]);
                    }
                }
                assert(expand_seq(list@) =~= expand_seq(before) + expand_one(e));
            },
            Err(x) => {
                proof {
                    lemma_list_fields_err(ps, i as int, bound as int, x);
                }
                return Err(x);
            },
        }
        i = i + 1;
    }
    assert(ps.subrange(0, split@.len() as int) == ps);
    Ok(())
}

/// Parses the items `split` in order and appends them to `list`: one element
/// per item, each what its item parses to. Stops at the first refused item,
/// with its error.
pub fn parse_elements(split: &Vec<Vec<char>>, list: &mut Vec<DataElement>) -> (r: Result<
    (),
    GrammarError,
>)
    requires
        forall|j: int| 0 <= j < split@.len() ==> #[trigger] split@[j]@.len() < isize::MAX,
    ensures
        match list_fields(split@.map_values(|v: Vec<char>| v@), (longest(split@.map_values(|v: Vec<char>| v@)) + 1) as int) {
            Ok(fs) => {
                &&& r is Ok
                &&& expand_seq(final(list)@) == expand_seq(old(list)@) + fs
                &&& final(list)@.len() == old(list)@.len() + split@.len()
                &&& final(list)@.subrange(0, old(list)@.len() as int) == old(list)@
                &&& forall|j: int|
                    0 <= j < split@.len() ==> parses_to(
                        split@[j]@,
                        #[trigger] final(list)@[old(list)@.len() + j],
                    )
            },
            Err(x) => r == Err::<(), GrammarError>(x),
        },
{
    let ghost ps = split@.map_values(|v: Vec<char>| v@);
    let mut most: usize = 0;
    let mut i: usize = 0;
    while i < split.len()
        invariant
            i <= split@.len(),
            ps == split@.map_values(|v: Vec<char>| v@),
            forall|j: int| 0 <= j < split@.len() ==> #[trigger] split@[j]@.len() < isize::MAX,
            most == longest(ps.subrange(0, i as int)),
            most < isize::MAX,
        decreases split@.len() - i,
    {
        assert(ps.subrange(0, i + 1).drop_last() == ps.subrange(0, i as int));
        assert(ps[i as int] == split@[i as int]@);
        if split[i].len() > most {
            most = split[i].len();
        }
        i = i + 1;
    }
    assert(ps.subrange(0, split@.len() as int) == ps);
    proof {
        lemma_longest(ps);
        assert forall|j: int| 0 <= j < split@.len() implies #[trigger] split@[j]@.len() < most
            + 1 by {
            assert(ps[j] == split@[j]@);
        }
    }
    parse_items(split, most + 1, list)
}

/// The length of the longest of `ps`, or zero.
pub open spec fn longest(ps: Seq<Seq<char>>) -> nat
    decreases ps.len(),
{
    if ps.len() == 0 {
        0
    } else if ps.last().len() > longest(ps.drop_last()) {
        ps.last().len()
    } else {
        longest(ps.drop_last())
    }
}

proof fn lemma_longest(ps: Seq<Seq<char>>)
    ensures
        forall|j: int| 0 <= j < ps.len() ==> #[trigger] ps[j].len() <= longest(ps),
    decreases ps.len(),
{
    if ps.len() > 0 {
        lemma_longest(ps.drop_last());
        assert forall|j: int| 0 <= j < ps.len() implies #[trigger] ps[j].len() <= longest(ps) by {
            if j < ps.len() - 1 {
                assert(ps[j] == ps.drop_last()[j]);
            }
        }
    }
}

proof fn lemma_list_fields_err(ps: Seq<Seq<char>>, i: int, bound: int, x: GrammarError)
    requires
        0 <= i < ps.len(),
        forall|j: int| 0 <= j < ps.len() ==> #[trigger] ps[j].len() < bound,
        list_fields(ps.subrange(0, i + 1), bound) == Err::<Seq<FieldSpec>, GrammarError>(x),
    ensures
        list_fields(ps, bound) == Err::<Seq<FieldSpec>, GrammarError>(x),
    decreases ps.len() - i,
{
    if i + 1 < ps.len() {
        assert(ps.subrange(0, i + 2).drop_last() == ps.subrange(0, i + 1));
        assert(ps.subrange(0, i + 2).last() == ps[i + 1]);
        lemma_list_fields_err(ps, i + 1, bound, x);
    } else {
        assert(ps.subrange(0, i + 1) == ps);
    }
}

} // verus!
