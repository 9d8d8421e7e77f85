use vstd::prelude::*;
use vstd::slice::slice_subrange;

use crate::error::DescriptorParserError;

verus! {

/// Conversion of a field's bytes into a typed value.
pub trait FromSlice<T> {
    /// `r` is what converting these bytes gives.
    spec fn converts(&self, r: Result<T, DescriptorParserError>) -> bool;

    fn to_type(&self) -> (r: Result<T, DescriptorParserError>)
        ensures
            self.converts(r),
    ;
}

/// Space, tab, line feed, vertical tab, form feed or carriage return.
pub open spec fn is_blank(b: u8) -> bool {
    b == 0x20 || b == 0x09 || b == 0x0a || b == 0x0b || b == 0x0c || b == 0x0d
}

/// The index of the first non-blank byte at or after `i`, or the length.
pub open spec fn lead_end(b: Seq<u8>, i: int) -> int
    decreases b.len() - i,
{
    if i < 0 || i >= b.len() {
        b.len() as int
    } else if is_blank(b[i]) {
        lead_end(b, i + 1)
    } else {
        i
    }
}

/// One past the last non-blank byte before `j`, or zero.
pub open spec fn trail_start(b: Seq<u8>, j: int) -> int
    decreases j,
{
    if j <= 0 || j > b.len() {
        0
    } else if is_blank(b[j - 1]) {
        trail_start(b, j - 1)
    } else {
        j
    }
}

/// `b` without its leading and trailing blanks.
pub open spec fn trim(b: Seq<u8>) -> Seq<u8> {
    let lo = lead_end(b, 0);
    let hi = trail_start(b, b.len() as int);
    if lo < hi {
        b.subrange(lo, hi)
    } else {
        seq![]
    }
}

pub open spec fn is_digit_byte(c: u8) -> bool {
    0x30 <= c <= 0x39
}

/// One or more decimal digits.
pub open spec fn all_digits(t: Seq<u8>) -> bool {
    t.len() > 0 && forall|i: int| 0 <= i < t.len() ==> is_digit_byte(#[trigger] t[i])
}

/// The value of a string of decimal digits.
pub open spec fn bytes_value(t: Seq<u8>) -> nat
    decreases t.len(),
{
    if t.len() == 0 {
        0
    } else {
        10 * bytes_value(t.drop_last()) + (t.last() - 0x30) as nat
    }
}

/// The integer that `t` writes: an optional `+` or `-` followed by decimal digits.
pub open spec fn integer_text(t: Seq<u8>) -> Option<int> {
    if t.len() > 0 && t[0] == 0x2d {
        if all_digits(t.drop_first()) {
            Some(-(bytes_value(t.drop_first()) as int))
        } else {
            None
        }
    } else if t.len() > 0 && t[0] == 0x2b {
        if all_digits(t.drop_first()) {
            Some(bytes_value(t.drop_first()) as int)
        } else {
            None
        }
    } else if all_digits(t) {
        Some(bytes_value(t) as int)
    } else {
        None
    }
}

/// The `i32` that `t` writes, where it is an integer in range.
pub open spec fn i32_text(t: Seq<u8>) -> Option<i32> {
    match integer_text(t) {
        Some(v) => if i32::MIN <= v <= i32::MAX {
            Some(v as i32)
        } else {
            None
        },
        None => None,
    }
}

/// The text that bytes stand for, decoded as UTF-8 with each invalid sequence
/// replaced by U+FFFD.
pub uninterp spec fn lossy_text(b: Seq<u8>) -> Seq<char>;

/// Relies on String::from_utf8_lossy: the text depends on the bytes alone,
/// and ASCII bytes, being valid UTF-8, come out as the same characters.
#[verifier::external_body]
fn lossy(b: &[u8]) -> (r: String)
    ensures
        r@ == lossy_text(b@),
        (forall|i: int| 0 <= i < b@.len() ==> b@[i] < 0x80) ==> r@ == b@.map_values(
            |c: u8| c as char,
        ),
{
    String::from_utf8_lossy(b).to_string()
}

/// Relies on lexical::parse for `i32` in the standard number format, which
/// takes an optional sign and one or more decimal digits, and refuses
/// anything else and values out of range.
#[verifier::external_body]
fn parse_i32(b: &[u8]) -> (r: Option<i32>)
    ensures
        r == i32_text(b@),
{
    lexical::parse::<i32, _>(b).ok()
}

/// Relies on lexical::parse in the standard number format, with `E` or `e`
/// as the exponent marker: `Some` when lexical reads the bytes as a number.
#[verifier::external_body]
fn parse_standard<N: lexical::FromLexical>(b: &[u8]) -> (r: Option<N>) {
    lexical::parse::<N, _>(b).ok()
}

/// `b` with each `d` or `D` written as `e`: a Fortran `D` exponent as a
/// standard one.
pub open spec fn d_as_e(b: Seq<u8>) -> Seq<u8> {
    b.map_values(|c: u8| if c == 0x44 || c == 0x64 { 0x65u8 } else { c })
}

/// Writes a `D` exponent marker as `e`, in either case.
pub fn d_exponent_as_e(b: &[u8]) -> (r: Vec<u8>)
    ensures
        r@ == d_as_e(b@),
{
    let mut out: Vec<u8> = Vec::new();
    let mut i: usize = 0;
    while i < b.len()
        invariant
            i <= b@.len(),
            out@ == d_as_e(b@.subrange(0, i as int)),
        decreases b@.len() - i,
    {
        let c = b[i];
        if c == 0x44 || c == 0x64 {
            out.push(0x65u8);
        } else {
            out.push(c);
        }
        assert(d_as_e(b@.subrange(0, i + 1)) =~= d_as_e(b@.subrange(0, i as int)).push(
            out@.last(),
        ));
        i = i + 1;
    }
    assert(b@.subrange(0, b@.len() as int) == b@);
    out
}

/// `b` without its leading and trailing blanks.
pub fn trim_ascii(b: &[u8]) -> (r: &[u8])
    ensures
        r@ == trim(b@),
{
    let n = b.len();
    let mut lo: usize = 0;
    while lo < n && (b[lo] == 0x20 || b[lo] == 0x09 || b[lo] == 0x0a || b[lo] == 0x0b || b[lo]
        == 0x0c || b[lo] == 0x0d)
        invariant
            lo <= n == b@.len(),
            lead_end(b@, 0) == lead_end(b@, lo as int),
        decreases n - lo,
    {
        lo = lo + 1;
    }
    let mut hi: usize = n;
    while hi > 0 && (b[hi - 1] == 0x20 || b[hi - 1] == 0x09 || b[hi - 1] == 0x0a || b[hi - 1]
        == 0x0b || b[hi - 1] == 0x0c || b[hi - 1] == 0x0d)
        invariant
            hi <= n == b@.len(),
            trail_start(b@, n as int) == trail_start(b@, hi as int),
        decreases hi,
    {
        hi = hi - 1;
    }
    if lo < hi {
        slice_subrange(b, lo, hi)
    } else {
        slice_subrange(b, 0, 0)
    }
}

/// Reads an integer field: its bytes, blanks trimmed, as a signed decimal.
pub fn to_integer(raw: &[u8]) -> (r: Result<i32, DescriptorParserError>)
    ensures
        match i32_text(trim(raw@)) {
            Some(v) => r == Ok::<i32, DescriptorParserError>(v),
            None => r is Err && r->Err_0.is_invalid_i32(lossy_text(raw@)),
        },
{
    match parse_i32(trim_ascii(raw)) {
        Some(v) => Ok(v),
        None => Err(DescriptorParserError::Invalidi32(lossy(raw))),
    }
}

/// Reads a string field: its bytes, blanks trimmed, as text. Never fails.
pub fn to_text(raw: &[u8]) -> (r: String)
    ensures
        r@ == lossy_text(trim(raw@)),
{
    lossy(trim_ascii(raw))
}

/// The reading kept from two attempts on one field: the first where it
/// succeeded, else the second.
pub fn first_reading<N>(first: Option<N>, second: Option<N>) -> (r: Option<N>)
    ensures
        r == (match first {
            Some(v) => Some(v),
            None => second,
        }),
{
    match first {
        Some(v) => Some(v),
        None => second,
    }
}

/// Reads a single-precision field: its bytes, blanks trimmed, as a number
/// with an `E` exponent, or failing that with a `D` exponent read as an `E`.
/// The error carries the field's raw text.
pub fn to_float<N: lexical::FromLexical>(raw: &[u8]) -> (r: Result<N, DescriptorParserError>)
    ensures
        r is Err ==> r->Err_0.is_invalid_f32(lossy_text(raw@)),
{
    let t = trim_ascii(raw);
    let e_form = parse_standard::<N>(t);
    let d_form = parse_standard::<N>(d_exponent_as_e(t).as_slice());
    match first_reading(e_form, d_form) {
        Some(v) => Ok(v),
        None => Err(DescriptorParserError::Invalidf32(lossy(raw))),
    }
}

/// Reads a double-precision field: its bytes, blanks trimmed, as a number
/// with a `D` exponent read as an `E`, or failing that with an `E` exponent.
/// The error carries the field's raw text.
pub fn to_double<N: lexical::FromLexical>(raw: &[u8]) -> (r: Result<N, DescriptorParserError>)
    ensures
        r is Err ==> r->Err_0.is_invalid_f64(lossy_text(raw@)),
{
    let t = trim_ascii(raw);
    let d_form = parse_standard::<N>(d_exponent_as_e(t).as_slice());
    let e_form = parse_standard::<N>(t);
    match first_reading(d_form, e_form) {
        Some(v) => Ok(v),
        None => Err(DescriptorParserError::Invalidf64(lossy(raw))),
    }
}

impl FromSlice<i32> for [u8] {
    /// The signed decimal that the bytes hold, blanks trimmed, where it fits an
    /// `i32`; else a failure carrying the raw text.
    open spec fn converts(&self, r: Result<i32, DescriptorParserError>) -> bool {
        match i32_text(trim(self@)) {
            Some(v) => r == Ok::<i32, DescriptorParserError>(v),
            None => r is Err && r->Err_0.is_invalid_i32(lossy_text(self@)),
        }
    }

    fn to_type(&self) -> (r: Result<i32, DescriptorParserError>) {
        to_integer(self)
    }
}

impl FromSlice<String> for [u8] {
    /// The text of the bytes, blanks trimmed; never a failure.
    open spec fn converts(&self, r: Result<String, DescriptorParserError>) -> bool {
        r is Ok && r->Ok_0@ == lossy_text(trim(self@))
    }

    fn to_type(&self) -> (r: Result<String, DescriptorParserError>) {
        Ok(to_text(self))
    }
}

/// Blanks around a field change nothing that it converts to: the trimmed
/// bytes of `p ++ s ++ q` are those of `s` when `p` and `q` are all blanks.
pub proof fn lemma_padding_ignored(p: Seq<u8>, s: Seq<u8>, q: Seq<u8>)
    requires
        forall|i: int| 0 <= i < p.len() ==> is_blank(#[trigger] p[i]),
        forall|i: int| 0 <= i < q.len() ==> is_blank(#[trigger] q[i]),
    ensures
        trim(p + s + q) == trim(s),
{
    let b = p + s + q;
    assert forall|k: int| 0 <= k < p.len() implies is_blank(#[trigger] b[k]) by {
        assert(b[k] == p[k]);
    }
    assert forall|k: int| p.len() + s.len() <= k < b.len() implies is_blank(#[trigger] b[k]) by {
        assert(b[k] == q[k - p.len() - s.len()]);
    }
    lemma_lead_range(s, 0);
    lemma_lead_skip(b, 0, p.len() as int);
    lemma_trail_skip(b, b.len() as int, (p.len() + s.len()) as int);
    if lead_end(s, 0) < s.len() {
        lemma_trail_past(s, s.len() as int, lead_end(s, 0));
        lemma_lead_shift(p, s, q, 0);
        lemma_trail_shift(p, s, q, s.len() as int);
        assert(b.subrange(p.len() + lead_end(s, 0), p.len() + trail_start(s, s.len() as int))
            =~= s.subrange(lead_end(s, 0), trail_start(s, s.len() as int)));
    } else {
        lemma_lead_shift(p, s, q, 0);
        lemma_trail_shift(p, s, q, s.len() as int);
        lemma_all_blank_trail(s, s.len() as int);
    }
}

proof fn lemma_lead_range(s: Seq<u8>, i: int)
    requires
        0 <= i <= s.len(),
    ensures
        i <= lead_end(s, i) <= s.len(),
        lead_end(s, i) < s.len() ==> !is_blank(s[lead_end(s, i)]),
    decreases s.len() - i,
{
    if i < s.len() {
        lemma_lead_range(s, i + 1);
    }
}

proof fn lemma_trail_past(s: Seq<u8>, j: int, k: int)
    requires
        0 <= k < j <= s.len(),
        !is_blank(s[k]),
    ensures
        k + 1 <= trail_start(s, j) <= j,
    decreases j,
{
    if j - 1 > k && is_blank(s[j - 1]) {
        lemma_trail_past(s, j - 1, k);
    }
}

proof fn lemma_lead_skip(b: Seq<u8>, i: int, j: int)
    requires
        0 <= i <= j <= b.len(),
        forall|k: int| i <= k < j ==> is_blank(#[trigger] b[k]),
    ensures
        lead_end(b, i) == lead_end(b, j),
    decreases j - i,
{
    if i < j {
        lemma_lead_skip(b, i + 1, j);
    }
}

proof fn lemma_trail_skip(b: Seq<u8>, j: int, i: int)
    requires
        0 <= i <= j <= b.len(),
        forall|k: int| i <= k < j ==> is_blank(#[trigger] b[k]),
    ensures
        trail_start(b, j) == trail_start(b, i),
    decreases j - i,
{
    if i < j {
        lemma_trail_skip(b, j - 1, i);
    }
}

proof fn lemma_lead_shift(p: Seq<u8>, s: Seq<u8>, q: Seq<u8>, i: int)
    requires
        0 <= i <= s.len(),
        forall|k: int| 0 <= k < q.len() ==> is_blank(#[trigger] q[k]),
    ensures
        lead_end(s, i) < s.len() ==> lead_end(p + s + q, p.len() + i) == p.len() + lead_end(s, i),
        lead_end(s, i) == s.len() ==> lead_end(p + s + q, p.len() + i) == (p + s + q).len(),
    decreases s.len() - i,
{
    let b = p + s + q;
    if i < s.len() {
        assert(b[p.len() + i] == s[i]);
        lemma_lead_shift(p, s, q, i + 1);
    } else {
        assert forall|k: int| p.len() + s.len() <= k < b.len() implies is_blank(#[trigger] b[k]) by {
            assert(b[k] == q[k - p.len() - s.len()]);
        }
        lemma_lead_skip(b, (p.len() + s.len()) as int, b.len() as int);
    }
}

proof fn lemma_trail_shift(p: Seq<u8>, s: Seq<u8>, q: Seq<u8>, j: int)
    requires
        0 <= j <= s.len(),
        forall|k: int| 0 <= k < p.len() ==> is_blank(#[trigger] p[k]),
    ensures
        trail_start(s, j) > 0 ==> trail_start(p + s + q, p.len() + j) == p.len() + trail_start(s, j),
        trail_start(s, j) == 0 ==> trail_start(p + s + q, p.len() + j) == 0,
    decreases j,
{
    let b = p + s + q;
    if j > 0 {
        assert(b[p.len() + j - 1] == s[j - 1]);
        lemma_trail_shift(p, s, q, j - 1);
    } else {
        assert forall|k: int| 0 <= k < p.len() implies is_blank(#[trigger] b[k]) by {
            assert(b[k] == p[k]);
        }
        lemma_trail_skip(b, p.len() as int, 0);
    }
}

proof fn lemma_all_blank_trail(s: Seq<u8>, j: int)
    requires
        0 <= j <= s.len(),
        lead_end(s, 0) == s.len(),
    ensures
        trail_start(s, j) == 0,
    decreases j,
{
    if j > 0 {
        lemma_lead_blank(s, 0, j - 1);
        lemma_all_blank_trail(s, j - 1);
    }
}

proof fn lemma_lead_blank(s: Seq<u8>, i: int, k: int)
    requires
        0 <= i <= k < s.len(),
        lead_end(s, i) == s.len(),
    ensures
        is_blank(s[k]),
    decreases k - i,
{
    if i < k {
        lemma_lead_blank(s, i + 1, k);
    }
}

/// Takes `width` bytes of `slice` from `*start_byte` on, and moves `*start_byte` past them.
pub fn get_sub_slice<'a>(start_byte: &mut usize, width: usize, slice: &'a [u8]) -> (r: &'a [u8])
    requires
        *old(start_byte) + width <= slice@.len(),
    ensures
        r@ == slice@.subrange(*old(start_byte) as int, *old(start_byte) + width),
        *final(start_byte) == *old(start_byte) + width,
{
    let n = slice.len();
    let end_byte = *start_byte + width;
    let s = slice_subrange(slice, *start_byte, end_byte);
    *start_byte = end_byte;
    s
}

} // verus!
