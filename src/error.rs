use vstd::prelude::*;
use vstd::string::StringExecFns;

verus! {

/// A failure while decoding one record.
#[derive(Debug, Clone, PartialEq, Eq)]
pub enum DescriptorParserError {
    /// A single-precision field whose text is not a number, with the field's raw text.
    Invalidf32(String),
    /// A double-precision field whose text is not a number, with the field's raw text.
    Invalidf64(String),
    /// An integer field whose text is not an integer, with the field's raw text.
    Invalidi32(String),
    /// The buffer held the first count of bytes; the plan needs the second.
    NotEnoughBytes(usize, usize),
}

/// The decimal digit for `d`.
pub open spec fn digit_char(d: nat) -> char {
    if d == 0 { '0' }
    else if d == 1 { '1' }
    else if d == 2 { '2' }
    else if d == 3 { '3' }
    else if d == 4 { '4' }
    else if d == 5 { '5' }
    else if d == 6 { '6' }
    else if d == 7 { '7' }
    else if d == 8 { '8' }
    else { '9' }
}

/// `n` written in decimal, without leading zeros.
pub open spec fn decimal(n: nat) -> Seq<char>
    decreases n,
{
    if n < 10 {
        seq![digit_char(n)]
    } else {
        decimal(n / 10).push(digit_char(n % 10))
    }
}

/// The message for a buffer that is too short.
pub open spec fn short_message(found: nat, needed: nat) -> Seq<char> {
    "Found "@ + decimal(found) + " bytes, expected at least "@ + decimal(needed)
}

/// The message for a field that does not convert into `target`.
pub open spec fn conversion_message(text: Seq<char>, target: Seq<char>) -> Seq<char> {
    "Can't convert '"@ + text + "' into "@ + target
}

/// Relies on format!: each count written in decimal between the fixed words.
#[verifier::external_body]
fn format_short(found: usize, needed: usize) -> (r: String)
    ensures
        r@ == short_message(found as nat, needed as nat),
{
    format!("Found {} bytes, expected at least {}", found, needed)
}

/// The message for a field that does not convert into `target`.
fn format_conversion(text: &String, target: &str) -> (r: String)
    ensures
        r@ == conversion_message(text@, target@),
{
    let mut r = <String as StringExecFns>::from_str("Can't convert '");
    r.append(text.as_str());
    r.append("' into ");
    r.append(target);
    r
}

impl DescriptorParserError {
    /// The message shown for this error.
    pub open spec fn message(&self) -> Seq<char> {
        match self {
            DescriptorParserError::Invalidf32(t) => conversion_message(t@, "f32"@),
            DescriptorParserError::Invalidf64(t) => conversion_message(t@, "f64"@),
            DescriptorParserError::Invalidi32(t) => conversion_message(t@, "i32"@),
            DescriptorParserError::NotEnoughBytes(found, needed) => short_message(
                *found as nat,
                *needed as nat,
            ),
        }
    }

    /// Describes the error for a user.
    pub fn to_string(&self) -> (r: String)
        ensures
            r@ == self.message(),
    {
        match self {
            DescriptorParserError::Invalidf32(t) => format_conversion(t, "f32"),
            DescriptorParserError::Invalidf64(t) => format_conversion(t, "f64"),
            DescriptorParserError::Invalidi32(t) => format_conversion(t, "i32"),
            DescriptorParserError::NotEnoughBytes(found, needed) => format_short(*found, *needed),
        }
    }

    /// An integer conversion failure on the raw text `text`.
    pub open spec fn is_invalid_i32(&self, text: Seq<char>) -> bool {
        self is Invalidi32 && self->Invalidi32_0@ == text
    }

    /// A single-precision conversion failure on the raw text `text`.
    pub open spec fn is_invalid_f32(&self, text: Seq<char>) -> bool {
        self is Invalidf32 && self->Invalidf32_0@ == text
    }

    /// A double-precision conversion failure on the raw text `text`.
    pub open spec fn is_invalid_f64(&self, text: Seq<char>) -> bool {
        self is Invalidf64 && self->Invalidf64_0@ == text
    }
}

} // verus!
