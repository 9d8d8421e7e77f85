//! Decoding of fixed-width, column-oriented text records driven by a compact
//! descriptor language such as `2(I5,S5)`: two repetitions of a five-byte
//! integer field followed by a five-byte string field.
//!
//! A descriptor is compiled once into a [`CompiledPlan`], the flat list of its
//! fields; [`decode`] then reads any number of records against it.
use vstd::prelude::*;

pub mod convert;
pub mod decode;
pub mod error;
pub mod expand;
pub mod grammar;
pub mod plan;

pub use convert::{first_reading, get_sub_slice, to_double, to_float, to_integer, to_text, trim_ascii, FromSlice};
pub use decode::{decode, Value};
pub use error::DescriptorParserError;
pub use expand::expand_elements;
pub use grammar::{parse_element, parse_elements, split_elements, DataElement, ElementInfo, FieldSpec, GrammarError, Kind, Nested};
pub use plan::{compile, CompiledPlan};

verus! {

} // verus!
