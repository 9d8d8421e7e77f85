use fortran_descriptor_parser::{
    compile, decode, first_reading, get_sub_slice, parse_element, parse_elements, DataElement,
    ElementInfo, to_double, to_float, to_integer, to_text, trim_ascii,
    DescriptorParserError, FieldSpec, FromSlice, GrammarError, Kind, Value,
};

fn field(kind: Kind, width: usize) -> FieldSpec {
    FieldSpec { kind, width }
}

#[test]
fn nested_group_of_one_expands_like_flat_group() {
    let nested = compile("2(1(I5,S5))").unwrap();
    let flat = compile("2(I5,S5)").unwrap();
    let expected = vec![
        field(Kind::Integer, 5),
        field(Kind::Str, 5),
        field(Kind::Integer, 5),
        field(Kind::Str, 5),
    ];
    assert_eq!(nested.fields(), expected.as_slice());
    assert_eq!(flat.fields(), expected.as_slice());
    assert_eq!(nested.total_width(), 20);
}

#[test]
fn nested_repetition_multiplies() {
    let plan = compile("2(3(I1),S2)").unwrap();
    let kinds: Vec<Kind> = plan.fields().iter().map(|f| f.kind).collect();
    assert_eq!(
        kinds,
        vec![
            Kind::Integer,
            Kind::Integer,
            Kind::Integer,
            Kind::Str,
            Kind::Integer,
            Kind::Integer,
            Kind::Integer,
            Kind::Str
        ]
    );
    assert_eq!(plan.total_width(), 10);
}

#[test]
fn compiling_twice_gives_equal_plans() {
    let a = compile("I10,2(S3,D7)").unwrap();
    let b = compile("I10,2(S3,D7)").unwrap();
    assert_eq!(a.fields(), b.fields());
    assert_eq!(a.total_width(), b.total_width());
    assert_eq!(a.total_width(), 30);
}

#[test]
fn short_buffer_is_refused_before_conversion() {
    let plan = compile("I5").unwrap();
    let x = decode::<f32, f64>(&plan, b"abcd");
    assert_eq!(x, Err(DescriptorParserError::NotEnoughBytes(4, 5)));
}

#[test]
fn exact_buffer_decodes_every_field() {
    let plan = compile("I3,S4,2I2").unwrap();
    let x = decode::<f32, f64>(&plan, b" 12abcd-1+2").unwrap();
    assert_eq!(x.len(), plan.fields().len());
    assert_eq!(
        x,
        vec![
            Value::Integer(12),
            Value::Str("abcd".to_string()),
            Value::Integer(-1),
            Value::Integer(2)
        ]
    );
}

#[test]
fn longer_buffer_leaves_tail_unread() {
    let plan = compile("I2").unwrap();
    let x = decode::<f32, f64>(&plan, b" 7 garbage").unwrap();
    assert_eq!(x, vec![Value::Integer(7)]);
}

#[test]
fn first_failure_in_field_order_is_reported() {
    let plan = compile("I2,I2,F2").unwrap();
    let x = decode::<f32, f64>(&plan, b" 1 Xzz");
    assert_eq!(x, Err(DescriptorParserError::Invalidi32(" X".to_string())));
}

#[test]
fn empty_descriptor_has_no_fields() {
    let plan = compile("").unwrap();
    assert_eq!(plan.fields().len(), 0);
    assert_eq!(plan.total_width(), 0);
    assert_eq!(decode::<f32, f64>(&plan, b""), Ok(vec![]));
}

#[test]
fn spaces_and_lower_case_are_accepted() {
    let plan = compile(" 2 ( i5 , s5 ) ").unwrap();
    let flat = compile("2(I5,S5)").unwrap();
    assert_eq!(plan.fields(), flat.fields());
}

#[test]
fn trailing_comma_is_ignored() {
    let plan = compile("I5,").unwrap();
    assert_eq!(plan.fields(), &[field(Kind::Integer, 5)]);
}

#[test]
fn grammar_errors() {
    assert_eq!(compile("X5").unwrap_err(), GrammarError::UnsupportedType('X'));
    assert_eq!(compile("55").unwrap_err(), GrammarError::MissingType);
    assert_eq!(compile("I5,,S5").unwrap_err(), GrammarError::MissingType);
    assert_eq!(compile("2(I5").unwrap_err(), GrammarError::UnclosedBracket);
    assert_eq!(compile("x2(I5)").unwrap_err(), GrammarError::InvalidRepetitions);
    assert_eq!(compile("2xI5").unwrap_err(), GrammarError::InvalidWidth);
    assert_eq!(compile("0I5").unwrap_err(), GrammarError::InvalidRepetitions);
    assert_eq!(compile("I0").unwrap_err(), GrammarError::InvalidWidth);
    assert_eq!(compile("I").unwrap_err(), GrammarError::InvalidWidth);
    assert_eq!(compile("I5x").unwrap_err(), GrammarError::InvalidWidth);
    assert_eq!(compile("2(I5,Q1)").unwrap_err(), GrammarError::UnsupportedType('Q'));
}

#[test]
fn total_width_overflow_is_refused() {
    assert_eq!(
        compile("2I18446744073709551615").unwrap_err(),
        GrammarError::TooWide
    );
    assert_eq!(
        compile("I99999999999999999999").unwrap_err(),
        GrammarError::InvalidWidth
    );
}

#[test]
fn integer_conversion_cases() {
    assert_eq!(to_integer(b"  -42 "), Ok(-42));
    assert_eq!(to_integer(b"+7"), Ok(7));
    assert_eq!(to_integer(b"007"), Ok(7));
    assert_eq!(to_integer(b"-0000000000000000000012"), Ok(-12));
    assert_eq!(to_integer(b"2147483647"), Ok(i32::MAX));
    assert_eq!(
        to_integer(b"2147483648"),
        Err(DescriptorParserError::Invalidi32("2147483648".to_string()))
    );
    assert_eq!(
        to_integer(b"   "),
        Err(DescriptorParserError::Invalidi32("   ".to_string()))
    );
    assert_eq!(
        to_integer(b"1 2"),
        Err(DescriptorParserError::Invalidi32("1 2".to_string()))
    );
}

#[test]
fn trimming_removes_every_ascii_blank() {
    assert_eq!(trim_ascii(b"\t\x0b\x0c\r\n ab c \n"), b"ab c");
    assert_eq!(trim_ascii(b"   "), b"");
    assert_eq!(to_integer(b"\x0b5\x0b"), Ok(5));
}

#[test]
fn string_fields_are_trimmed_and_lossy() {
    assert_eq!(to_text(b"  Test  "), "Test");
    assert_eq!(to_text(b" a\xffb "), "a\u{fffd}b");
}

#[test]
fn both_exponent_markers_for_both_precisions() {
    assert_eq!(to_float::<f32>(b"1.5d2"), Ok(150.0));
    assert_eq!(to_float::<f32>(b"1.5e2"), Ok(150.0));
    assert_eq!(to_double::<f64>(b"1.5D2"), Ok(150.0));
    assert_eq!(to_double::<f64>(b"1.5E2"), Ok(150.0));
    assert_eq!(
        to_double::<f64>(b" 1.5x "),
        Err(DescriptorParserError::Invalidf64(" 1.5x ".to_string()))
    );
}

#[test]
fn from_slice_reads_integers_and_strings() {
    let i: i32 = b"  42".as_slice().to_type().unwrap();
    assert_eq!(i, 42);
    let s: String = b" hi ".as_slice().to_type().unwrap();
    assert_eq!(s, "hi");
}

#[test]
fn sub_slices_advance_the_cursor() {
    let data = b"abcdef";
    let mut at: usize = 1;
    let s = get_sub_slice(&mut at, 3, data);
    assert_eq!(s, b"bcd");
    assert_eq!(at, 4);
}

#[test]
fn error_messages() {
    assert_eq!(
        DescriptorParserError::NotEnoughBytes(0, 120).to_string(),
        "Found 0 bytes, expected at least 120"
    );
    assert_eq!(
        DescriptorParserError::Invalidf32("x".to_string()).to_string(),
        "Can't convert 'x' into f32"
    );
}

#[test]
fn first_reading_prefers_the_first_success() {
    assert_eq!(first_reading(Some(1), Some(2)), Some(1));
    assert_eq!(first_reading(None, Some(2)), Some(2));
    assert_eq!(first_reading::<i32>(None, None), None);
}

fn chars(s: &str) -> Vec<char> {
    s.chars().collect()
}

fn is_field(e: &DataElement, kind: Kind, repetitions: usize, width: usize) -> bool {
    match e {
        DataElement::Field(k, info) => {
            *k == kind && *info == ElementInfo { repetitions, bytes_to_take: width }
        }
        DataElement::Nested(_) => false,
    }
}

#[test]
fn fields_parse_to_their_count_and_width() {
    assert!(is_field(&parse_element(&chars("2I10")).unwrap(), Kind::Integer, 2, 10));
    assert!(is_field(&parse_element(&chars("I10")).unwrap(), Kind::Integer, 1, 10));
    assert!(is_field(&parse_element(&chars("d15")).unwrap(), Kind::Double, 1, 15));
    assert!(is_field(&parse_element(&chars("S14")).unwrap(), Kind::Str, 1, 14));
}

#[test]
fn groups_keep_their_nesting() {
    match parse_element(&chars("2(1(I5,S5))")).unwrap() {
        DataElement::Nested(outer) => {
            assert_eq!(outer.repetitions, 2);
            assert_eq!(outer.elements.len(), 1);
            match &outer.elements[0] {
                DataElement::Nested(inner) => {
                    assert_eq!(inner.repetitions, 1);
                    assert_eq!(inner.elements.len(), 2);
                    assert!(is_field(&inner.elements[0], Kind::Integer, 1, 5));
                    assert!(is_field(&inner.elements[1], Kind::Str, 1, 5));
                }
                DataElement::Field(..) => panic!(),
            }
        }
        DataElement::Field(..) => panic!(),
    }
}

#[test]
fn parse_elements_appends_in_order() {
    let split = vec![chars("I3"), chars("2S4")];
    let mut list = Vec::new();
    parse_elements(&split, &mut list).unwrap();
    assert_eq!(list.len(), 2);
    assert!(is_field(&list[0], Kind::Integer, 1, 3));
    assert!(is_field(&list[1], Kind::Str, 2, 4));
    let bad = vec![chars("I3"), chars("Q1"), chars("I0")];
    assert_eq!(parse_elements(&bad, &mut list), Err(GrammarError::UnsupportedType('Q')));
}

#[test]
fn to_type_trims_padding() {
    let s: String = b"\x0b\t This is a test \r\n".as_slice().to_type().unwrap();
    assert_eq!(s, "This is a test");
    let i: Result<i32, DescriptorParserError> = b" 1x ".as_slice().to_type();
    assert_eq!(i, Err(DescriptorParserError::Invalidi32(" 1x ".to_string())));
}
