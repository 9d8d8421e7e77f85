use fortran_descriptor_parser::{compile, decode, DescriptorParserError, Value};

fn read(descriptor: &str, input: &[u8]) -> Result<Vec<Value<f32, f64>>, DescriptorParserError> {
    let plan = compile(descriptor).unwrap();
    decode::<f32, f64>(&plan, input)
}

#[test]
fn simple_integer() {
    let input = "         1".as_bytes();
    let x = read("I10", input).unwrap();
    assert_eq!(x, vec![Value::Integer(1)]);
}

#[test]
fn simple_float() {
    let input = "  0.3141590E+01".as_bytes();
    let x = read("F15", input).unwrap();
    assert_eq!(x, vec![Value::Float(3.14159)]);
}

#[test]
fn simple_double() {
    let input = "  0.3141590D+01".as_bytes();
    let x = read("D15", input).unwrap();
    assert_eq!(x, vec![Value::Double(3.14159)]);
}

#[test]
fn simple_string() {
    let input = "This is a test".as_bytes();
    let x = read("S14", input).unwrap();
    assert_eq!(x, vec![Value::Str("This is a test".to_string())]);
}

#[test]
fn simple_repetitions() {
    let input = "         1         2".as_bytes();
    let x = read("2I10", input).unwrap();
    assert_eq!(x.len(), 2);
    assert_eq!(x[0], Value::Integer(1));
    assert_eq!(x[1], Value::Integer(2));
}

#[test]
fn different_types() {
    let input = "         1      Test -0.31415E+01".as_bytes();
    let x = read("I10,S10,F13", input).unwrap();
    assert_eq!(x.len(), 3);
    assert_eq!(x[0], Value::Integer(1));
    assert_eq!(x[1], Value::Str("Test".to_string()));
    assert_eq!(x[2], Value::Float(-3.1415));
}

#[test]
fn simple_nested() {
    let input = "    1 Test    2 test".as_bytes();
    let x = read("2(I5,S5)", input).unwrap();
    assert_eq!(x.len(), 4);
    assert_eq!(x[0], Value::Integer(1));
    assert_eq!(x[1], Value::Str("Test".to_string()));
    assert_eq!(x[2], Value::Integer(2));
    assert_eq!(x[3], Value::Str("test".to_string()));
}

#[test]
fn multi_nested() {
    let input = "    1 Test    2 test".as_bytes();
    let x = read("2(1(I5,S5))", input).unwrap();
    assert_eq!(x.len(), 4);
    assert_eq!(x[0], Value::Integer(1));
    assert_eq!(x[1], Value::Str("Test".to_string()));
    assert_eq!(x[2], Value::Integer(2));
    assert_eq!(x[3], Value::Str("test".to_string()));
}

#[test]
fn missing_bytes() {
    let input = "   1".as_bytes();
    let x = read("I5", input);
    match x {
        Ok(_) => panic!(),
        Err(e) => {
            assert_eq!(e.to_string(), "Found 4 bytes, expected at least 5")
        }
    }
}

#[test]
fn invalid_conversion_i32() {
    let input = "    A".as_bytes();
    let x = read("I5", input);
    match x {
        Ok(_) => panic!(),
        Err(e) => {
            assert_eq!(e.to_string(), "Can't convert '    A' into i32")
        }
    }
}

#[test]
fn invalid_conversion_f32() {
    let input = "    A".as_bytes();
    let x = read("F5", input);
    match x {
        Ok(_) => panic!(),
        Err(e) => {
            assert_eq!(e.to_string(), "Can't convert '    A' into f32")
        }
    }
}

#[test]
fn invalid_conversion_f64() {
    let input = "    A".as_bytes();
    let x = read("D5", input);
    match x {
        Ok(_) => panic!(),
        Err(e) => {
            assert_eq!(e.to_string(), "Can't convert '    A' into f64")
        }
    }
}
