use bencode::{decode, decode_list, Cell, Value};

fn bytes(s: &str) -> Value {
    Value::Bytes(s.as_bytes().to_vec())
}

#[test]
fn decode_test_decode_string() {
    let (value, size) = decode(b"5:hello").unwrap();
    assert_eq!(7, size);
    assert_eq!(bytes("hello"), value);
}

#[test]
fn decode_test_decode_integer() {
    let (value, size) = decode(b"i52e").unwrap();
    assert_eq!(4, size);
    assert_eq!(Value::Integer(52), value);
}

#[test]
fn decode_test_decode_list() {
    struct Case {
        encoded_value: String,
        size: usize,
        value: Value,
    }
    let cases: &[Case] = &[
        Case {
            encoded_value: String::from("l5:helloi52ee"),
            size: 13,
            value: Value::List(vec![bytes("hello"), Value::Integer(52)]),
        },
        Case {
            encoded_value: String::from("li52e5:helloe"),
            size: 13,
            value: Value::List(vec![Value::Integer(52), bytes("hello")]),
        },
        Case {
            encoded_value: String::from("li52ei53e5:helloe"),
            size: 17,
            value: Value::List(vec![Value::Integer(52), Value::Integer(53), bytes("hello")]),
        },
    ];
    for cs in cases {
        let (size, value) = decode_list(cs.encoded_value.as_str()).unwrap();
        assert_eq!(cs.size, size);
        assert_eq!(cs.value, value);
    }
}

#[test]
fn parse_test_decode_string() {
    let result = decode(b"5:hello");
    assert!(result.is_ok());
}

#[test]
fn parse_test_decode_integer() {
    let result = decode(b"i52e");
    assert!(result.is_ok());
}

#[test]
fn parse_test_decode_list() {
    let result = decode(b"l5:helloi52ee");
    assert!(result.is_ok());
}

#[test]
fn test_decode_dict() {
    let result = decode(b"d3:fool3:bare5:helloli52eee");
    assert!(result.is_ok());
    let result = decode(b"d3:foo3:bar5:helloli52eee");
    assert!(result.is_ok());
}

#[test]
fn test_cell_new() {
    let list = vec!["5:hello", "i52e", "l5:helloi52ee", "d3:foo3:bar5:helloli52eee"];
    for encoded_value in list {
        let cell = Cell::new(encoded_value);
        assert!(cell.is_some());
    }
}

#[test]
fn test_cell_new_invalid() {
    struct Case {
        encoded: String,
        valid: bool,
    }
    let list = vec![
        Case { encoded: String::from("5:helloi"), valid: false },
        Case { encoded: String::from("i52ee"), valid: false },
    ];
    for cs in list {
        assert_eq!(cs.valid, Cell::new(cs.encoded.as_str()).is_some());
    }
}

#[test]
fn test_cell_get_values() {
    let list = vec!["5:hello", "i52e", "l5:helloi52ee", "d3:foo3:bar5:helloli52eee"];
    for encoded_value in list {
        let cell = Cell::new(encoded_value).unwrap();
        let value = cell.get_values();
        assert_eq!(decode(encoded_value.as_bytes()).unwrap().0, value);
    }
}
