use bencode::{decode, encode, validate, Cell, DecodeError, ErrorKind, MatchStack, Value, MAX_DEPTH};

fn bytes(s: &str) -> Value {
    Value::Bytes(s.as_bytes().to_vec())
}

fn fails(input: &[u8], kind: ErrorKind, offset: usize) {
    assert_eq!(decode(input), Err(DecodeError { kind, offset }));
}

fn sample_tree() -> Value {
    Value::Dict(vec![
        (b"a".to_vec(), Value::List(vec![Value::Integer(-7), bytes(""), Value::List(vec![])])),
        (b"ab".to_vec(), Value::Integer(0)),
        (b"b".to_vec(), Value::Dict(vec![(b"x".to_vec(), bytes("e:e"))])),
        (b"key".to_vec(), Value::Integer(i64::MIN)),
        (b"max".to_vec(), Value::Integer(i64::MAX)),
    ])
}

#[test]
fn round_trip_of_a_nested_tree() {
    let v = sample_tree();
    let enc = encode(&v);
    let (back, n) = decode(&enc).unwrap();
    assert_eq!(back, v);
    assert_eq!(n, enc.len());
}

#[test]
fn encode_is_idempotent_through_decode() {
    let enc = encode(&sample_tree());
    let (back, _) = decode(&enc).unwrap();
    assert_eq!(encode(&back), enc);
}

#[test]
fn encode_exact_bytes() {
    assert_eq!(encode(&bytes("spam")), b"4:spam".to_vec());
    assert_eq!(encode(&bytes("")), b"0:".to_vec());
    assert_eq!(encode(&Value::Integer(0)), b"i0e".to_vec());
    assert_eq!(encode(&Value::Integer(-42)), b"i-42e".to_vec());
    assert_eq!(encode(&Value::Integer(i64::MIN)), b"i-9223372036854775808e".to_vec());
    assert_eq!(encode(&Value::List(vec![])), b"le".to_vec());
    assert_eq!(
        encode(&Value::Dict(vec![
            (b"bar".to_vec(), bytes("spam")),
            (b"foo".to_vec(), Value::Integer(42)),
        ])),
        b"d3:bar4:spam3:fooi42ee".to_vec()
    );
}

#[test]
fn decodes_string() {
    assert_eq!(decode(b"5:hello"), Ok((bytes("hello"), 7)));
}

#[test]
fn decodes_integer() {
    assert_eq!(decode(b"i52e"), Ok((Value::Integer(52), 4)));
}

#[test]
fn decodes_negative_and_rejects_bad_integers() {
    assert_eq!(decode(b"i-1e"), Ok((Value::Integer(-1), 4)));
    fails(b"i-0e", ErrorKind::InvalidInteger, 2);
    fails(b"i03e", ErrorKind::InvalidInteger, 1);
    fails(b"ie", ErrorKind::InvalidInteger, 1);
    fails(b"i-e", ErrorKind::InvalidInteger, 2);
}

#[test]
fn decodes_list() {
    assert_eq!(
        decode(b"l5:helloi52ee"),
        Ok((Value::List(vec![bytes("hello"), Value::Integer(52)]), 13))
    );
}

#[test]
fn decodes_dict() {
    assert_eq!(
        decode(b"d3:bar4:spam3:fooi42ee"),
        Ok((
            Value::Dict(vec![
                (b"bar".to_vec(), bytes("spam")),
                (b"foo".to_vec(), Value::Integer(42)),
            ]),
            22
        ))
    );
}

#[test]
fn rejects_unsorted_keys() {
    fails(b"d3:foo3:bar3:bazi1ee", ErrorKind::UnsortedKeys, 19);
}

#[test]
fn rejects_duplicate_keys() {
    fails(b"d1:ai1e1:ai2ee", ErrorKind::DuplicateKey, 13);
}

#[test]
fn string_longer_than_buffer() {
    fails(b"10:hi", ErrorKind::UnexpectedEnd, 3);
}

#[test]
fn string_body_holding_e() {
    assert_eq!(decode(b"3:e-e"), Ok((bytes("e-e"), 5)));
}

#[test]
fn nesting_limit() {
    let deep = MAX_DEPTH + 1;
    let mut input = vec![b'l'; deep];
    input.extend(vec![b'e'; deep]);
    fails(&input, ErrorKind::NestingTooDeep, MAX_DEPTH);
    let mut ok = vec![b'l'; MAX_DEPTH];
    ok.extend(vec![b'e'; MAX_DEPTH]);
    assert_eq!(decode(&ok).unwrap().1, 2 * MAX_DEPTH);
}

#[test]
fn each_error_kind() {
    fails(b"", ErrorKind::UnexpectedEnd, 0);
    fails(b"l", ErrorKind::UnexpectedEnd, 1);
    fails(b"i12", ErrorKind::UnexpectedEnd, 3);
    fails(b"5hello", ErrorKind::MissingDelimiter, 1);
    fails(b"i12x", ErrorKind::MissingDelimiter, 3);
    fails(b"03:abc", ErrorKind::InvalidLength, 0);
    fails(b"x", ErrorKind::InvalidTag, 0);
    fails(b"i9223372036854775808e", ErrorKind::IntegerOverflow, 1);
    fails(b"i-9223372036854775809e", ErrorKind::IntegerOverflow, 2);
    fails(b"di1ei2ee", ErrorKind::InvalidDictKey, 1);
    assert_eq!(decode(b"i-9223372036854775808e"), Ok((Value::Integer(i64::MIN), 22)));
}

#[test]
fn validate_whole_documents() {
    assert_eq!(validate(b"d3:foo3:bare"), Ok(()));
    assert_eq!(
        validate(b"i1ei2e"),
        Err(DecodeError { kind: ErrorKind::TrailingData, offset: 3 })
    );
    assert_eq!(
        validate(b"e"),
        Err(DecodeError { kind: ErrorKind::UnbalancedContainer, offset: 0 })
    );
    assert_eq!(
        validate(b"10:hi"),
        Err(DecodeError { kind: ErrorKind::UnexpectedEnd, offset: 3 })
    );
}

#[test]
fn concatenated_documents() {
    let buf = b"i1e3:abc";
    let (first, n) = decode(buf).unwrap();
    assert_eq!(first, Value::Integer(1));
    let (second, m) = decode(&buf[n..]).unwrap();
    assert_eq!(second, bytes("abc"));
    assert_eq!(n + m, buf.len());
}

#[test]
fn accessors() {
    let (v, _) = decode(b"d1:ali1eee").unwrap();
    assert!(v.as_bytes().is_none());
    assert!(v.as_integer().is_none());
    let d = v.as_dict().unwrap();
    assert_eq!(d[0].0, b"a".to_vec());
    let l = d[0].1.as_list().unwrap();
    assert_eq!(l[0].as_integer(), Some(1));
    assert_eq!(bytes("x").as_bytes(), Some(&b"x".to_vec()));
    assert_eq!(v.deep_copy(), v);
}

#[test]
fn cell_kinds() {
    assert!(Cell::new("i5e").unwrap().is_digit());
    assert!(Cell::new("1:a").unwrap().is_str());
    assert!(Cell::new("le").unwrap().is_list());
    assert!(Cell::new("de").unwrap().is_dict());
    assert_eq!(Cell::new("le").unwrap().raw(), b"le".to_vec());
}

#[test]
fn match_stack_lengths() {
    assert_eq!(MatchStack::new("l5:helloi52ee").match_len(), 13);
    assert_eq!(MatchStack::new("lli1eei2ee").match_len(), 10);
    assert_eq!(MatchStack::new("d3:foo3:bar5:helloli52eee").match_len(), 25);
    assert_eq!(MatchStack::new("l1:ee").match_len(), 5);
    assert_eq!(MatchStack::new("li1eei2e").match_len(), 5);
    assert_eq!(MatchStack::new("li52ei53ee").match_len(), 10);
    assert_eq!(MatchStack::new("d3:fooe").match_len(), 7);
    assert_eq!(MatchStack::new("abc").match_len(), 3);
}

#[test]
fn agrees_with_serde_bencode() {
    for input in [
        &b"d3:bar4:spam3:fooi42ee"[..],
        &b"l5:helloi52ee"[..],
        &b"d3:fool3:bare5:helloli52eee"[..],
        &b"i-9223372036854775808e"[..],
    ] {
        let (v, n) = decode(input).unwrap();
        assert_eq!(n, input.len());
        let other: serde_bencode::value::Value = serde_bencode::from_bytes(input).unwrap();
        assert_eq!(serde_bencode::to_bytes(&other).unwrap(), encode(&v));
    }
}

#[test]
fn dict_constructor_enforces_key_order() {
    let ok = Value::dict(vec![(b"a".to_vec(), Value::Integer(1)), (b"b".to_vec(), Value::Integer(2))]);
    assert_eq!(encode(&ok.unwrap()), b"d1:ai1e1:bi2ee".to_vec());
    let unsorted = Value::dict(vec![(b"b".to_vec(), Value::Integer(1)), (b"a".to_vec(), Value::Integer(2))]);
    assert_eq!(unsorted, Err(ErrorKind::UnsortedKeys));
    let duplicate = Value::dict(vec![(b"a".to_vec(), Value::Integer(1)), (b"a".to_vec(), Value::Integer(2))]);
    assert_eq!(duplicate, Err(ErrorKind::DuplicateKey));
}

#[test]
fn validate_agrees_with_decode() {
    let inputs: [&[u8]; 12] = [
        b"d1:ai1e1:ai2ee",
        b"d3:foo3:bar3:bazi1ee",
        b"d3:fool3:bare5:helloli52eee",
        b"l5:helloi52ee",
        b"3:e-e",
        b"i-0e",
        b"di1ei2ee",
        b"d1:ae",
        b"10:hi",
        b"le",
        b"i12x",
        b"03:abc",
    ];
    for input in inputs {
        let expected = match decode(input) {
            Ok((_, n)) if n == input.len() => Ok(()),
            Ok((_, n)) => Err(DecodeError { kind: ErrorKind::TrailingData, offset: n }),
            Err(e) if e.kind == ErrorKind::InvalidTag && input[e.offset] == b'e' => {
                Err(DecodeError { kind: ErrorKind::UnbalancedContainer, offset: e.offset })
            }
            Err(e) => Err(e),
        };
        assert_eq!(validate(input), expected);
    }
    assert_eq!(
        validate(b"d1:ai1e1:ai2ee"),
        Err(DecodeError { kind: ErrorKind::DuplicateKey, offset: 13 })
    );
    assert_eq!(
        validate(b"d1:ae"),
        Err(DecodeError { kind: ErrorKind::UnbalancedContainer, offset: 4 })
    );
}

#[test]
fn validate_reports_open_containers() {
    let open = |offset| Err(DecodeError { kind: ErrorKind::UnbalancedContainer, offset });
    assert_eq!(validate(b"l5:hello"), open(8));
    assert_eq!(validate(b"l"), open(1));
    assert_eq!(validate(b"d1:a"), open(4));
    assert_eq!(validate(b"lli1ee"), open(6));
    assert_eq!(decode(b"l5:hello"), Err(DecodeError { kind: ErrorKind::UnexpectedEnd, offset: 8 }));
    let end = |offset| Err(DecodeError { kind: ErrorKind::UnexpectedEnd, offset });
    assert_eq!(validate(b"l5:hel"), end(3));
    assert_eq!(validate(b"li12"), end(4));
    assert_eq!(validate(b""), end(0));
    assert!(Cell::new("l5:hello").is_none());
}
