use bt_metainfo::decode::decode;
use bt_metainfo::encode::encode;
use bt_metainfo::order::{compare_keys, sorted_order, KeyOrder};
use bt_metainfo::text::{push_decimal, push_int};
use bt_metainfo::value::{find, same_bytes, Value};

fn text(s: &str) -> Value {
    Value::Bytes(s.as_bytes().to_vec())
}

fn entry(key: &str, value: Value) -> (Vec<u8>, Value) {
    (key.as_bytes().to_vec(), value)
}

#[test]
fn encodes_integers() {
    assert_eq!(encode(&Value::Int(0)), b"i0e".to_vec());
    assert_eq!(encode(&Value::Int(52)), b"i52e".to_vec());
    assert_eq!(encode(&Value::Int(-52)), b"i-52e".to_vec());
    assert_eq!(encode(&Value::Int(10)), b"i10e".to_vec());
    assert_eq!(encode(&Value::Int(i64::MAX)), b"i9223372036854775807e".to_vec());
    assert_eq!(encode(&Value::Int(i64::MIN)), b"i-9223372036854775808e".to_vec());
}

#[test]
fn encodes_byte_strings() {
    assert_eq!(encode(&Value::Bytes(vec![])), b"0:".to_vec());
    assert_eq!(encode(&text("hello")), b"5:hello".to_vec());
    assert_eq!(encode(&text("0123456789ab")), b"12:0123456789ab".to_vec());
    assert_eq!(encode(&Value::Bytes(vec![0, 255])), vec![b'2', b':', 0, 255]);
}

#[test]
fn encodes_lists_in_their_order() {
    assert_eq!(encode(&Value::List(vec![])), b"le".to_vec());
    assert_eq!(
        encode(&Value::List(vec![text("hello"), Value::Int(52)])),
        b"l5:helloi52ee".to_vec()
    );
    assert_eq!(
        encode(&Value::List(vec![Value::Int(3), Value::Int(1), Value::Int(2)])),
        b"li3ei1ei2ee".to_vec()
    );
}

#[test]
fn encodes_dictionaries_with_ascending_keys() {
    assert_eq!(encode(&Value::Dict(vec![])), b"de".to_vec());
    let stored = Value::Dict(vec![entry("hello", Value::Int(52)), entry("foo", text("bar"))]);
    assert_eq!(encode(&stored), b"d3:foo3:bar5:helloi52ee".to_vec());
}

#[test]
fn orders_keys_by_their_bytes() {
    let stored = Value::Dict(vec![
        entry("b", Value::Int(1)),
        entry("ab", Value::Int(2)),
        entry("a", Value::Int(3)),
        entry("B", Value::Int(4)),
        entry("", Value::Int(5)),
        (vec![0xff], Value::Int(6)),
        entry("aa", Value::Int(7)),
    ]);
    let mut expected = b"d0:i5e1:Bi4e1:ai3e2:aai7e2:abi2e1:bi1e1:".to_vec();
    expected.push(0xff);
    expected.extend_from_slice(b"i6ee");
    assert_eq!(encode(&stored), expected);
}

#[test]
fn the_last_pair_with_a_key_counts() {
    let stored = Value::Dict(vec![
        entry("a", Value::Int(1)),
        entry("b", Value::Int(2)),
        entry("a", Value::Int(3)),
    ]);
    assert_eq!(encode(&stored), b"d1:ai3e1:bi2ee".to_vec());
}

#[test]
fn orders_the_keys_of_inner_dictionaries() {
    let stored = Value::List(vec![Value::Dict(vec![
        entry("z", Value::Dict(vec![entry("y", Value::Int(1)), entry("x", Value::Int(2))])),
        entry("a", Value::List(vec![])),
    ])]);
    assert_eq!(encode(&stored), b"ld1:ale1:zd1:xi2e1:yi1eeee".to_vec());
}

#[test]
fn the_same_pairs_in_another_order_encode_alike() {
    let first = decode(b"d3:foo3:bar5:helloi52ee").unwrap();
    let second = decode(b"d5:helloi52e3:foo3:bare").unwrap();
    assert_ne!(first, second);
    assert!(first.is_equivalent(&second));
    assert_eq!(encode(&first), encode(&second));
    assert_eq!(encode(&first), b"d3:foo3:bar5:helloi52ee".to_vec());
}

#[test]
fn terms_that_differ_are_not_equivalent() {
    let first = decode(b"d3:foo3:bar5:helloi52ee").unwrap();
    let second = decode(b"d3:foo3:bar5:helloi53ee").unwrap();
    let third = decode(b"d3:foo3:bare").unwrap();
    assert!(!first.is_equivalent(&second));
    assert!(!first.is_equivalent(&third));
    assert!(!Value::List(vec![Value::Int(1), Value::Int(2)])
        .is_equivalent(&Value::List(vec![Value::Int(2), Value::Int(1)])));
    assert!(!Value::Int(1).is_equivalent(&text("1")));
}

#[test]
fn a_canonical_input_comes_back_as_it_was() {
    let inputs: [&[u8]; 8] = [
        b"0:",
        b"i0e",
        b"i-17e",
        b"le",
        b"de",
        b"l5:helloi52ee",
        b"d3:foo3:bar5:helloi52ee",
        b"d1:ad1:bl1:ci-1eee1:dli0eee",
    ];
    for input in inputs {
        let value = decode(input).unwrap();
        assert_eq!(encode(&value), input.to_vec());
        assert_eq!(decode(&encode(&value)), Ok(value));
    }
}

#[test]
fn decoding_an_encoding_gives_an_equivalent_term() {
    let inputs: [&[u8]; 4] = [
        b"d5:helloi52e3:foo3:bare",
        b"d1:bi1e1:ai2e1:bi3ee",
        b"ld1:zi1e1:yi2eed1:b0:1:a0:ee",
        b"d1:xd1:bi1e1:ai2eee",
    ];
    for input in inputs {
        let value = decode(input).unwrap();
        let again = decode(&encode(&value)).unwrap();
        assert!(again.is_equivalent(&value));
        assert_eq!(encode(&again), encode(&value));
    }
}

#[test]
fn a_round_trip_keeps_leaves_and_list_order() {
    let value = Value::List(vec![
        Value::Int(3),
        Value::Bytes(vec![0, 1, 2, 255]),
        Value::Int(-3),
        Value::List(vec![text("b"), text("a")]),
    ]);
    assert_eq!(decode(&encode(&value)), Ok(value));
}

#[test]
fn compares_keys_byte_by_byte() {
    assert_eq!(compare_keys(b"a", b"b"), KeyOrder::Before);
    assert_eq!(compare_keys(b"b", b"a"), KeyOrder::After);
    assert_eq!(compare_keys(b"abc", b"abc"), KeyOrder::Same);
    assert_eq!(compare_keys(b"", b""), KeyOrder::Same);
    assert_eq!(compare_keys(b"", b"a"), KeyOrder::Before);
    assert_eq!(compare_keys(b"ab", b"abc"), KeyOrder::Before);
    assert_eq!(compare_keys(b"abc", b"ab"), KeyOrder::After);
    assert_eq!(compare_keys(b"Z", b"a"), KeyOrder::Before);
    assert_eq!(compare_keys(&[0x7f], &[0x80]), KeyOrder::Before);
    assert_eq!(compare_keys(b"b", b"ab"), KeyOrder::After);
}

#[test]
fn finds_the_canonical_order_of_pairs() {
    let pairs = vec![
        entry("c", Value::Int(0)),
        entry("a", Value::Int(1)),
        entry("b", Value::Int(2)),
        entry("a", Value::Int(3)),
    ];
    assert_eq!(sorted_order(&pairs), vec![3, 2, 0]);
    assert_eq!(sorted_order(&Vec::new()), Vec::<usize>::new());
}

#[test]
fn looks_up_the_last_pair_with_a_key() {
    let pairs = vec![
        entry("a", Value::Int(1)),
        entry("b", Value::Int(2)),
        entry("a", Value::Int(3)),
    ];
    assert_eq!(find(&pairs, b"a"), Some(&Value::Int(3)));
    assert_eq!(find(&pairs, b"b"), Some(&Value::Int(2)));
    assert_eq!(find(&pairs, b"c"), None);
    let dict = Value::Dict(pairs);
    assert_eq!(dict.get(b"a"), Some(&Value::Int(3)));
    assert_eq!(dict.get(b""), None);
    assert_eq!(Value::Int(1).get(b"a"), None);
    assert_eq!(Value::List(vec![text("a")]).get(b"a"), None);
}

#[test]
fn tells_equal_bytes() {
    assert!(same_bytes(b"", b""));
    assert!(same_bytes(b"abc", b"abc"));
    assert!(!same_bytes(b"abc", b"abd"));
    assert!(!same_bytes(b"abc", b"ab"));
}

#[test]
fn writes_decimal_numerals() {
    let mut out = b"x".to_vec();
    push_decimal(&mut out, 0);
    push_decimal(&mut out, 7);
    push_decimal(&mut out, 10);
    push_decimal(&mut out, 92063);
    push_decimal(&mut out, u64::MAX);
    assert_eq!(out, b"x07109206318446744073709551615".to_vec());
    let mut out = Vec::new();
    push_int(&mut out, -1);
    push_int(&mut out, 0);
    push_int(&mut out, i64::MIN);
    assert_eq!(out, b"-10-9223372036854775808".to_vec());
}

#[test]
fn orders_keys_as_byte_slices_are_ordered() {
    let keys: [&[u8]; 12] = [
        b"",
        b"a",
        b"A",
        b"aa",
        b"ab",
        b"b",
        b"announce",
        b"info",
        b"piece length",
        b"pieces",
        &[0x00],
        &[0xff, 0x00],
    ];
    for a in keys {
        for b in keys {
            let expected = if a == b {
                KeyOrder::Same
            } else if a < b {
                KeyOrder::Before
            } else {
                KeyOrder::After
            };
            assert_eq!(compare_keys(a, b), expected);
        }
    }
}
