use bt_metainfo::decode::{decode, decode_str, DecodeError};
use bt_metainfo::value::Value;

fn bytes(text: &str) -> Value {
    Value::Bytes(text.as_bytes().to_vec())
}

fn pair(key: &str, value: Value) -> (Vec<u8>, Value) {
    (key.as_bytes().to_vec(), value)
}

#[test]
fn decodes_an_empty_byte_string() {
    assert_eq!(decode(b"0:"), Ok(Value::Bytes(vec![])));
}

#[test]
fn decodes_zero() {
    assert_eq!(decode(b"i0e"), Ok(Value::Int(0)));
}

#[test]
fn rejects_minus_zero() {
    assert_eq!(decode(b"i-0e"), Err(DecodeError::InvalidInteger));
}

#[test]
fn rejects_a_lone_minus_sign() {
    assert_eq!(decode(b"-"), Err(DecodeError::UnexpectedByte));
}

#[test]
fn rejects_empty_input() {
    assert_eq!(decode(b""), Err(DecodeError::UnexpectedEnd));
}

#[test]
fn decodes_a_byte_string() {
    assert_eq!(decode(b"5:hello"), Ok(bytes("hello")));
}

#[test]
fn decodes_raw_octets() {
    assert_eq!(decode(&[b'3', b':', 0, 255, 128]), Ok(Value::Bytes(vec![0, 255, 128])));
}

#[test]
fn decodes_a_byte_string_of_ten_bytes() {
    assert_eq!(decode(b"10:0123456789"), Ok(bytes("0123456789")));
}

#[test]
fn decodes_integers() {
    assert_eq!(decode(b"i52e"), Ok(Value::Int(52)));
    assert_eq!(decode(b"i-52e"), Ok(Value::Int(-52)));
    assert_eq!(decode(b"i7e"), Ok(Value::Int(7)));
    assert_eq!(decode(b"i1000000e"), Ok(Value::Int(1_000_000)));
}

#[test]
fn decodes_the_largest_and_the_smallest_integer() {
    assert_eq!(decode(b"i9223372036854775807e"), Ok(Value::Int(i64::MAX)));
    assert_eq!(decode(b"i-9223372036854775808e"), Ok(Value::Int(i64::MIN)));
}

#[test]
fn rejects_integers_that_do_not_fit() {
    assert_eq!(decode(b"i9223372036854775808e"), Err(DecodeError::IntegerOverflow));
    assert_eq!(decode(b"i-9223372036854775809e"), Err(DecodeError::IntegerOverflow));
    assert_eq!(
        decode(b"i100000000000000000000000000000000e"),
        Err(DecodeError::IntegerOverflow)
    );
}

#[test]
fn rejects_malformed_integers() {
    assert_eq!(decode(b"ie"), Err(DecodeError::InvalidInteger));
    assert_eq!(decode(b"i-e"), Err(DecodeError::InvalidInteger));
    assert_eq!(decode(b"i01e"), Err(DecodeError::InvalidInteger));
    assert_eq!(decode(b"i00e"), Err(DecodeError::InvalidInteger));
    assert_eq!(decode(b"i-01e"), Err(DecodeError::InvalidInteger));
    assert_eq!(decode(b"i+5e"), Err(DecodeError::InvalidInteger));
    assert_eq!(decode(b"i5xe"), Err(DecodeError::InvalidInteger));
    assert_eq!(decode(b"i--5e"), Err(DecodeError::InvalidInteger));
    assert_eq!(decode(b"i 5e"), Err(DecodeError::InvalidInteger));
}

#[test]
fn rejects_unterminated_integers() {
    assert_eq!(decode(b"i"), Err(DecodeError::InvalidInteger));
    assert_eq!(decode(b"i5"), Err(DecodeError::InvalidInteger));
    assert_eq!(decode(b"i-"), Err(DecodeError::InvalidInteger));
    assert_eq!(decode(b"i52"), Err(DecodeError::InvalidInteger));
}

#[test]
fn a_badly_written_integer_is_invalid_before_it_is_too_large() {
    assert_eq!(
        decode(b"i0123456789012345678901234567890e"),
        Err(DecodeError::InvalidInteger)
    );
    assert_eq!(decode(b"i99999999999999999999999x"), Err(DecodeError::InvalidInteger));
}

#[test]
fn rejects_malformed_lengths() {
    assert_eq!(decode(b"05:hello"), Err(DecodeError::InvalidLength));
    assert_eq!(decode(b"00:"), Err(DecodeError::InvalidLength));
    assert_eq!(decode(b"5hello"), Err(DecodeError::InvalidLength));
    assert_eq!(decode(b"5-:hello"), Err(DecodeError::InvalidLength));
}

#[test]
fn rejects_a_length_without_a_colon() {
    assert_eq!(decode(b"5"), Err(DecodeError::UnexpectedEnd));
    assert_eq!(decode(b"12"), Err(DecodeError::UnexpectedEnd));
}

#[test]
fn rejects_a_length_beyond_the_input() {
    assert_eq!(decode(b"5:hell"), Err(DecodeError::LengthExceedsInput));
    assert_eq!(decode(b"1:"), Err(DecodeError::LengthExceedsInput));
    assert_eq!(
        decode(b"99999999999999999999999999999999999999:x"),
        Err(DecodeError::LengthExceedsInput)
    );
    assert_eq!(decode(b"18446744073709551616:x"), Err(DecodeError::LengthExceedsInput));
}

#[test]
fn decodes_lists() {
    assert_eq!(decode(b"le"), Ok(Value::List(vec![])));
    assert_eq!(
        decode(b"l5:helloi52ee"),
        Ok(Value::List(vec![bytes("hello"), Value::Int(52)]))
    );
    assert_eq!(
        decode(b"lli1eei2ee"),
        Ok(Value::List(vec![Value::List(vec![Value::Int(1)]), Value::Int(2)]))
    );
}

#[test]
fn keeps_list_order() {
    assert_eq!(
        decode(b"li3ei1ei2ee"),
        Ok(Value::List(vec![Value::Int(3), Value::Int(1), Value::Int(2)]))
    );
}

#[test]
fn decodes_dictionaries() {
    assert_eq!(decode(b"de"), Ok(Value::Dict(vec![])));
    assert_eq!(
        decode(b"d3:foo3:bar5:helloi52ee"),
        Ok(Value::Dict(vec![pair("foo", bytes("bar")), pair("hello", Value::Int(52))]))
    );
}

#[test]
fn keeps_the_pairs_of_a_dictionary_as_the_input_has_them() {
    assert_eq!(
        decode(b"d5:helloi52e3:foo3:bare"),
        Ok(Value::Dict(vec![pair("hello", Value::Int(52)), pair("foo", bytes("bar"))]))
    );
    assert_eq!(
        decode(b"d1:ai1e1:ai2ee"),
        Ok(Value::Dict(vec![pair("a", Value::Int(1)), pair("a", Value::Int(2))]))
    );
}

#[test]
fn decodes_nested_terms() {
    assert_eq!(
        decode(b"d4:infod4:listl1:a1:bee3:numi-3ee"),
        Ok(Value::Dict(vec![
            pair(
                "info",
                Value::Dict(vec![pair("list", Value::List(vec![bytes("a"), bytes("b")]))])
            ),
            pair("num", Value::Int(-3)),
        ]))
    );
}

#[test]
fn rejects_keys_that_are_not_byte_strings() {
    assert_eq!(decode(b"di1e3:fooe"), Err(DecodeError::InvalidKey));
    assert_eq!(decode(b"dle3:fooe"), Err(DecodeError::InvalidKey));
    assert_eq!(decode(b"dde3:fooe"), Err(DecodeError::InvalidKey));
    assert_eq!(decode(b"dxe"), Err(DecodeError::InvalidKey));
}

#[test]
fn rejects_a_key_without_a_value() {
    assert_eq!(decode(b"d3:fooe"), Err(DecodeError::UnexpectedByte));
    assert_eq!(decode(b"d3:foo"), Err(DecodeError::UnexpectedEnd));
}

#[test]
fn rejects_bytes_that_start_no_term() {
    assert_eq!(decode(b"x"), Err(DecodeError::UnexpectedByte));
    assert_eq!(decode(b"e"), Err(DecodeError::UnexpectedByte));
    assert_eq!(decode(b":"), Err(DecodeError::UnexpectedByte));
    assert_eq!(decode(b"lxe"), Err(DecodeError::UnexpectedByte));
    assert_eq!(decode(b" i1e"), Err(DecodeError::UnexpectedByte));
}

#[test]
fn rejects_lists_and_dictionaries_that_are_not_closed() {
    assert_eq!(decode(b"l"), Err(DecodeError::UnexpectedEnd));
    assert_eq!(decode(b"li1e"), Err(DecodeError::UnexpectedEnd));
    assert_eq!(decode(b"d"), Err(DecodeError::UnexpectedEnd));
    assert_eq!(decode(b"d3:fooi1e"), Err(DecodeError::UnexpectedEnd));
    assert_eq!(decode(b"lllll"), Err(DecodeError::UnexpectedEnd));
}

#[test]
fn rejects_trailing_bytes() {
    assert_eq!(decode(b"i1ei2e"), Err(DecodeError::TrailingBytes));
    assert_eq!(decode(b"5:hello!"), Err(DecodeError::TrailingBytes));
    assert_eq!(decode(b"lee"), Err(DecodeError::TrailingBytes));
    assert_eq!(decode(b"de "), Err(DecodeError::TrailingBytes));
}

#[test]
fn reports_the_first_fault_from_the_left() {
    assert_eq!(decode(b"li01e5:hell"), Err(DecodeError::InvalidInteger));
    assert_eq!(decode(b"l20:helli01ee"), Err(DecodeError::LengthExceedsInput));
    assert_eq!(decode(b"d01:ai1ee"), Err(DecodeError::InvalidLength));
}

#[test]
fn every_prefix_of_a_term_is_a_fault() {
    let whole = b"d3:fooli1ei-22e3:bare4:infod6:lengthi9e4:name1:xee";
    assert!(decode(whole).is_ok());
    for cut in 0..whole.len() {
        assert!(decode(&whole[..cut]).is_err());
    }
}

#[test]
fn decodes_text_by_its_bytes() {
    assert_eq!(decode_str("5:hello"), Ok(bytes("hello")));
    assert_eq!(decode_str("i52e"), Ok(Value::Int(52)));
    assert_eq!(decode_str("2:\u{e9}"), Ok(Value::Bytes(vec![0xc3, 0xa9])));
    assert_eq!(decode_str("1:\u{e9}"), Err(DecodeError::TrailingBytes));
    assert_eq!(decode_str("i-0e"), Err(DecodeError::InvalidInteger));
}

#[test]
fn decodes_long_lists() {
    let mut input = vec![b'l'];
    let mut expected = Vec::new();
    for i in 0..2000 {
        input.extend_from_slice(format!("i{}e", i).as_bytes());
        expected.push(Value::Int(i));
    }
    input.push(b'e');
    assert_eq!(decode(&input), Ok(Value::List(expected)));
}
