//! The decoder: the grammar of bencode as a function on bytes, and the
//! recursive-descent parser that computes it.

use vstd::prelude::*;
use vstd::slice::{slice_subrange, slice_to_vec};
use vstd::string::StringSliceAdditionalSpecFns;
use crate::encode::serialize;
use crate::laws::law_decode_inverts_serialize;
use crate::text::{
    digits_value, is_digit, COLON, DICT_START, END, INT_START, LIST_START, MINUS, NINE, ZERO,
};
use crate::value::{items_view, pairs_view, Pair, Term, Value};

verus! {

/// Why a sequence of bytes is not the bencoding of one term.
#[derive(Debug, Clone, Copy, PartialEq, Eq, Structural)]
pub enum DecodeError {
    /// The input ends where a term, a key, the colon of a byte string or
    /// the `e` that closes a list or a dictionary is expected.
    UnexpectedEnd,
    /// An integer is not written as `i`, an optional minus sign, digits
    /// without a leading zero, `e`; or it is written as `-0`.
    InvalidInteger,
    /// An integer is well written and does not fit in 64 bits.
    IntegerOverflow,
    /// The length of a byte string has a leading zero, or a byte that is
    /// neither a digit nor the colon follows its digits.
    InvalidLength,
    /// A byte string is announced as longer than the rest of the input.
    LengthExceedsInput,
    /// A dictionary holds something else than a byte string where a key is
    /// expected.
    InvalidKey,
    /// A byte that starts no term stands where a term is expected.
    UnexpectedByte,
    /// Bytes follow the term.
    TrailingBytes,
}

/// The first position from `pos` on that holds no ASCII digit.
pub open spec fn digits_end(s: Seq<u8>, pos: int) -> int
    decreases s.len() - pos,
{
    if 0 <= pos < s.len() && is_digit(s[pos]) {
        digits_end(s, pos + 1)
    } else {
        pos
    }
}

/// The integer whose text starts at `pos`, just behind the `i`, and the
/// position behind its `e`.
pub open spec fn parse_int(s: Seq<u8>, pos: int) -> Result<(i64, int), DecodeError> {
    let negative = 0 <= pos < s.len() && s[pos] == MINUS;
    let start = if negative {
        pos + 1
    } else {
        pos
    };
    let end = digits_end(s, start);
    if end == start || end >= s.len() || s[end] != END {
        Err(DecodeError::InvalidInteger)
    } else if s[start] == ZERO && (end - start > 1 || negative) {
        Err(DecodeError::InvalidInteger)
    } else {
        let magnitude = digits_value(s.subrange(start, end));
        let value = if negative {
            -magnitude
        } else {
            magnitude as int
        };
        if value < i64::MIN || value > i64::MAX {
            Err(DecodeError::IntegerOverflow)
        } else {
            Ok((value as i64, end + 1))
        }
    }
}

/// The byte string whose length starts at `pos`, and the position behind
/// its last byte.
pub open spec fn parse_string(s: Seq<u8>, pos: int) -> Result<(Seq<u8>, int), DecodeError> {
    let end = digits_end(s, pos);
    if end == pos || (s[pos] == ZERO && end - pos > 1) {
        Err(DecodeError::InvalidLength)
    } else if end >= s.len() {
        Err(DecodeError::UnexpectedEnd)
    } else if s[end] != COLON {
        Err(DecodeError::InvalidLength)
    } else {
        let n = digits_value(s.subrange(pos, end));
        if n > s.len() - (end + 1) {
            Err(DecodeError::LengthExceedsInput)
        } else {
            Ok((s.subrange(end + 1, end + 1 + n), end + 1 + n))
        }
    }
}

/// The term whose bencoding starts at `pos`, and the position behind it;
/// or the first fault that a reader meets who goes through the input from
/// left to right.
pub open spec fn parse_term(s: Seq<u8>, pos: int) -> Result<(Term, int), DecodeError>
    decreases s.len() - pos, 0nat,
{
    if pos < 0 || pos >= s.len() {
        Err(DecodeError::UnexpectedEnd)
    } else if s[pos] == INT_START {
        match parse_int(s, pos + 1) {
            Ok((i, end)) => Ok((Term::Int(i), end)),
            Err(e) => Err(e),
        }
    } else if is_digit(s[pos]) {
        match parse_string(s, pos) {
            Ok((b, end)) => Ok((Term::Bytes(b), end)),
            Err(e) => Err(e),
        }
    } else if s[pos] == LIST_START {
        match parse_items(s, pos + 1) {
            Ok((items, end)) => Ok((Term::List(items), end)),
            Err(e) => Err(e),
        }
    } else if s[pos] == DICT_START {
        match parse_pairs(s, pos + 1) {
            Ok((pairs, end)) => Ok((Term::Dict(pairs), end)),
            Err(e) => Err(e),
        }
    } else {
        Err(DecodeError::UnexpectedByte)
    }
}

/// The items of a list from `pos` up to the `e` that closes the list, and
/// the position behind that `e`.
///
/// A term is never empty and never goes beyond the input
/// (`lemma_parse_advances`), so the branch for a term that ends elsewhere is
/// never taken; it is there to show that the definition terminates.
pub open spec fn parse_items(s: Seq<u8>, pos: int) -> Result<(Seq<Term>, int), DecodeError>
    decreases s.len() - pos, 1nat,
{
    if pos < 0 || pos >= s.len() {
        Err(DecodeError::UnexpectedEnd)
    } else if s[pos] == END {
        Ok((Seq::empty(), pos + 1))
    } else {
        match parse_term(s, pos) {
            Err(e) => Err(e),
            Ok((first, next)) => if pos < next <= s.len() {
                prepend_item(first, parse_items(s, next))
            } else {
                Err(DecodeError::UnexpectedEnd)
            },
        }
    }
}

/// The pairs of a dictionary from `pos` up to the `e` that closes the
/// dictionary, in the order of the input, and the position behind that `e`.
pub open spec fn parse_pairs(s: Seq<u8>, pos: int) -> Result<(Seq<Pair>, int), DecodeError>
    decreases s.len() - pos, 1nat,
{
    if pos < 0 || pos >= s.len() {
        Err(DecodeError::UnexpectedEnd)
    } else if s[pos] == END {
        Ok((Seq::empty(), pos + 1))
    } else if !is_digit(s[pos]) {
        Err(DecodeError::InvalidKey)
    } else {
        match parse_string(s, pos) {
            Err(e) => Err(e),
            Ok((key, mid)) => if pos < mid {
                match parse_term(s, mid) {
                    Err(e) => Err(e),
                    Ok((value, next)) => if mid < next <= s.len() {
                        prepend_pair((key, value), parse_pairs(s, next))
                    } else {
                        Err(DecodeError::UnexpectedEnd)
                    },
                }
            } else {
                Err(DecodeError::UnexpectedEnd)
            },
        }
    }
}

/// `rest` with `first` put before the items that it found.
pub open spec fn prepend_item(first: Term, rest: Result<(Seq<Term>, int), DecodeError>) -> Result<
    (Seq<Term>, int),
    DecodeError,
> {
    match rest {
        Ok((items, end)) => Ok((seq![first] + items, end)),
        Err(e) => Err(e),
    }
}

/// `rest` with `first` put before the pairs that it found.
pub open spec fn prepend_pair(first: Pair, rest: Result<(Seq<Pair>, int), DecodeError>) -> Result<
    (Seq<Pair>, int),
    DecodeError,
> {
    match rest {
        Ok((pairs, end)) => Ok((seq![first] + pairs, end)),
        Err(e) => Err(e),
    }
}

/// The term of which `s` is the bencoding, whole and with nothing behind
/// it; or the first fault in `s`.
pub open spec fn decode_spec(s: Seq<u8>) -> Result<Term, DecodeError> {
    match parse_term(s, 0) {
        Err(e) => Err(e),
        Ok((t, end)) => if end == s.len() {
            Ok(t)
        } else {
            Err(DecodeError::TrailingBytes)
        },
    }
}

/// From `pos` up to `digits_end` there are digits only, and no digit stands
/// at `digits_end`.
pub proof fn lemma_digits_end(s: Seq<u8>, pos: int)
    requires
        0 <= pos <= s.len(),
    ensures
        pos <= digits_end(s, pos) <= s.len(),
        forall|i: int| pos <= i < digits_end(s, pos) ==> is_digit(#[trigger] s[i]),
        digits_end(s, pos) < s.len() ==> !is_digit(s[digits_end(s, pos)]),
    decreases s.len() - pos,
{
    if pos < s.len() && is_digit(s[pos]) {
        lemma_digits_end(s, pos + 1);
    }
}

/// One more digit at the end multiplies the value by ten and adds the digit.
pub proof fn lemma_digits_value_step(s: Seq<u8>, from: int, to: int)
    requires
        0 <= from <= to < s.len(),
        is_digit(s[to]),
    ensures
        digits_value(s.subrange(from, to + 1)) == digits_value(s.subrange(from, to)) * 10 + (s[to]
            - ZERO),
{
    let longer = s.subrange(from, to + 1);
    assert(longer.drop_last() =~= s.subrange(from, to));
    assert(longer.last() == s[to]);
}

/// More digits at the end do not make the value smaller.
pub proof fn lemma_digits_value_grows(s: Seq<u8>, from: int, mid: int, to: int)
    requires
        0 <= from <= mid <= to <= s.len(),
        forall|i: int| from <= i < to ==> is_digit(#[trigger] s[i]),
    ensures
        digits_value(s.subrange(from, mid)) <= digits_value(s.subrange(from, to)),
    decreases to - mid,
{
    if mid < to {
        lemma_digits_value_grows(s, from, mid, to - 1);
        lemma_digits_value_step(s, from, to - 1);
    }
}

/// A term that parses is not empty and ends within the input.
pub proof fn lemma_parse_advances(s: Seq<u8>, pos: int)
    ensures
        parse_term(s, pos) is Ok ==> pos < parse_term(s, pos)->Ok_0.1 <= s.len(),
        parse_items(s, pos) is Ok ==> pos < parse_items(s, pos)->Ok_0.1 <= s.len(),
        parse_pairs(s, pos) is Ok ==> pos < parse_pairs(s, pos)->Ok_0.1 <= s.len(),
    decreases s.len() - pos,
{
    if 0 <= pos < s.len() {
        lemma_digits_end(s, pos);
        lemma_digits_end(s, pos + 1);
        if pos + 2 <= s.len() {
            lemma_digits_end(s, pos + 2);
        }
        lemma_parse_advances(s, pos + 1);
        if parse_term(s, pos) is Ok {
            let next = parse_term(s, pos)->Ok_0.1;
            if pos < next <= s.len() {
                lemma_parse_advances(s, next);
            }
        }
        if parse_string(s, pos) is Ok {
            let mid = parse_string(s, pos)->Ok_0.1;
            if pos < mid {
                lemma_parse_advances(s, mid);
                if parse_term(s, mid) is Ok {
                    let next = parse_term(s, mid)->Ok_0.1;
                    if mid < next <= s.len() {
                        lemma_parse_advances(s, next);
                    }
                }
            }
        }
    }
}

/// What `parse_int` found, with the position as a machine integer.
pub open spec fn int_found(r: Result<(i64, usize), DecodeError>) -> Result<
    (i64, int),
    DecodeError,
> {
    match r {
        Ok((i, end)) => Ok((i, end as int)),
        Err(e) => Err(e),
    }
}

/// What `parse_string` found, as a model.
pub open spec fn string_found(r: Result<(Vec<u8>, usize), DecodeError>) -> Result<
    (Seq<u8>, int),
    DecodeError,
> {
    match r {
        Ok((b, end)) => Ok((b@, end as int)),
        Err(e) => Err(e),
    }
}

/// What `parse_term` found, as a model.
pub open spec fn term_found(r: Result<(Value, usize), DecodeError>) -> Result<
    (Term, int),
    DecodeError,
> {
    match r {
        Ok((v, end)) => Ok((v@, end as int)),
        Err(e) => Err(e),
    }
}

/// What `decode` found, as a model.
pub open spec fn decoded(r: Result<Value, DecodeError>) -> Result<Term, DecodeError> {
    match r {
        Ok(v) => Ok(v@),
        Err(e) => Err(e),
    }
}

/// `rest` with `front` put before the items that it found.
pub open spec fn items_found(
    front: Seq<Term>,
    rest: Result<(Seq<Term>, int), DecodeError>,
) -> Result<(Seq<Term>, int), DecodeError> {
    match rest {
        Ok((items, end)) => Ok((front + items, end)),
        Err(e) => Err(e),
    }
}

/// `rest` with `front` put before the pairs that it found.
pub open spec fn pairs_found(
    front: Seq<Pair>,
    rest: Result<(Seq<Pair>, int), DecodeError>,
) -> Result<(Seq<Pair>, int), DecodeError> {
    match rest {
        Ok((pairs, end)) => Ok((front + pairs, end)),
        Err(e) => Err(e),
    }
}

proof fn lemma_items_found_first(rest: Result<(Seq<Term>, int), DecodeError>)
    ensures
        items_found(Seq::empty(), rest) == rest,
{
    if let Ok((items, end)) = rest {
        assert(Seq::<Term>::empty() + items =~= items);
    }
}

proof fn lemma_items_found_next(
    front: Seq<Term>,
    item: Term,
    rest: Result<(Seq<Term>, int), DecodeError>,
)
    ensures
        items_found(front, prepend_item(item, rest)) == items_found(front.push(item), rest),
{
    if let Ok((items, end)) = rest {
        assert(front + (seq![item] + items) =~= front.push(item) + items);
    }
}

proof fn lemma_pairs_found_first(rest: Result<(Seq<Pair>, int), DecodeError>)
    ensures
        pairs_found(Seq::empty(), rest) == rest,
{
    if let Ok((pairs, end)) = rest {
        assert(Seq::<Pair>::empty() + pairs =~= pairs);
    }
}

proof fn lemma_pairs_found_next(
    front: Seq<Pair>,
    pair: Pair,
    rest: Result<(Seq<Pair>, int), DecodeError>,
)
    ensures
        pairs_found(front, prepend_pair(pair, rest)) == pairs_found(front.push(pair), rest),
{
    if let Ok((pairs, end)) = rest {
        assert(front + (seq![pair] + pairs) =~= front.push(pair) + pairs);
    }
}

/// The first position from `pos` on that holds no digit.
fn scan_digits(bytes: &[u8], pos: usize) -> (end: usize)
    requires
        pos <= bytes.len(),
    ensures
        end == digits_end(bytes@, pos as int),
        pos <= end <= bytes.len(),
{
    let mut i: usize = pos;
    while i < bytes.len() && ZERO <= bytes[i] && bytes[i] <= NINE
        invariant
            pos <= i <= bytes.len(),
            digits_end(bytes@, pos as int) == digits_end(bytes@, i as int),
        decreases bytes.len() - i,
    {
        i += 1;
    }
    i
}

/// Reads the integer whose text starts at `pos`, just behind the `i`.
fn read_int(bytes: &[u8], pos: usize) -> (r: Result<(i64, usize), DecodeError>)
    requires
        pos <= bytes.len(),
    ensures
        int_found(r) == parse_int(bytes@, pos as int),
{
    let negative = pos < bytes.len() && bytes[pos] == MINUS;
    let start: usize = if negative {
        pos + 1
    } else {
        pos
    };
    let end = scan_digits(bytes, start);
    proof {
        lemma_digits_end(bytes@, start as int);
    }
    if end == start || end >= bytes.len() || bytes[end] != END {
        return Err(DecodeError::InvalidInteger);
    }
    if bytes[start] == ZERO && (end - start > 1 || negative) {
        return Err(DecodeError::InvalidInteger);
    }
    let limit: u64 = if negative {
        9223372036854775808
    } else {
        9223372036854775807
    };
    let mut magnitude: u64 = 0;
    let mut i: usize = start;
    proof {
        assert(bytes@.subrange(start as int, start as int) =~= Seq::<u8>::empty());
    }
    while i < end
        invariant
            start <= i <= end < bytes.len(),
            magnitude == digits_value(bytes@.subrange(start as int, i as int)),
            magnitude <= limit,
            limit == (if negative { 9223372036854775808u64 } else { 9223372036854775807u64 }),
            end == digits_end(bytes@, start as int),
            negative == (pos < bytes.len() && bytes@[pos as int] == MINUS),
            start == (if negative { pos + 1 } else { pos as int }),
            bytes@[end as int] == END,
            !(bytes@[start as int] == ZERO && (end - start > 1 || negative)),
            forall|j: int| start <= j < end ==> is_digit(#[trigger] bytes@[j]),
        decreases end - i,
    {
        let digit: u64 = (bytes[i] - ZERO) as u64;
        proof {
            lemma_digits_value_step(bytes@, start as int, i as int);
        }
        if magnitude > (limit - digit) / 10 {
            proof {
                lemma_digits_value_grows(bytes@, start as int, i + 1, end as int);
            }
            return Err(DecodeError::IntegerOverflow);
        }
        magnitude = magnitude * 10 + digit;
        i += 1;
    }
    let value: i64 = if negative {
        if magnitude == 9223372036854775808 {
            i64::MIN
        } else {
            -(magnitude as i64)
        }
    } else {
        magnitude as i64
    };
    Ok((value, end + 1))
}

/// Reads the byte string whose length starts at `pos`.
fn read_string(bytes: &[u8], pos: usize) -> (r: Result<(Vec<u8>, usize), DecodeError>)
    requires
        pos <= bytes.len(),
    ensures
        string_found(r) == parse_string(bytes@, pos as int),
{
    let end = scan_digits(bytes, pos);
    proof {
        lemma_digits_end(bytes@, pos as int);
    }
    if end == pos || (bytes[pos] == ZERO && end - pos > 1) {
        return Err(DecodeError::InvalidLength);
    }
    if end >= bytes.len() {
        return Err(DecodeError::UnexpectedEnd);
    }
    if bytes[end] != COLON {
        return Err(DecodeError::InvalidLength);
    }
    let room: usize = bytes.len() - (end + 1);
    let mut n: usize = 0;
    let mut i: usize = pos;
    proof {
        assert(bytes@.subrange(pos as int, pos as int) =~= Seq::<u8>::empty());
    }
    while i < end
        invariant
            pos <= i <= end < bytes.len(),
            n == digits_value(bytes@.subrange(pos as int, i as int)),
            n <= room,
            room == bytes.len() - (end + 1),
            end == digits_end(bytes@, pos as int),
            end != pos,
            !(bytes@[pos as int] == ZERO && end - pos > 1),
            bytes@[end as int] == COLON,
            forall|j: int| pos <= j < end ==> is_digit(#[trigger] bytes@[j]),
        decreases end - i,
    {
        let digit: usize = (bytes[i] - ZERO) as usize;
        proof {
            lemma_digits_value_step(bytes@, pos as int, i as int);
        }
        if digit > room || n > (room - digit) / 10 {
            proof {
                lemma_digits_value_grows(bytes@, pos as int, i + 1, end as int);
            }
            return Err(DecodeError::LengthExceedsInput);
        }
        n = n * 10 + digit;
        i += 1;
    }
    let payload = slice_to_vec(slice_subrange(bytes, end + 1, end + 1 + n));
    Ok((payload, end + 1 + n))
}

/// Reads the term whose bencoding starts at `pos`.
fn read_term(bytes: &[u8], pos: usize) -> (r: Result<(Value, usize), DecodeError>)
    requires
        pos <= bytes.len(),
    ensures
        term_found(r) == parse_term(bytes@, pos as int),
    decreases bytes.len() - pos,
{
    if pos >= bytes.len() {
        return Err(DecodeError::UnexpectedEnd);
    }
    let first: u8 = bytes[pos];
    if first == INT_START {
        match read_int(bytes, pos + 1) {
            Ok((i, end)) => Ok((Value::Int(i), end)),
            Err(e) => Err(e),
        }
    } else if ZERO <= first && first <= NINE {
        match read_string(bytes, pos) {
            Ok((b, end)) => Ok((Value::Bytes(b), end)),
            Err(e) => Err(e),
        }
    } else if first == LIST_START {
        let ghost whole = parse_items(bytes@, pos + 1);
        let mut items: Vec<Value> = Vec::new();
        let mut at: usize = pos + 1;
        proof {
            assert(items_view(items@) =~= Seq::<Term>::empty());
            lemma_items_found_first(parse_items(bytes@, at as int));
        }
        loop
            invariant
                pos < at <= bytes.len(),
                whole == parse_items(bytes@, pos + 1),
                parse_term(bytes@, pos as int) == (match whole {
                    Ok((items, end)) => Ok((Term::List(items), end)),
                    Err(e) => Err(e),
                }),
                whole == items_found(items_view(items@), parse_items(bytes@, at as int)),
            decreases bytes.len() - at,
        {
            if at >= bytes.len() {
                return Err(DecodeError::UnexpectedEnd);
            }
            if bytes[at] == END {
                proof {
                    assert(items_view(items@) + Seq::<Term>::empty() =~= items_view(items@));
                }
                return Ok((Value::List(items), at + 1));
            }
            match read_term(bytes, at) {
                Err(e) => {
                    return Err(e);
                },
                Ok((item, next)) => {
                    proof {
                        lemma_parse_advances(bytes@, at as int);
                        lemma_items_found_next(
                            items_view(items@),
                            item@,
                            parse_items(bytes@, next as int),
                        );
                        assert(items_view(items@.push(item)) =~= items_view(items@).push(item@));
                    }
                    items.push(item);
                    at = next;
                },
            }
        }
    } else if first == DICT_START {
        let ghost whole = parse_pairs(bytes@, pos + 1);
        let mut pairs: Vec<(Vec<u8>, Value)> = Vec::new();
        let mut at: usize = pos + 1;
        proof {
            assert(pairs_view(pairs@) =~= Seq::<Pair>::empty());
            lemma_pairs_found_first(parse_pairs(bytes@, at as int));
        }
        loop
            invariant
                pos < at <= bytes.len(),
                whole == parse_pairs(bytes@, pos + 1),
                parse_term(bytes@, pos as int) == (match whole {
                    Ok((pairs, end)) => Ok((Term::Dict(pairs), end)),
                    Err(e) => Err(e),
                }),
                whole == pairs_found(pairs_view(pairs@), parse_pairs(bytes@, at as int)),
            decreases bytes.len() - at,
        {
            if at >= bytes.len() {
                return Err(DecodeError::UnexpectedEnd);
            }
            if bytes[at] == END {
                proof {
                    assert(pairs_view(pairs@) + Seq::<Pair>::empty() =~= pairs_view(pairs@));
                }
                return Ok((Value::Dict(pairs), at + 1));
            }
            if !(ZERO <= bytes[at] && bytes[at] <= NINE) {
                return Err(DecodeError::InvalidKey);
            }
            let (key, mid) = match read_string(bytes, at) {
                Err(e) => {
                    return Err(e);
                },
                Ok(found) => found,
            };
            proof {
                lemma_digits_end(bytes@, at as int);
            }
            match read_term(bytes, mid) {
                Err(e) => {
                    return Err(e);
                },
                Ok((value, next)) => {
                    proof {
                        lemma_parse_advances(bytes@, mid as int);
                        lemma_pairs_found_next(
                            pairs_view(pairs@),
                            (key@, value@),
                            parse_pairs(bytes@, next as int),
                        );
                        assert(pairs_view(pairs@.push((key, value))) =~= pairs_view(pairs@).push(
                            (key@, value@),
                        ));
                    }
                    pairs.push((key, value));
                    at = next;
                },
            }
        }
    } else {
        Err(DecodeError::UnexpectedByte)
    }
}

/// Decodes the one term of which `bytes` is the bencoding.
///
/// Dictionary keys may come in any order, and the pairs are kept in the
/// order of the input. Bytes behind the term are a fault. The result is a
/// term exactly when the input is the bencoding of that term as it stands;
/// every other input gives the first fault from the left.
pub fn decode(bytes: &[u8]) -> (r: Result<Value, DecodeError>)
    ensures
        decoded(r) == decode_spec(bytes@),
        forall|t: Term|
            decoded(r) == Ok::<Term, DecodeError>(t) <==> bytes@ == #[trigger] serialize(t),
{
    proof {
        assert forall|t: Term|
            decode_spec(bytes@) == Ok::<Term, DecodeError>(t) <==> bytes@ == #[trigger] serialize(
                t,
            ) by {
            law_decode_inverts_serialize(bytes@, t);
        }
    }
    match read_term(bytes, 0) {
        Err(e) => Err(e),
        Ok((value, end)) => {
            if end == bytes.len() {
                Ok(value)
            } else {
                Err(DecodeError::TrailingBytes)
            }
        },
    }
}

/// Decodes the one term of which the bytes of `text` are the bencoding.
pub fn decode_str(text: &str) -> (r: Result<Value, DecodeError>)
    ensures
        decoded(r) == decode_spec(text.spec_bytes()),
{
    decode(text.as_bytes())
}

} // verus!
