//! The decoder and the bencoding determine each other: what parses is the
//! bencoding of the term found, and the bencoding of a term parses to it.

use vstd::prelude::*;
use crate::decode::{
    digits_end, lemma_digits_end, lemma_parse_advances, parse_int, parse_items, parse_pairs,
    parse_string, parse_term, DecodeError,
};
use crate::encode::{serialize, serialize_items, serialize_pairs, string_text};
use crate::text::{
    decimal, digits_value, int_text, is_digit, lemma_decimal, lemma_digits_are_decimal, COLON,
    DICT_START, END, INT_START, LIST_START, MINUS,
};
use crate::value::{Pair, Term};

verus! {

/// An integer that parses was written as the numeral of its value.
proof fn lemma_int_sound(s: Seq<u8>, pos: int)
    requires
        0 <= pos <= s.len(),
        parse_int(s, pos) is Ok,
    ensures
        pos < parse_int(s, pos)->Ok_0.1 <= s.len(),
        s.subrange(pos, parse_int(s, pos)->Ok_0.1) == int_text(parse_int(s, pos)->Ok_0.0 as int)
            + seq![END],
{
    let negative = pos < s.len() && s[pos] == MINUS;
    let start = if negative {
        pos + 1
    } else {
        pos
    };
    lemma_digits_end(s, start);
    let end = digits_end(s, start);
    let digits = s.subrange(start, end);
    lemma_digits_are_decimal(digits);
    let value = parse_int(s, pos)->Ok_0.0;
    if negative {
        assert(s.subrange(pos, end + 1) =~= seq![MINUS] + digits + seq![END]);
    } else {
        assert(s.subrange(pos, end + 1) =~= digits + seq![END]);
    }
}

/// A byte string that parses was written as its length, a colon and its
/// bytes.
proof fn lemma_string_sound(s: Seq<u8>, pos: int)
    requires
        0 <= pos <= s.len(),
        parse_string(s, pos) is Ok,
    ensures
        pos < parse_string(s, pos)->Ok_0.1 <= s.len(),
        s.subrange(pos, parse_string(s, pos)->Ok_0.1) == string_text(parse_string(s, pos)->Ok_0.0),
{
    lemma_digits_end(s, pos);
    let end = digits_end(s, pos);
    let digits = s.subrange(pos, end);
    lemma_digits_are_decimal(digits);
    let n = digits_value(digits);
    let payload = s.subrange(end + 1, end + 1 + n);
    assert(s.subrange(pos, end + 1 + n) =~= digits + seq![COLON] + payload);
}

/// What parses is the bencoding of what was found: the bytes from the
/// start of a term to its end are the bencoding of the term, as it stands.
pub proof fn lemma_term_sound(s: Seq<u8>, pos: int)
    requires
        0 <= pos <= s.len(),
        parse_term(s, pos) is Ok,
    ensures
        pos < parse_term(s, pos)->Ok_0.1 <= s.len(),
        s.subrange(pos, parse_term(s, pos)->Ok_0.1) == serialize(parse_term(s, pos)->Ok_0.0),
    decreases s.len() - pos, 0nat,
{
    lemma_parse_advances(s, pos);
    let end = parse_term(s, pos)->Ok_0.1;
    if s[pos] == INT_START {
        lemma_int_sound(s, pos + 1);
        assert(s.subrange(pos, end) =~= seq![INT_START] + s.subrange(pos + 1, end));
    } else if is_digit(s[pos]) {
        lemma_string_sound(s, pos);
    } else if s[pos] == LIST_START {
        lemma_items_sound(s, pos + 1);
        assert(s.subrange(pos, end) =~= seq![LIST_START] + s.subrange(pos + 1, end));
    } else {
        lemma_pairs_sound(s, pos + 1);
        assert(s.subrange(pos, end) =~= seq![DICT_START] + s.subrange(pos + 1, end));
    }
}

/// The items that parse were written one after the other, with an `e`
/// behind the last.
pub proof fn lemma_items_sound(s: Seq<u8>, pos: int)
    requires
        0 <= pos <= s.len(),
        parse_items(s, pos) is Ok,
    ensures
        pos < parse_items(s, pos)->Ok_0.1 <= s.len(),
        s.subrange(pos, parse_items(s, pos)->Ok_0.1) == serialize_items(
            parse_items(s, pos)->Ok_0.0,
        ) + seq![END],
    decreases s.len() - pos, 1nat,
{
    lemma_parse_advances(s, pos);
    let (items, end) = parse_items(s, pos)->Ok_0;
    if s[pos] == END {
        assert(s.subrange(pos, end) =~= serialize_items(items) + seq![END]);
    } else {
        let (first, next) = parse_term(s, pos)->Ok_0;
        lemma_term_sound(s, pos);
        lemma_items_sound(s, next);
        let rest = parse_items(s, next)->Ok_0.0;
        assert(items =~= seq![first] + rest);
        assert(items[0] == first);
        assert(items.drop_first() =~= rest);
        assert(serialize_items(items) == serialize(first) + serialize_items(rest));
        assert(s.subrange(pos, end) =~= s.subrange(pos, next) + s.subrange(next, end));
        assert(s.subrange(pos, end) =~= serialize(first) + (serialize_items(rest) + seq![END]));
        assert(s.subrange(pos, end) =~= serialize_items(items) + seq![END]);
    }
}

/// The pairs that parse were written one after the other, each key as a
/// byte string before its value, with an `e` behind the last.
pub proof fn lemma_pairs_sound(s: Seq<u8>, pos: int)
    requires
        0 <= pos <= s.len(),
        parse_pairs(s, pos) is Ok,
    ensures
        pos < parse_pairs(s, pos)->Ok_0.1 <= s.len(),
        s.subrange(pos, parse_pairs(s, pos)->Ok_0.1) == serialize_pairs(
            parse_pairs(s, pos)->Ok_0.0,
        ) + seq![END],
    decreases s.len() - pos, 1nat,
{
    lemma_parse_advances(s, pos);
    let (pairs, end) = parse_pairs(s, pos)->Ok_0;
    if s[pos] == END {
        assert(s.subrange(pos, end) =~= serialize_pairs(pairs) + seq![END]);
    } else {
        let (key, mid) = parse_string(s, pos)->Ok_0;
        lemma_string_sound(s, pos);
        let (value, next) = parse_term(s, mid)->Ok_0;
        lemma_term_sound(s, mid);
        lemma_pairs_sound(s, next);
        let rest = parse_pairs(s, next)->Ok_0.0;
        assert(pairs =~= seq![(key, value)] + rest);
        assert(pairs[0] == (key, value));
        assert(pairs.drop_first() =~= rest);
        assert(serialize_pairs(pairs) == string_text(key) + serialize(value) + serialize_pairs(
            rest,
        ));
        assert(s.subrange(pos, end) =~= s.subrange(pos, mid) + s.subrange(mid, next) + s.subrange(
            next,
            end,
        ));
        assert(s.subrange(pos, end) =~= string_text(key) + serialize(value) + (serialize_pairs(rest)
            + seq![END]));
        assert(s.subrange(pos, end) =~= serialize_pairs(pairs) + seq![END]);
    }
}

/// A run of digits with no digit behind it ends where `digits_end` says.
proof fn lemma_digits_end_at(s: Seq<u8>, from: int, to: int)
    requires
        0 <= from <= to <= s.len(),
        forall|i: int| from <= i < to ==> is_digit(#[trigger] s[i]),
        to < s.len() ==> !is_digit(s[to]),
    ensures
        digits_end(s, from) == to,
    decreases to - from,
{
    if from < to {
        lemma_digits_end_at(s, from + 1, to);
    }
}

/// Where `part` stands in `s` from `pos` on, the bytes of `s` there are
/// those of `part`.
proof fn lemma_part_bytes(s: Seq<u8>, pos: int, part: Seq<u8>)
    requires
        0 <= pos,
        pos + part.len() <= s.len(),
        s.subrange(pos, pos + part.len()) == part,
    ensures
        forall|k: int| 0 <= k < part.len() ==> s[pos + k] == #[trigger] part[k],
{
    assert forall|k: int| 0 <= k < part.len() implies s[pos + k] == #[trigger] part[k] by {
        assert(s.subrange(pos, pos + part.len())[k] == s[pos + k]);
    }
}

/// The numeral of an integer with an `e` behind it parses to the integer.
proof fn lemma_int_complete(s: Seq<u8>, pos: int, i: i64)
    requires
        0 <= pos,
        pos + int_text(i as int).len() + 1 <= s.len(),
        s.subrange(pos, pos + int_text(i as int).len() + 1) == int_text(i as int) + seq![END],
    ensures
        parse_int(s, pos) == Ok::<(i64, int), DecodeError>((i, pos + int_text(i as int).len() + 1)),
{
    let whole = int_text(i as int) + seq![END];
    lemma_part_bytes(s, pos, whole);
    let n: nat = if i < 0 {
        (-i) as nat
    } else {
        i as nat
    };
    lemma_decimal(n);
    let digits = decimal(n);
    let start = if i < 0 {
        pos + 1
    } else {
        pos
    };
    let end = start + digits.len();
    assert(whole[0] == s[pos + 0]);
    assert forall|k: int| start <= k < end implies is_digit(#[trigger] s[k]) by {
        assert(s[pos + (k - pos)] == whole[k - pos]);
        assert(whole[k - pos] == digits[k - start]);
    }
    assert(s[pos + (end - pos)] == whole[end - pos]);
    assert(s[end] == END);
    lemma_digits_end_at(s, start, end);
    assert(s[pos + (start - pos)] == whole[start - pos]);
    assert(s[start] == digits[0]);
    assert(s.subrange(start, end) =~= digits) by {
        assert forall|k: int| 0 <= k < digits.len() implies s.subrange(start, end)[k]
            == digits[k] by {
            assert(s[pos + (start + k - pos)] == whole[start + k - pos]);
        }
    }
}

/// The bencoding of a byte string parses to the byte string.
proof fn lemma_string_complete(s: Seq<u8>, pos: int, b: Seq<u8>)
    requires
        0 <= pos,
        pos + string_text(b).len() <= s.len(),
        s.subrange(pos, pos + string_text(b).len()) == string_text(b),
    ensures
        parse_string(s, pos) == Ok::<(Seq<u8>, int), DecodeError>((b, pos + string_text(b).len())),
{
    let whole = string_text(b);
    lemma_part_bytes(s, pos, whole);
    lemma_decimal(b.len());
    let digits = decimal(b.len());
    let end = pos + digits.len();
    assert forall|k: int| pos <= k < end implies is_digit(#[trigger] s[k]) by {
        assert(s[pos + (k - pos)] == whole[k - pos]);
        assert(whole[k - pos] == digits[k - pos]);
    }
    assert(s[pos + (end - pos)] == whole[end - pos]);
    assert(s[end] == COLON);
    lemma_digits_end_at(s, pos, end);
    assert(s[pos + 0] == whole[0]);
    assert(s[pos] == digits[0]);
    assert(s.subrange(pos, end) =~= digits) by {
        assert forall|k: int| 0 <= k < digits.len() implies s.subrange(pos, end)[k]
            == digits[k] by {
            assert(s[pos + k] == whole[k]);
        }
    }
    assert(s.subrange(end + 1, end + 1 + b.len()) =~= b) by {
        assert forall|k: int| 0 <= k < b.len() implies s.subrange(end + 1, end + 1 + b.len())[k]
            == b[k] by {
            assert(s[pos + (end + 1 + k - pos)] == whole[end + 1 + k - pos]);
        }
    }
}

/// A bencoding is not empty, and its first byte tells the kind of the term:
/// a digit for a byte string, `i`, `l` or `d` for the others.
pub proof fn lemma_serialize_first(t: Term)
    ensures
        serialize(t).len() >= 2,
        serialize(t)[0] != END,
        is_digit(serialize(t)[0]) <==> t is Bytes,
        serialize(t)[0] == INT_START <==> t is Int,
        serialize(t)[0] == LIST_START <==> t is List,
        serialize(t)[0] == DICT_START <==> t is Dict,
{
    if let Term::Bytes(b) = t {
        lemma_decimal(b.len());
        assert(string_text(b)[0] == decimal(b.len())[0]);
    }
}

/// The bencoding of a term parses to the term, whatever follows it.
pub proof fn lemma_term_complete(s: Seq<u8>, pos: int, t: Term)
    requires
        0 <= pos,
        pos + serialize(t).len() <= s.len(),
        s.subrange(pos, pos + serialize(t).len()) == serialize(t),
    ensures
        parse_term(s, pos) == Ok::<(Term, int), DecodeError>((t, pos + serialize(t).len())),
    decreases t, 0nat,
{
    let whole = serialize(t);
    lemma_part_bytes(s, pos, whole);
    lemma_serialize_first(t);
    assert(s[pos + 0] == whole[0]);
    match t {
        Term::Bytes(b) => {
            lemma_string_complete(s, pos, b);
        },
        Term::Int(i) => {
            let inner = int_text(i as int) + seq![END];
            assert(s.subrange(pos + 1, pos + 1 + inner.len()) =~= inner) by {
                assert forall|k: int| 0 <= k < inner.len() implies s.subrange(
                    pos + 1,
                    pos + 1 + inner.len(),
                )[k] == inner[k] by {
                    assert(s[pos + (k + 1)] == whole[k + 1]);
                }
            }
            lemma_int_complete(s, pos + 1, i);
        },
        Term::List(items) => {
            let inner = serialize_items(items) + seq![END];
            assert(s.subrange(pos + 1, pos + 1 + inner.len()) =~= inner) by {
                assert forall|k: int| 0 <= k < inner.len() implies s.subrange(
                    pos + 1,
                    pos + 1 + inner.len(),
                )[k] == inner[k] by {
                    assert(s[pos + (k + 1)] == whole[k + 1]);
                }
            }
            lemma_items_complete(s, pos + 1, items);
        },
        Term::Dict(pairs) => {
            let inner = serialize_pairs(pairs) + seq![END];
            assert(s.subrange(pos + 1, pos + 1 + inner.len()) =~= inner) by {
                assert forall|k: int| 0 <= k < inner.len() implies s.subrange(
                    pos + 1,
                    pos + 1 + inner.len(),
                )[k] == inner[k] by {
                    assert(s[pos + (k + 1)] == whole[k + 1]);
                }
            }
            lemma_pairs_complete(s, pos + 1, pairs);
        },
    }
}

/// The bencodings of the items of a list with an `e` behind them parse to
/// the items.
pub proof fn lemma_items_complete(s: Seq<u8>, pos: int, items: Seq<Term>)
    requires
        0 <= pos,
        pos + serialize_items(items).len() + 1 <= s.len(),
        s.subrange(pos, pos + serialize_items(items).len() + 1) == serialize_items(items)
            + seq![END],
    ensures
        parse_items(s, pos) == Ok::<(Seq<Term>, int), DecodeError>(
            (items, pos + serialize_items(items).len() + 1),
        ),
    decreases items, 1nat,
{
    let whole = serialize_items(items) + seq![END];
    lemma_part_bytes(s, pos, whole);
    assert(s[pos + 0] == whole[0]);
    if items.len() == 0 {
        assert(items =~= Seq::<Term>::empty());
    } else {
        let first = items[0];
        let rest = items.drop_first();
        let head = serialize(first);
        let tail = serialize_items(rest) + seq![END];
        lemma_serialize_first(first);
        assert(whole =~= head + tail);
        assert(whole[0] == head[0]);
        let next = pos + head.len();
        assert(s.subrange(pos, next) =~= head) by {
            assert forall|k: int| 0 <= k < head.len() implies s.subrange(pos, next)[k]
                == head[k] by {
                assert(s[pos + k] == whole[k]);
            }
        }
        assert(s.subrange(next, next + tail.len()) =~= tail) by {
            assert forall|k: int| 0 <= k < tail.len() implies s.subrange(next, next + tail.len())[k]
                == tail[k] by {
                assert(s[pos + (head.len() + k)] == whole[head.len() + k]);
            }
        }
        lemma_term_complete(s, pos, first);
        lemma_items_complete(s, next, rest);
        assert(seq![first] + rest =~= items);
    }
}

/// The bencodings of the pairs of a dictionary with an `e` behind them
/// parse to the pairs, in their order.
pub proof fn lemma_pairs_complete(s: Seq<u8>, pos: int, pairs: Seq<Pair>)
    requires
        0 <= pos,
        pos + serialize_pairs(pairs).len() + 1 <= s.len(),
        s.subrange(pos, pos + serialize_pairs(pairs).len() + 1) == serialize_pairs(pairs)
            + seq![END],
    ensures
        parse_pairs(s, pos) == Ok::<(Seq<Pair>, int), DecodeError>(
            (pairs, pos + serialize_pairs(pairs).len() + 1),
        ),
    decreases pairs, 1nat,
{
    let whole = serialize_pairs(pairs) + seq![END];
    lemma_part_bytes(s, pos, whole);
    assert(s[pos + 0] == whole[0]);
    if pairs.len() == 0 {
        assert(pairs =~= Seq::<Pair>::empty());
    } else {
        let (key, value) = pairs[0];
        let rest = pairs.drop_first();
        let head = string_text(key);
        let body = serialize(value);
        let tail = serialize_pairs(rest) + seq![END];
        lemma_decimal(key.len());
        lemma_serialize_first(value);
        assert(whole =~= head + body + tail);
        assert(whole[0] == head[0]);
        assert(head[0] == decimal(key.len())[0]);
        let mid = pos + head.len();
        let next = mid + body.len();
        assert(s.subrange(pos, mid) =~= head) by {
            assert forall|k: int| 0 <= k < head.len() implies s.subrange(pos, mid)[k]
                == head[k] by {
                assert(s[pos + k] == whole[k]);
            }
        }
        assert(s.subrange(mid, next) =~= body) by {
            assert forall|k: int| 0 <= k < body.len() implies s.subrange(mid, next)[k]
                == body[k] by {
                assert(s[pos + (head.len() + k)] == whole[head.len() + k]);
            }
        }
        assert(s.subrange(next, next + tail.len()) =~= tail) by {
            assert forall|k: int| 0 <= k < tail.len() implies s.subrange(next, next + tail.len())[k]
                == tail[k] by {
                assert(s[pos + (head.len() + body.len() + k)] == whole[head.len() + body.len()
                    + k]);
            }
        }
        lemma_string_complete(s, pos, key);
        lemma_term_complete(s, mid, value);
        lemma_pairs_complete(s, next, rest);
        assert(seq![(key, value)] + rest =~= pairs);
    }
}

} // verus!
