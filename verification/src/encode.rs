//! The bencoding of a term, and the canonical form in which it is written.

use vstd::prelude::*;
use crate::order::{canonical_order, indices, keys_of, sorted_order};
use crate::text::{
    decimal, int_text, push_decimal, push_int, COLON, DICT_START, END, INT_START, LIST_START,
};
use crate::decode::{decode_spec, DecodeError};
use crate::laws::{law_round_trip, law_same_encoding_iff_equivalent};
use crate::value::{items_view, pairs_view, same_bytes, Pair, Term, Value};

verus! {

/// The bencoding of a byte string: its length in decimal, a colon, the bytes.
pub open spec fn string_text(b: Seq<u8>) -> Seq<u8> {
    decimal(b.len()) + seq![COLON] + b
}

/// The bencoding of a term as it stands: the pairs of a dictionary are
/// written in the order in which the term holds them.
pub open spec fn serialize(t: Term) -> Seq<u8>
    decreases t,
{
    match t {
        Term::Bytes(b) => string_text(b),
        Term::Int(i) => seq![INT_START] + int_text(i as int) + seq![END],
        Term::List(items) => seq![LIST_START] + serialize_items(items) + seq![END],
        Term::Dict(pairs) => seq![DICT_START] + serialize_pairs(pairs) + seq![END],
    }
}

/// The bencodings of the items of a list, one after the other.
pub open spec fn serialize_items(items: Seq<Term>) -> Seq<u8>
    decreases items,
{
    if items.len() == 0 {
        Seq::empty()
    } else {
        serialize(items[0]) + serialize_items(items.drop_first())
    }
}

/// The bencodings of the pairs of a dictionary, one after the other, each
/// key as a byte string before its value.
pub open spec fn serialize_pairs(pairs: Seq<Pair>) -> Seq<u8>
    decreases pairs,
{
    if pairs.len() == 0 {
        Seq::empty()
    } else {
        string_text(pairs[0].0) + serialize(pairs[0].1) + serialize_pairs(pairs.drop_first())
    }
}

/// The canonical form of a term: in every dictionary the keys ascend
/// strictly in byte-lexicographic order, and of several pairs with one key
/// only the last is kept. Byte strings, integers and the order of list items
/// stay as they are.
pub open spec fn canonical(t: Term) -> Term
    decreases t,
{
    match t {
        Term::Bytes(b) => Term::Bytes(b),
        Term::Int(i) => Term::Int(i),
        Term::List(items) => Term::List(canonical_items(items)),
        Term::Dict(pairs) => Term::Dict(canonical_pairs(pairs)),
    }
}

/// The canonical forms of the items of a list, in the same order.
pub open spec fn canonical_items(items: Seq<Term>) -> Seq<Term>
    decreases items,
{
    Seq::new(
        items.len(),
        |i: int|
            if 0 <= i < items.len() {
                canonical(items[i])
            } else {
                Term::Int(0)
            },
    )
}

/// The pairs of a dictionary in canonical order, each value in canonical
/// form.
pub open spec fn canonical_pairs(pairs: Seq<Pair>) -> Seq<Pair>
    decreases pairs,
{
    let order = canonical_order(keys_of(pairs), pairs.len());
    Seq::new(
        order.len(),
        |i: int|
            if 0 <= i < order.len() && 0 <= order[i] < pairs.len() {
                (pairs[order[i]].0, canonical(pairs[order[i]].1))
            } else {
                (Seq::empty(), Term::Int(0))
            },
    )
}

/// The canonical bencoding of a term: the bencoding of its canonical form.
pub open spec fn encode_spec(t: Term) -> Seq<u8> {
    serialize(canonical(t))
}

/// Whether two terms are the same up to the order in which their
/// dictionaries hold their pairs, and up to pairs that a later pair with
/// the same key overrides: whether they have the same canonical form.
pub open spec fn equivalent(a: Term, b: Term) -> bool {
    canonical(a) == canonical(b)
}

/// The items of a list are written one after the other.
pub proof fn lemma_serialize_items_push(items: Seq<Term>, last: Term)
    ensures
        serialize_items(items.push(last)) == serialize_items(items) + serialize(last),
    decreases items.len(),
{
    let all = items.push(last);
    if items.len() == 0 {
        assert(all.drop_first() =~= Seq::<Term>::empty());
        assert(serialize_items(all.drop_first()) =~= Seq::<u8>::empty());
        assert(all[0] == last);
        assert(serialize_items(all) =~= serialize(last));
        assert(serialize_items(items) + serialize(last) =~= serialize(last));
    } else {
        lemma_serialize_items_push(items.drop_first(), last);
        assert(all.drop_first() =~= items.drop_first().push(last));
        assert(serialize_items(all) =~= serialize_items(items) + serialize(last));
    }
}

/// The pairs of a dictionary are written one after the other.
pub proof fn lemma_serialize_pairs_push(pairs: Seq<Pair>, last: Pair)
    ensures
        serialize_pairs(pairs.push(last)) == serialize_pairs(pairs) + string_text(last.0)
            + serialize(last.1),
    decreases pairs.len(),
{
    let all = pairs.push(last);
    if pairs.len() == 0 {
        assert(all.drop_first() =~= Seq::<Pair>::empty());
        assert(serialize_pairs(all.drop_first()) =~= Seq::<u8>::empty());
        assert(all[0] == last);
        assert(serialize_pairs(all) =~= string_text(last.0) + serialize(last.1));
        assert(serialize_pairs(pairs) + string_text(last.0) + serialize(last.1) =~= string_text(
            last.0,
        ) + serialize(last.1));
    } else {
        lemma_serialize_pairs_push(pairs.drop_first(), last);
        assert(all.drop_first() =~= pairs.drop_first().push(last));
        assert(serialize_pairs(all) =~= serialize_pairs(pairs) + string_text(last.0) + serialize(
            last.1,
        ));
    }
}

/// Appends the bencoding of the byte string `b` to `out`.
fn push_string(out: &mut Vec<u8>, b: &Vec<u8>)
    ensures
        final(out)@ == old(out)@ + string_text(b@),
{
    push_decimal(out, b.len() as u64);
    out.push(COLON);
    out.extend_from_slice(b.as_slice());
    assert(final(out)@ =~= old(out)@ + string_text(b@));
}

/// Appends the canonical bencoding of `v` to `out`.
#[verifier::loop_isolation(false)]
fn encode_into(v: &Value, out: &mut Vec<u8>)
    ensures
        final(out)@ == old(out)@ + encode_spec(v@),
    decreases v,
{
    match v {
        Value::Bytes(b) => {
            push_string(out, b);
        },
        Value::Int(i) => {
            out.push(INT_START);
            push_int(out, *i);
            out.push(END);
            assert(out@ =~= old(out)@ + encode_spec(v@));
        },
        Value::List(items) => {
            let ghost done = canonical_items(items_view(items@));
            out.push(LIST_START);
            let mut i: usize = 0;
            while i < items.len()
                invariant
                    i <= items.len(),
                    out@ == old(out)@ + seq![LIST_START] + serialize_items(done.take(i as int)),
                decreases items.len() - i,
            {
                encode_into(&items[i], out);
                proof {
                    lemma_serialize_items_push(done.take(i as int), done[i as int]);
                    assert(done.take(i as int).push(done[i as int]) =~= done.take(i + 1));
                    assert(out@ =~= old(out)@ + seq![LIST_START] + serialize_items(
                        done.take(i + 1),
                    ));
                }
                i += 1;
            }
            out.push(END);
            proof {
                assert(done.take(items.len() as int) =~= done);
                assert(out@ =~= old(out)@ + encode_spec(v@));
            }
        },
        Value::Dict(pairs) => {
            let ghost done = canonical_pairs(pairs_view(pairs@));
            let order = sorted_order(pairs);
            out.push(DICT_START);
            let mut i: usize = 0;
            while i < order.len()
                invariant
                    i <= order.len(),
                    out@ == old(out)@ + seq![DICT_START] + serialize_pairs(done.take(i as int)),
                decreases order.len() - i,
            {
                let at: usize = order[i];
                proof {
                    assert(indices(order@)[i as int] == at as int);
                }
                push_string(out, &pairs[at].0);
                encode_into(&pairs[at].1, out);
                proof {
                    lemma_serialize_pairs_push(done.take(i as int), done[i as int]);
                    assert(done.take(i as int).push(done[i as int]) =~= done.take(i + 1));
                    assert(out@ =~= old(out)@ + seq![DICT_START] + serialize_pairs(
                        done.take(i + 1),
                    ));
                }
                i += 1;
            }
            out.push(END);
            proof {
                assert(done.take(order.len() as int) =~= done);
                assert(out@ =~= old(out)@ + encode_spec(v@));
            }
        },
    }
}

/// The canonical bencoding of `v`: integers and byte strings without
/// leading zeros, list items in their order, the pairs of every dictionary
/// in ascending byte-lexicographic order of their keys.
///
/// What comes out decodes again, to the canonical form of `v`.
pub fn encode(v: &Value) -> (out: Vec<u8>)
    ensures
        out@ == encode_spec(v@),
        decode_spec(out@) == Ok::<Term, DecodeError>(canonical(v@)),
{
    let mut out: Vec<u8> = Vec::new();
    encode_into(v, &mut out);
    proof {
        assert(out@ =~= encode_spec(v@));
        law_round_trip(v@);
    }
    out
}

impl Value {
    /// Whether `self` and `other` are equivalent: the same term up to the
    /// order in which dictionaries hold their pairs, where of several pairs
    /// with one key the last counts.
    pub fn is_equivalent(&self, other: &Value) -> (r: bool)
        ensures
            r == equivalent(self@, other@),
    {
        let mine = encode(self);
        let theirs = encode(other);
        proof {
            law_same_encoding_iff_equivalent(self@, other@);
        }
        same_bytes(mine.as_slice(), theirs.as_slice())
    }
}

} // verus!
