//! What holds of the decoder, the encoder and the canonical form together.

use vstd::prelude::*;
use crate::decode::{decode_spec, DecodeError};
use crate::encode::{
    canonical, canonical_items, canonical_pairs, encode_spec, equivalent, serialize,
};
use crate::grammar::{lemma_term_complete, lemma_term_sound};
use crate::order::{
    bytes_lt, canonical_order, is_last, key_order, keys_of, lemma_bytes_lt_asymmetric,
    lemma_canonical_order, place, KeyOrder,
};
use crate::torrent::{
    bytes_field, dict_field, info_hash_of, int_field, metadata_of, text_field, Field,
    TorrentMetadata,
};
use crate::value::{lookup, Pair, Term};
use crate::{torrent_of, torrent_read, Error};

verus! {

/// Whether two looked-up values are both absent or both present and
/// equivalent.
pub open spec fn equivalent_found(a: Option<Term>, b: Option<Term>) -> bool {
    match (a, b) {
        (Some(x), Some(y)) => equivalent(x, y),
        (None, None) => true,
        _ => false,
    }
}

/// Whether two sequences of pairs are the same mapping: they have the same
/// keys, and give equivalent values to each key.
pub open spec fn same_mapping(a: Seq<Pair>, b: Seq<Pair>) -> bool {
    forall|key: Seq<u8>| equivalent_found(#[trigger] lookup(a, key), lookup(b, key))
}

/// Whether the keys of a sequence of pairs ascend strictly.
pub open spec fn ascending(pairs: Seq<Pair>) -> bool {
    forall|a: int, b: int|
        0 <= a < b < pairs.len() ==> bytes_lt((#[trigger] pairs[a]).0, (#[trigger] pairs[b]).0)
}

/// The canonical form of a looked-up value.
pub open spec fn canonical_found(found: Option<Term>) -> Option<Term> {
    match found {
        Some(t) => Some(canonical(t)),
        None => None,
    }
}

/// **Decoding inverts the bencoding.** A sequence of bytes decodes to a
/// term exactly when it is the bencoding of that term as it stands; so no
/// two terms have the same bencoding, and every other input is a fault.
pub proof fn law_decode_inverts_serialize(s: Seq<u8>, t: Term)
    ensures
        decode_spec(s) == Ok::<Term, DecodeError>(t) <==> s == serialize(t),
{
    if decode_spec(s) == Ok::<Term, DecodeError>(t) {
        lemma_term_sound(s, 0);
        assert(s.subrange(0, s.len() as int) =~= s);
    }
    if s == serialize(t) {
        assert(s.subrange(0, s.len() as int) =~= s);
        lemma_term_complete(s, 0, t);
    }
}

/// **A term followed by more bytes is a fault.** Where bytes stand behind
/// the bencoding of a term, decoding fails with `TrailingBytes`.
pub proof fn law_trailing_bytes_are_a_fault(t: Term, more: Seq<u8>)
    requires
        more.len() > 0,
    ensures
        decode_spec(serialize(t) + more) == Err::<Term, DecodeError>(DecodeError::TrailingBytes),
{
    let s = serialize(t) + more;
    assert(s.subrange(0, serialize(t).len() as int) =~= serialize(t));
    lemma_term_complete(s, 0, t);
}

/// **A truncated term is a fault.** No proper prefix of the bencoding of a
/// term decodes.
pub proof fn law_truncated_is_a_fault(t: Term, cut: int)
    requires
        0 <= cut < serialize(t).len(),
    ensures
        decode_spec(serialize(t).take(cut)) is Err,
{
    let whole = serialize(t);
    let part = whole.take(cut);
    if decode_spec(part) is Ok {
        let found = decode_spec(part)->Ok_0;
        law_decode_inverts_serialize(part, found);
        assert(whole =~= part + whole.skip(cut));
        law_trailing_bytes_are_a_fault(found, whole.skip(cut));
        law_decode_inverts_serialize(whole, t);
    }
}

/// Nothing is found in pairs that do not have the key; and where the key
/// occurs, the value of its last occurrence is found.
proof fn lemma_lookup(pairs: Seq<Pair>, key: Seq<u8>)
    ensures
        lookup(pairs, key) is None <==> forall|x: int|
            0 <= x < pairs.len() ==> (#[trigger] pairs[x]).0 != key,
        forall|x: int|
            0 <= x < pairs.len() && (#[trigger] pairs[x]).0 == key && is_last(
                keys_of(pairs),
                pairs.len() as int,
                x,
            ) ==> lookup(pairs, key) == Some(pairs[x].1),
    decreases pairs.len(),
{
    if pairs.len() > 0 {
        let front = pairs.drop_last();
        lemma_lookup(front, key);
        let n = pairs.len() as int;
        assert(forall|x: int| 0 <= x < front.len() ==> front[x] == pairs[x]);
        if pairs.last().0 == key {
            assert(pairs[n - 1].0 == key);
            assert forall|x: int|
                0 <= x < pairs.len() && (#[trigger] pairs[x]).0 == key && is_last(
                    keys_of(pairs),
                    pairs.len() as int,
                    x,
                ) implies lookup(pairs, key) == Some(pairs[x].1) by {
                if x < n - 1 {
                    assert(keys_of(pairs)[n - 1] != keys_of(pairs)[x]);
                }
            }
        } else {
            assert forall|x: int|
                0 <= x < pairs.len() && (#[trigger] pairs[x]).0 == key && is_last(
                    keys_of(pairs),
                    pairs.len() as int,
                    x,
                ) implies lookup(pairs, key) == Some(pairs[x].1) by {
                assert(x < n - 1);
                assert(front[x] == pairs[x]);
                assert forall|y: int| x < y < front.len() implies #[trigger] keys_of(front)[y]
                    != keys_of(front)[x] by {
                    assert(keys_of(pairs)[y] != keys_of(pairs)[x]);
                }
            }
            if lookup(pairs, key) is None {
                assert forall|x: int| 0 <= x < pairs.len() implies (#[trigger] pairs[x]).0
                    != key by {
                    if x < n - 1 {
                        assert(front[x] == pairs[x]);
                    }
                }
            } else {
                let x = choose|x: int| 0 <= x < front.len() && (#[trigger] front[x]).0 == key;
                assert(pairs[x].0 == key);
            }
        }
    }
}

/// Among the first `n` keys, a key that occurs has a last occurrence.
proof fn lemma_last_exists(keys: Seq<Seq<u8>>, n: int, x: int)
    requires
        0 <= x < n <= keys.len(),
    ensures
        exists|y: int| x <= y < n && keys[y] == keys[x] && #[trigger] is_last(keys, n, y),
    decreases n - x,
{
    if is_last(keys, n, x) {
        assert(x <= x < n && keys[x] == keys[x] && is_last(keys, n, x));
    } else {
        let z = choose|z: int| x < z < n && #[trigger] keys[z] == keys[x];
        lemma_last_exists(keys, n, z);
        let y = choose|y: int| z <= y < n && keys[y] == keys[z] && #[trigger] is_last(keys, n, y);
        assert(x <= y < n && keys[y] == keys[x] && is_last(keys, n, y));
    }
}

/// **The canonical pairs are the same mapping, in order.** Their keys
/// ascend strictly, and each key has the canonical form of the value that
/// the pairs gave it.
pub proof fn law_canonical_pairs(pairs: Seq<Pair>)
    ensures
        ascending(canonical_pairs(pairs)),
        forall|key: Seq<u8>| #[trigger]
            lookup(canonical_pairs(pairs), key) == canonical_found(lookup(pairs, key)),
{
    let keys = keys_of(pairs);
    let n = pairs.len();
    let order = canonical_order(keys, n);
    let sorted = canonical_pairs(pairs);
    lemma_canonical_order(keys, n);
    assert forall|i: int| 0 <= i < order.len() implies 0 <= #[trigger] order[i] < n && is_last(
        keys,
        n as int,
        order[i],
    ) by {
        assert(order.contains(order[i]));
    }
    assert forall|i: int| 0 <= i < sorted.len() implies (#[trigger] sorted[i]).0
        == keys[order[i]] by {
        assert(0 <= order[i] < n);
    }
    assert forall|a: int, b: int| 0 <= a < b < sorted.len() implies bytes_lt(
        (#[trigger] sorted[a]).0,
        (#[trigger] sorted[b]).0,
    ) by {
        assert(bytes_lt(keys[order[a]], keys[order[b]]));
    }
    assert forall|key: Seq<u8>| #[trigger]
        lookup(sorted, key) == canonical_found(lookup(pairs, key)) by {
        lemma_lookup(pairs, key);
        lemma_lookup(sorted, key);
        if exists|x: int| 0 <= x < n && (#[trigger] pairs[x]).0 == key {
            let x = choose|x: int| 0 <= x < n && (#[trigger] pairs[x]).0 == key;
            lemma_last_exists(keys, n as int, x);
            let y = choose|y: int|
                x <= y < n && keys[y] == keys[x] && #[trigger] is_last(keys, n as int, y);
            assert(order.contains(y));
            let i = choose|i: int| 0 <= i < order.len() && order[i] == y;
            assert(sorted[i].0 == key);
            assert(pairs[y].0 == key);
            assert forall|j: int| i < j < sorted.len() implies #[trigger] keys_of(sorted)[j]
                != keys_of(sorted)[i] by {
                assert(bytes_lt(sorted[i].0, sorted[j].0));
                lemma_bytes_lt_asymmetric(sorted[i].0, sorted[j].0);
            }
            assert(lookup(sorted, key) == Some(sorted[i].1));
            assert(lookup(pairs, key) == Some(pairs[y].1));
        } else {
            assert forall|i: int| 0 <= i < sorted.len() implies (#[trigger] sorted[i]).0
                != key by {
                assert(pairs[order[i]].0 == keys[order[i]]);
            }
        }
    }
}

/// Two sequences of pairs with ascending keys that give every key the same
/// value are the same sequence.
proof fn lemma_ascending_unique(a: Seq<Pair>, b: Seq<Pair>)
    requires
        ascending(a),
        ascending(b),
        forall|key: Seq<u8>| #[trigger] lookup(a, key) == lookup(b, key),
    ensures
        a == b,
    decreases a.len(),
{
    if a.len() == 0 {
        if b.len() > 0 {
            assert(lookup(a, b.last().0) == lookup(b, b.last().0));
        }
        assert(a =~= b);
    } else {
        let ka = a.last().0;
        assert(lookup(a, ka) == lookup(b, ka));
        lemma_lookup(b, ka);
        let xb = choose|x: int| 0 <= x < b.len() && (#[trigger] b[x]).0 == ka;
        let kb = b.last().0;
        assert(lookup(a, kb) == lookup(b, kb));
        lemma_lookup(a, kb);
        let xa = choose|x: int| 0 <= x < a.len() && (#[trigger] a[x]).0 == kb;
        if xb < b.len() - 1 {
            assert(bytes_lt(b[xb].0, b[b.len() - 1].0));
        }
        if xa < a.len() - 1 {
            assert(bytes_lt(a[xa].0, a[a.len() - 1].0));
        }
        if ka != kb {
            lemma_bytes_lt_asymmetric(ka, kb);
        }
        assert(ka == kb);
        let fa = a.drop_last();
        let fb = b.drop_last();
        assert forall|key: Seq<u8>| #[trigger] lookup(fa, key) == lookup(fb, key) by {
            if key == ka {
                lemma_lookup(fa, key);
                lemma_lookup(fb, key);
                assert forall|x: int| 0 <= x < fa.len() implies (#[trigger] fa[x]).0 != key by {
                    assert(bytes_lt(a[x].0, a[a.len() - 1].0));
                    lemma_bytes_lt_asymmetric(a[x].0, ka);
                }
                assert forall|x: int| 0 <= x < fb.len() implies (#[trigger] fb[x]).0 != key by {
                    assert(bytes_lt(b[x].0, b[b.len() - 1].0));
                    lemma_bytes_lt_asymmetric(b[x].0, kb);
                }
            } else {
                assert(lookup(a, key) == lookup(b, key));
            }
        }
        assert(ascending(fa)) by {
            assert forall|x: int, y: int| 0 <= x < y < fa.len() implies bytes_lt(
                (#[trigger] fa[x]).0,
                (#[trigger] fa[y]).0,
            ) by {
                assert(bytes_lt(a[x].0, a[y].0));
            }
        }
        assert(ascending(fb)) by {
            assert forall|x: int, y: int| 0 <= x < y < fb.len() implies bytes_lt(
                (#[trigger] fb[x]).0,
                (#[trigger] fb[y]).0,
            ) by {
                assert(bytes_lt(b[x].0, b[y].0));
            }
        }
        lemma_ascending_unique(fa, fb);
        assert(a =~= fa.push(a.last()));
        assert(b =~= fb.push(b.last()));
    }
}

/// **Canonical determinism.** Two dictionaries that are the same mapping
/// have the same canonical form and the same canonical bencoding, in
/// whatever order their pairs were stored.
pub proof fn law_same_mapping_same_encoding(a: Seq<Pair>, b: Seq<Pair>)
    requires
        same_mapping(a, b),
    ensures
        canonical(Term::Dict(a)) == canonical(Term::Dict(b)),
        encode_spec(Term::Dict(a)) == encode_spec(Term::Dict(b)),
{
    law_canonical_pairs(a);
    law_canonical_pairs(b);
    let ca = canonical_pairs(a);
    let cb = canonical_pairs(b);
    assert forall|key: Seq<u8>| #[trigger] lookup(ca, key) == lookup(cb, key) by {
        assert(equivalent_found(lookup(a, key), lookup(b, key)));
    }
    lemma_ascending_unique(ca, cb);
}

/// Keys that ascend already are in canonical order as they stand.
proof fn lemma_canonical_order_of_ascending(keys: Seq<Seq<u8>>, n: nat)
    requires
        n <= keys.len(),
        forall|a: int, b: int| 0 <= a < b < n ==> bytes_lt(#[trigger] keys[a], #[trigger] keys[b]),
    ensures
        canonical_order(keys, n) == Seq::new(n, |i: int| i),
    decreases n,
{
    if n > 0 {
        let before = canonical_order(keys, (n - 1) as nat);
        lemma_canonical_order_of_ascending(keys, (n - 1) as nat);
        if n > 1 {
            assert(before.last() == n - 2);
            assert(bytes_lt(keys[n - 2], keys[n - 1]));
            lemma_bytes_lt_asymmetric(keys[n - 2], keys[n - 1]);
            assert(key_order(keys[n - 2], keys[n - 1]) == KeyOrder::Before);
        }
        assert(place(before, keys, n - 1) =~= Seq::new(n, |i: int| i));
    } else {
        assert(canonical_order(keys, n) =~= Seq::new(n, |i: int| i));
    }
}

/// **The canonical form is canonical.** To bring a canonical form into
/// canonical form changes nothing.
pub proof fn law_canonical_idempotent(t: Term)
    ensures
        canonical(canonical(t)) == canonical(t),
    decreases t,
{
    match t {
        Term::Bytes(_) => {},
        Term::Int(_) => {},
        Term::List(items) => {
            let once = canonical_items(items);
            assert forall|i: int| 0 <= i < items.len() implies canonical(#[trigger] once[i])
                == once[i] by {
                law_canonical_idempotent(items[i]);
            }
            assert(canonical_items(once) =~= once);
        },
        Term::Dict(pairs) => {
            let once = canonical_pairs(pairs);
            let order = canonical_order(keys_of(pairs), pairs.len());
            lemma_canonical_order(keys_of(pairs), pairs.len());
            law_canonical_pairs(pairs);
            let keys = keys_of(once);
            assert forall|a: int, b: int| 0 <= a < b < once.len() implies bytes_lt(
                #[trigger] keys[a],
                #[trigger] keys[b],
            ) by {
                assert(bytes_lt(once[a].0, once[b].0));
            }
            lemma_canonical_order_of_ascending(keys, once.len());
            let twice = canonical_pairs(once);
            assert(twice.len() == once.len());
            assert forall|i: int| 0 <= i < once.len() implies #[trigger] twice[i] == once[i] by {
                assert(order.contains(order[i]));
                law_canonical_idempotent(pairs[order[i]].1);
            }
            assert(twice =~= once);
        },
    }
}

/// **Round trip.** The canonical bencoding of a term decodes, and to a term
/// that is equivalent to the one encoded: its canonical form, in which byte
/// strings, integers and the order of list items are as they were.
pub proof fn law_round_trip(t: Term)
    ensures
        decode_spec(encode_spec(t)) == Ok::<Term, DecodeError>(canonical(t)),
        equivalent(canonical(t), t),
{
    law_decode_inverts_serialize(encode_spec(t), canonical(t));
    law_canonical_idempotent(t);
}

/// **The canonical bencoding tells terms apart up to equivalence.** Two
/// terms have the same canonical bencoding exactly when they are
/// equivalent.
pub proof fn law_same_encoding_iff_equivalent(a: Term, b: Term)
    ensures
        encode_spec(a) == encode_spec(b) <==> equivalent(a, b),
{
    law_decode_inverts_serialize(encode_spec(a), canonical(a));
    law_decode_inverts_serialize(encode_spec(a), canonical(b));
}

/// **A dictionary is its mapping.** Two dictionaries are equivalent exactly
/// when they are the same mapping.
pub proof fn law_equivalent_iff_same_mapping(a: Seq<Pair>, b: Seq<Pair>)
    ensures
        equivalent(Term::Dict(a), Term::Dict(b)) <==> same_mapping(a, b),
{
    law_canonical_pairs(a);
    law_canonical_pairs(b);
    if same_mapping(a, b) {
        law_same_mapping_same_encoding(a, b);
    }
    if equivalent(Term::Dict(a), Term::Dict(b)) {
        assert(canonical_pairs(a) == canonical_pairs(b));
        assert forall|key: Seq<u8>| equivalent_found(#[trigger] lookup(a, key), lookup(b, key)) by {
            assert(lookup(canonical_pairs(a), key) == canonical_found(lookup(a, key)));
            assert(lookup(canonical_pairs(b), key) == canonical_found(lookup(b, key)));
        }
    }
}

/// Under each key, two dictionaries that are the same mapping hold the
/// same text, the same integer, the same byte string, or equivalent
/// dictionaries, or fail in the same way.
proof fn lemma_fields_agree(a: Seq<Pair>, b: Seq<Pair>, field: Field)
    requires
        same_mapping(a, b),
    ensures
        text_field(a, field) == text_field(b, field),
        int_field(a, field) == int_field(b, field),
        bytes_field(a, field) == bytes_field(b, field),
        match (dict_field(a, field), dict_field(b, field)) {
            (Ok(x), Ok(y)) => equivalent(Term::Dict(x), Term::Dict(y)),
            (Err(e), Err(f)) => e == f,
            _ => false,
        },
{
    assert(equivalent_found(lookup(a, field.key()), lookup(b, field.key())));
}

/// **The info hash depends on the mapping alone.** Equivalent `info` terms
/// have the same info hash, in whatever order the file held their pairs.
pub proof fn law_equivalent_same_info_hash(a: Term, b: Term)
    requires
        equivalent(a, b),
    ensures
        info_hash_of(a) == info_hash_of(b),
{
}

/// **The metadata depends on the mapping alone.** Equivalent terms describe
/// the same torrent, info hash included, or fail in the same way.
pub proof fn law_equivalent_same_metadata(a: Term, b: Term)
    requires
        equivalent(a, b),
    ensures
        metadata_of(a) == metadata_of(b),
{
    if let Term::Dict(pa) = a {
        let pb = b->Dict_0;
        law_equivalent_iff_same_mapping(pa, pb);
        lemma_fields_agree(pa, pb, Field::Announce);
        lemma_fields_agree(pa, pb, Field::Info);
        if dict_field(pa, Field::Info) is Ok {
            let ia = dict_field(pa, Field::Info)->Ok_0;
            let ib = dict_field(pb, Field::Info)->Ok_0;
            law_equivalent_iff_same_mapping(ia, ib);
            lemma_fields_agree(ia, ib, Field::Name);
            lemma_fields_agree(ia, ib, Field::Length);
            lemma_fields_agree(ia, ib, Field::PieceLength);
            lemma_fields_agree(ia, ib, Field::Pieces);
            law_equivalent_same_info_hash(Term::Dict(ia), Term::Dict(ib));
        }
    }
}

/// **Reading is repeatable.** What `read_torrent` gives is determined by
/// the content of the file: two readings of the same content give the same
/// metadata, and so the same info hash, or fail in the same way.
pub proof fn law_same_content_same_metadata(
    content: Seq<u8>,
    first: Result<TorrentMetadata, Error>,
    second: Result<TorrentMetadata, Error>,
)
    requires
        torrent_read(first) == torrent_of(content),
        torrent_read(second) == torrent_of(content),
    ensures
        torrent_read(first) == torrent_read(second),
        first is Ok ==> second is Ok && first.unwrap().info_hash@ == second.unwrap().info_hash@,
{
}

} // verus!
