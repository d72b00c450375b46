//! The value tree of a bencoded term and its mathematical model.

use vstd::prelude::*;

verus! {

/// One key and value pair of a dictionary, as a mathematical value.
pub type Pair = (Seq<u8>, Term);

/// The mathematical model of a bencoded term.
///
/// A dictionary is modelled by its pairs in the order in which they are
/// stored. Where a key occurs more than once, the last pair with that key
/// is the one that counts (see [`lookup`]).
pub ghost enum Term {
    Bytes(Seq<u8>),
    Int(i64),
    List(Seq<Term>),
    Dict(Seq<Pair>),
}

/// A bencoded term.
#[derive(Debug, PartialEq, Eq)]
pub enum Value {
    /// A raw byte string.
    Bytes(Vec<u8>),
    /// A signed 64-bit integer.
    Int(i64),
    /// An ordered list of terms.
    List(Vec<Value>),
    /// Key and value pairs, in the order in which they were stored.
    Dict(Vec<(Vec<u8>, Value)>),
}

/// The models of a list's items, in order.
pub open spec fn items_view(items: Seq<Value>) -> Seq<Term>
    decreases items,
{
    Seq::new(
        items.len(),
        |i: int|
            if 0 <= i < items.len() {
                items[i]@
            } else {
                Term::Int(0)
            },
    )
}

/// The models of a dictionary's pairs, in stored order.
pub open spec fn pairs_view(pairs: Seq<(Vec<u8>, Value)>) -> Seq<Pair>
    decreases pairs,
{
    Seq::new(
        pairs.len(),
        |i: int|
            if 0 <= i < pairs.len() {
                (pairs[i].0@, pairs[i].1@)
            } else {
                (Seq::empty(), Term::Int(0))
            },
    )
}

impl View for Value {
    type V = Term;

    open spec fn view(&self) -> Term
        decreases self,
    {
        match self {
            Value::Bytes(b) => Term::Bytes(b@),
            Value::Int(i) => Term::Int(*i),
            Value::List(items) => Term::List(items_view(items@)),
            Value::Dict(pairs) => Term::Dict(pairs_view(pairs@)),
        }
    }
}

/// The value that a sequence of pairs gives to `key`: that of the last pair
/// with this key, if there is one.
pub open spec fn lookup(pairs: Seq<Pair>, key: Seq<u8>) -> Option<Term>
    decreases pairs.len(),
{
    if pairs.len() == 0 {
        None
    } else if pairs.last().0 == key {
        Some(pairs.last().1)
    } else {
        lookup(pairs.drop_last(), key)
    }
}

/// Whether two byte slices hold the same bytes.
pub fn same_bytes(a: &[u8], b: &[u8]) -> (r: bool)
    ensures
        r == (a@ == b@),
{
    if a.len() != b.len() {
        return false;
    }
    let mut i: usize = 0;
    while i < a.len()
        invariant
            a.len() == b.len(),
            i <= a.len(),
            forall|j: int| 0 <= j < i ==> a@[j] == b@[j],
        decreases a.len() - i,
    {
        if a[i] != b[i] {
            return false;
        }
        i += 1;
    }
    assert(a@ =~= b@);
    true
}

/// The value that `pairs` give to `key`: that of the last pair with this
/// key, if there is one.
pub fn find<'a>(pairs: &'a Vec<(Vec<u8>, Value)>, key: &[u8]) -> (r: Option<&'a Value>)
    ensures
        match lookup(pairs_view(pairs@), key@) {
            Some(t) => r is Some && r.unwrap()@ == t,
            None => r is None,
        },
{
    let ghost model = pairs_view(pairs@);
    let mut i: usize = pairs.len();
    proof {
        assert(model.take(pairs.len() as int) =~= model);
    }
    while i > 0
        invariant
            i <= pairs.len(),
            model == pairs_view(pairs@),
            lookup(model, key@) == lookup(model.take(i as int), key@),
        decreases i,
    {
        proof {
            let head = model.take(i as int);
            assert(head.last() == model[i - 1]);
            assert(head.drop_last() =~= model.take(i - 1));
        }
        if same_bytes(pairs[i - 1].0.as_slice(), key) {
            return Some(&pairs[i - 1].1);
        }
        i -= 1;
    }
    None
}

impl Value {
    /// The value stored under `key`, if `self` is a dictionary that has the
    /// key. Of several pairs with the same key the last one counts.
    pub fn get(&self, key: &[u8]) -> (r: Option<&Value>)
        ensures
            match self@ {
                Term::Dict(pairs) => match lookup(pairs, key@) {
                    Some(t) => r is Some && r.unwrap()@ == t,
                    None => r is None,
                },
                _ => r is None,
            },
    {
        match self {
            Value::Dict(pairs) => find(pairs, key),
            _ => None,
        }
    }
}

} // verus!
