//! The byte-lexicographic order of dictionary keys, and the order in which
//! a dictionary's pairs appear in canonical form.

use vstd::prelude::*;
use crate::value::{Pair, Value, pairs_view};

verus! {

/// Whether `a` comes before `b` when both are compared from index `i` on,
/// byte by byte; a proper prefix comes before the longer string.
pub open spec fn lt_from(a: Seq<u8>, b: Seq<u8>, i: int) -> bool
    decreases a.len() - i,
{
    if i < 0 || i >= b.len() {
        false
    } else if i >= a.len() {
        true
    } else if a[i] != b[i] {
        a[i] < b[i]
    } else {
        lt_from(a, b, i + 1)
    }
}

/// The strict byte-lexicographic order on keys.
pub open spec fn bytes_lt(a: Seq<u8>, b: Seq<u8>) -> bool {
    lt_from(a, b, 0)
}

/// How one key stands to another.
#[derive(Debug, Clone, Copy, PartialEq, Eq, Structural)]
pub enum KeyOrder {
    Before,
    Same,
    After,
}

/// How `a` stands to `b` in the byte-lexicographic order.
pub open spec fn key_order(a: Seq<u8>, b: Seq<u8>) -> KeyOrder {
    if a == b {
        KeyOrder::Same
    } else if bytes_lt(a, b) {
        KeyOrder::Before
    } else {
        KeyOrder::After
    }
}

proof fn lemma_lt_from_irreflexive(a: Seq<u8>, i: int)
    ensures
        !lt_from(a, a, i),
    decreases a.len() - i,
{
    if 0 <= i < a.len() {
        lemma_lt_from_irreflexive(a, i + 1);
    }
}

proof fn lemma_lt_from_asymmetric(a: Seq<u8>, b: Seq<u8>, i: int)
    requires
        lt_from(a, b, i),
    ensures
        !lt_from(b, a, i),
    decreases a.len() - i,
{
    if 0 <= i < a.len() && i < b.len() && a[i] == b[i] {
        lemma_lt_from_asymmetric(a, b, i + 1);
    }
}

proof fn lemma_lt_from_transitive(a: Seq<u8>, b: Seq<u8>, c: Seq<u8>, i: int)
    requires
        lt_from(a, b, i),
        lt_from(b, c, i),
    ensures
        lt_from(a, c, i),
    decreases a.len() - i,
{
    if 0 <= i < a.len() && i < b.len() && i < c.len() && a[i] == b[i] && b[i] == c[i] {
        lemma_lt_from_transitive(a, b, c, i + 1);
    }
}

proof fn lemma_lt_from_total(a: Seq<u8>, b: Seq<u8>, i: int)
    requires
        0 <= i <= a.len(),
        i <= b.len(),
        !lt_from(a, b, i),
        !lt_from(b, a, i),
    ensures
        a.len() == b.len(),
        forall|j: int| i <= j < a.len() ==> a[j] == b[j],
    decreases a.len() - i,
{
    if i < a.len() && i < b.len() {
        lemma_lt_from_total(a, b, i + 1);
    }
}

/// Whether `a` and `b` agree on their first `i` bytes and `a` is the
/// smaller from there: it ends there and `b` goes on, or it has the smaller
/// byte there.
pub open spec fn smaller_at(a: Seq<u8>, b: Seq<u8>, i: int) -> bool {
    &&& 0 <= i <= a.len()
    &&& i < b.len()
    &&& forall|j: int| 0 <= j < i ==> a[j] == b[j]
    &&& (i == a.len() || a[i] < b[i])
}

proof fn lemma_lt_from_is_lexicographic(a: Seq<u8>, b: Seq<u8>, k: int)
    requires
        0 <= k <= a.len(),
        k <= b.len(),
        forall|j: int| 0 <= j < k ==> a[j] == b[j],
    ensures
        lt_from(a, b, k) <==> exists|i: int| smaller_at(a, b, i),
    decreases a.len() - k,
{
    if k < b.len() && k < a.len() && a[k] == b[k] {
        lemma_lt_from_is_lexicographic(a, b, k + 1);
    } else if lt_from(a, b, k) {
        assert(smaller_at(a, b, k));
    } else {
        assert forall|i: int| !smaller_at(a, b, i) by {
            if smaller_at(a, b, i) {
                if i < k {
                    assert(a[i] == b[i]);
                } else if i > k {
                    if k < a.len() && k < b.len() {
                        assert(a[k] == b[k]);
                    }
                }
            }
        }
    }
}

/// **The order on keys is the lexicographic order of their bytes.** One key
/// comes before another exactly when, at the first place where they
/// differ, it has the smaller byte or has ended.
pub proof fn law_bytes_lt_is_lexicographic(a: Seq<u8>, b: Seq<u8>)
    ensures
        bytes_lt(a, b) <==> exists|i: int| smaller_at(a, b, i),
{
    lemma_lt_from_is_lexicographic(a, b, 0);
}

/// No key comes before itself.
pub proof fn lemma_bytes_lt_irreflexive(a: Seq<u8>)
    ensures
        !bytes_lt(a, a),
{
    lemma_lt_from_irreflexive(a, 0);
}

/// Of two keys at most one comes before the other.
pub proof fn lemma_bytes_lt_asymmetric(a: Seq<u8>, b: Seq<u8>)
    requires
        bytes_lt(a, b),
    ensures
        !bytes_lt(b, a),
        a != b,
{
    lemma_lt_from_asymmetric(a, b, 0);
    lemma_lt_from_irreflexive(a, 0);
}

/// The order on keys is transitive.
pub proof fn lemma_bytes_lt_transitive(a: Seq<u8>, b: Seq<u8>, c: Seq<u8>)
    requires
        bytes_lt(a, b),
        bytes_lt(b, c),
    ensures
        bytes_lt(a, c),
{
    lemma_lt_from_transitive(a, b, c, 0);
}

/// Two different keys are ordered one way or the other.
pub proof fn lemma_bytes_lt_total(a: Seq<u8>, b: Seq<u8>)
    ensures
        a == b || bytes_lt(a, b) || bytes_lt(b, a),
{
    if !bytes_lt(a, b) && !bytes_lt(b, a) {
        lemma_lt_from_total(a, b, 0);
        assert(a =~= b);
    }
}

/// Compares two keys byte by byte.
pub fn compare_keys(a: &[u8], b: &[u8]) -> (r: KeyOrder)
    ensures
        r == key_order(a@, b@),
{
    let mut i: usize = 0;
    while i < a.len() && i < b.len()
        invariant
            i <= a.len(),
            i <= b.len(),
            forall|j: int| 0 <= j < i ==> a@[j] == b@[j],
            bytes_lt(a@, b@) == lt_from(a@, b@, i as int),
        decreases a.len() - i,
    {
        if a[i] < b[i] {
            assert(a@ != b@);
            return KeyOrder::Before;
        }
        if a[i] > b[i] {
            assert(a@ != b@);
            return KeyOrder::After;
        }
        i += 1;
    }
    if a.len() == b.len() {
        assert(a@ =~= b@);
        KeyOrder::Same
    } else if a.len() < b.len() {
        KeyOrder::Before
    } else {
        KeyOrder::After
    }
}

/// The keys of a sequence of pairs, in the same order.
pub open spec fn keys_of(pairs: Seq<Pair>) -> Seq<Seq<u8>> {
    Seq::new(pairs.len(), |i: int| pairs[i].0)
}

/// Puts the index `j` into `order`, a sequence of indices into `keys` whose
/// keys ascend: behind the indices of the smaller keys, and in place of an
/// index with the same key.
pub open spec fn place(order: Seq<int>, keys: Seq<Seq<u8>>, j: int) -> Seq<int>
    decreases order.len(),
{
    if order.len() == 0 {
        seq![j]
    } else {
        let last = order.last();
        match key_order(keys[last], keys[j]) {
            KeyOrder::Before => order.push(j),
            KeyOrder::Same => order.drop_last().push(j),
            KeyOrder::After => place(order.drop_last(), keys, j).push(last),
        }
    }
}

/// The indices of the first `n` keys in canonical order: the keys ascend
/// strictly, and of several equal keys only the last index is kept.
pub open spec fn canonical_order(keys: Seq<Seq<u8>>, n: nat) -> Seq<int>
    decreases n,
{
    if n == 0 {
        Seq::empty()
    } else {
        place(canonical_order(keys, (n - 1) as nat), keys, n - 1)
    }
}

/// A vector of indices as a sequence of mathematical integers.
pub open spec fn indices(v: Seq<usize>) -> Seq<int> {
    Seq::new(v.len(), |i: int| v[i] as int)
}

/// `place` leaves alone the indices at the end of `order` whose keys come
/// after the new key.
proof fn lemma_place_split(order: Seq<int>, keys: Seq<Seq<u8>>, j: int, pos: int)
    requires
        0 <= pos <= order.len(),
        forall|i: int|
            pos <= i < order.len() ==> key_order(keys[#[trigger] order[i]], keys[j])
                == KeyOrder::After,
    ensures
        place(order, keys, j) == place(order.take(pos), keys, j) + order.skip(pos),
    decreases order.len() - pos,
{
    if pos == order.len() {
        assert(order.take(pos) =~= order);
        assert(place(order, keys, j) + order.skip(pos) =~= place(order, keys, j));
    } else {
        let front = order.drop_last();
        lemma_place_split(front, keys, j, pos);
        assert(front.take(pos) =~= order.take(pos));
        assert((place(order.take(pos), keys, j) + front.skip(pos)).push(order.last())
            =~= place(order.take(pos), keys, j) + order.skip(pos));
    }
}

/// Puts the index `j` into `order` where the key of pair `j` belongs.
fn place_index(order: &mut Vec<usize>, pairs: &Vec<(Vec<u8>, Value)>, j: usize)
    requires
        j < pairs.len(),
        forall|i: int| 0 <= i < old(order).len() ==> old(order)[i] < pairs.len(),
    ensures
        indices(final(order)@) == place(
            indices(old(order)@),
            keys_of(pairs_view(pairs@)),
            j as int,
        ),
        forall|i: int| 0 <= i < final(order).len() ==> final(order)[i] < pairs.len(),
{
    let ghost keys = keys_of(pairs_view(pairs@));
    let ghost before = indices(order@);
    let mut pos: usize = order.len();
    while pos > 0
        invariant
            pos <= order.len(),
            j < pairs.len(),
            order@ == old(order)@,
            before == indices(order@),
            keys == keys_of(pairs_view(pairs@)),
            forall|i: int| 0 <= i < order.len() ==> order[i] < pairs.len(),
            forall|i: int|
                pos <= i < order.len() ==> key_order(keys[#[trigger] before[i]], keys[j as int])
                    == KeyOrder::After,
        decreases pos,
    {
        let at: usize = order[pos - 1];
        let found = compare_keys(pairs[at].0.as_slice(), pairs[j].0.as_slice());
        proof {
            assert(keys[at as int] == pairs[at as int].0@);
            assert(keys[j as int] == pairs[j as int].0@);
            assert(before[pos - 1] == at as int);
        }
        match found {
            KeyOrder::After => {
                pos -= 1;
            },
            KeyOrder::Same => {
                proof {
                    lemma_place_split(before, keys, j as int, pos as int);
                    let head = before.take(pos as int);
                    assert(head.last() == at as int);
                }
                order.set(pos - 1, j);
                proof {
                    let head = before.take(pos as int);
                    assert(indices(order@) =~= head.drop_last().push(j as int) + before.skip(
                        pos as int,
                    ));
                }
                return ;
            },
            KeyOrder::Before => {
                proof {
                    lemma_place_split(before, keys, j as int, pos as int);
                    let head = before.take(pos as int);
                    assert(head.last() == at as int);
                }
                order.insert(pos, j);
                proof {
                    let head = before.take(pos as int);
                    assert(indices(order@) =~= head.push(j as int) + before.skip(pos as int));
                }
                return ;
            },
        }
    }
    proof {
        lemma_place_split(before, keys, j as int, 0);
        assert(before.take(0) =~= Seq::<int>::empty());
    }
    order.insert(0, j);
    proof {
        assert(indices(order@) =~= seq![j as int] + before.skip(0));
    }
}

/// The indices of a dictionary's pairs in canonical order.
pub fn sorted_order(pairs: &Vec<(Vec<u8>, Value)>) -> (order: Vec<usize>)
    ensures
        indices(order@) == canonical_order(keys_of(pairs_view(pairs@)), pairs.len() as nat),
        forall|i: int| 0 <= i < order.len() ==> order[i] < pairs.len(),
{
    let mut order: Vec<usize> = Vec::new();
    let mut j: usize = 0;
    proof {
        assert(indices(order@) =~= Seq::<int>::empty());
    }
    while j < pairs.len()
        invariant
            j <= pairs.len(),
            indices(order@) == canonical_order(keys_of(pairs_view(pairs@)), j as nat),
            forall|i: int| 0 <= i < order.len() ==> order[i] < pairs.len(),
        decreases pairs.len() - j,
    {
        place_index(&mut order, pairs, j);
        j += 1;
    }
    order
}

/// Whether the keys at the indices of `order` ascend strictly.
pub open spec fn ascending_by(order: Seq<int>, keys: Seq<Seq<u8>>) -> bool {
    forall|a: int, b: int|
        0 <= a < b < order.len() ==> bytes_lt(keys[#[trigger] order[a]], keys[#[trigger] order[b]])
}

/// Whether none of the first `n` keys behind index `x` equals the key at `x`.
pub open spec fn is_last(keys: Seq<Seq<u8>>, n: int, x: int) -> bool {
    forall|y: int| x < y < n ==> #[trigger] keys[y] != keys[x]
}

/// `place` keeps the keys ascending; it adds the new index and drops the
/// index that had the same key, if there was one.
pub proof fn lemma_place(order: Seq<int>, keys: Seq<Seq<u8>>, j: int)
    requires
        ascending_by(order, keys),
    ensures
        ascending_by(place(order, keys, j), keys),
        forall|x: int|
            #[trigger] place(order, keys, j).contains(x) <==> (x == j || (order.contains(x)
                && keys[x] != keys[j])),
    decreases order.len(),
{
    let placed = place(order, keys, j);
    if order.len() == 0 {
        assert(placed[0] == j);
        assert forall|x: int| placed.contains(x) <==> (x == j || (order.contains(x) && keys[x]
            != keys[j])) by {
            if x == j {
                assert(placed[0] == x);
            }
        }
    } else {
        let last = order.last();
        let front = order.drop_last();
        assert forall|x: int| front.contains(x) implies bytes_lt(keys[x], keys[last]) by {
            let a = choose|a: int| 0 <= a < front.len() && front[a] == x;
            assert(order[a] == x);
            assert(order[order.len() - 1] == last);
        }
        assert forall|x: int| order.contains(x) <==> (front.contains(x) || x == last) by {
            if order.contains(x) {
                let a = choose|a: int| 0 <= a < order.len() && order[a] == x;
                if a < front.len() {
                    assert(front[a] == x);
                }
            }
            if front.contains(x) {
                let a = choose|a: int| 0 <= a < front.len() && front[a] == x;
                assert(order[a] == x);
            }
            if x == last {
                assert(order[order.len() - 1] == x);
            }
        }
        assert(ascending_by(front, keys)) by {
            assert forall|a: int, b: int| 0 <= a < b < front.len() implies bytes_lt(
                keys[#[trigger] front[a]],
                keys[#[trigger] front[b]],
            ) by {
                assert(order[a] == front[a] && order[b] == front[b]);
            }
        }
        match key_order(keys[last], keys[j]) {
            KeyOrder::Before => {
                assert forall|a: int, b: int| 0 <= a < b < placed.len() implies bytes_lt(
                    keys[#[trigger] placed[a]],
                    keys[#[trigger] placed[b]],
                ) by {
                    if b == order.len() {
                        assert(placed[a] == order[a]);
                        if a < front.len() {
                            assert(front[a] == order[a]);
                            assert(front.contains(order[a]));
                            lemma_bytes_lt_transitive(keys[order[a]], keys[last], keys[j]);
                        }
                    } else {
                        assert(placed[a] == order[a] && placed[b] == order[b]);
                    }
                }
                assert forall|x: int| placed.contains(x) <==> (x == j || (order.contains(x)
                    && keys[x] != keys[j])) by {
                    if placed.contains(x) {
                        let a = choose|a: int| 0 <= a < placed.len() && placed[a] == x;
                        if a < order.len() {
                            assert(order[a] == x);
                            if x != last {
                                assert(front.contains(x));
                                lemma_bytes_lt_transitive(keys[x], keys[last], keys[j]);
                            }
                            lemma_bytes_lt_asymmetric(keys[x], keys[j]);
                        }
                    }
                    if x == j {
                        assert(placed[order.len() as int] == x);
                    }
                    if order.contains(x) {
                        let a = choose|a: int| 0 <= a < order.len() && order[a] == x;
                        assert(placed[a] == x);
                    }
                }
            },
            KeyOrder::Same => {
                assert(placed =~= front.push(j));
                assert forall|a: int, b: int| 0 <= a < b < placed.len() implies bytes_lt(
                    keys[#[trigger] placed[a]],
                    keys[#[trigger] placed[b]],
                ) by {
                    assert(placed[a] == front[a]);
                    assert(front.contains(front[a]));
                    if b < front.len() {
                        assert(placed[b] == front[b]);
                    }
                }
                assert forall|x: int| placed.contains(x) <==> (x == j || (order.contains(x)
                    && keys[x] != keys[j])) by {
                    if placed.contains(x) {
                        let a = choose|a: int| 0 <= a < placed.len() && placed[a] == x;
                        if a < front.len() {
                            assert(front[a] == x);
                            assert(front.contains(x));
                            lemma_bytes_lt_asymmetric(keys[x], keys[last]);
                        }
                    }
                    if x == j {
                        assert(placed[front.len() as int] == x);
                    }
                    if front.contains(x) {
                        let a = choose|a: int| 0 <= a < front.len() && front[a] == x;
                        assert(placed[a] == x);
                        lemma_bytes_lt_asymmetric(keys[x], keys[last]);
                    }
                }
            },
            KeyOrder::After => {
                lemma_place(front, keys, j);
                lemma_bytes_lt_total(keys[last], keys[j]);
                let inner = place(front, keys, j);
                assert(placed =~= inner.push(last));
                assert forall|a: int, b: int| 0 <= a < b < placed.len() implies bytes_lt(
                    keys[#[trigger] placed[a]],
                    keys[#[trigger] placed[b]],
                ) by {
                    assert(placed[a] == inner[a]);
                    if b == inner.len() {
                        assert(inner.contains(inner[a]));
                    } else {
                        assert(placed[b] == inner[b]);
                    }
                }
                assert forall|x: int| placed.contains(x) <==> (x == j || (order.contains(x)
                    && keys[x] != keys[j])) by {
                    if placed.contains(x) {
                        let a = choose|a: int| 0 <= a < placed.len() && placed[a] == x;
                        if a < inner.len() {
                            assert(inner[a] == x);
                            assert(inner.contains(x));
                        }
                    }
                    if inner.contains(x) {
                        let a = choose|a: int| 0 <= a < inner.len() && inner[a] == x;
                        assert(placed[a] == x);
                    }
                    if x == last {
                        assert(placed[inner.len() as int] == x);
                    }
                }
            },
        }
    }
}

/// The canonical order holds, with ascending keys, exactly the indices of
/// the pairs that count: for each key the last index that has it.
pub proof fn lemma_canonical_order(keys: Seq<Seq<u8>>, n: nat)
    requires
        n <= keys.len(),
    ensures
        ascending_by(canonical_order(keys, n), keys),
        forall|x: int|
            #[trigger] canonical_order(keys, n).contains(x) <==> (0 <= x < n && is_last(
                keys,
                n as int,
                x,
            )),
    decreases n,
{
    let order = canonical_order(keys, n);
    if n == 0 {
        assert forall|x: int| order.contains(x) <==> (0 <= x < n && is_last(keys, n as int, x)) by {
            if order.contains(x) {
                let a = choose|a: int| 0 <= a < order.len() && order[a] == x;
            }
        }
    } else {
        let before = canonical_order(keys, (n - 1) as nat);
        lemma_canonical_order(keys, (n - 1) as nat);
        lemma_place(before, keys, n - 1);
        assert forall|x: int| order.contains(x) <==> (0 <= x < n && is_last(keys, n as int, x)) by {
            assert(order.contains(x) <==> (x == n - 1 || (before.contains(x) && keys[x] != keys[n
                - 1])));
            assert(before.contains(x) <==> (0 <= x < n - 1 && is_last(keys, n - 1, x)));
            if 0 <= x < n - 1 {
                if is_last(keys, n as int, x) {
                    assert(is_last(keys, n - 1, x));
                    assert(keys[n - 1] != keys[x]);
                }
                if is_last(keys, n - 1, x) && keys[x] != keys[n - 1] {
                    assert forall|y: int| x < y < n implies #[trigger] keys[y] != keys[x] by {
                        if y < n - 1 {
                            assert(keys[y] != keys[x]);
                        }
                    }
                }
            }
        }
    }
}

} // verus!
