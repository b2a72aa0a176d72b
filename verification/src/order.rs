//! The order of dictionary keys: byte strings compared as raw bytes, a
//! shorter string before any longer one that it begins.

use vstd::prelude::*;

verus! {

/// Whether `a` comes strictly before `b` in lexicographic byte order.
pub open spec fn bytes_lt(a: Seq<u8>, b: Seq<u8>) -> bool
    decreases a.len(),
{
    if b.len() == 0 {
        false
    } else if a.len() == 0 {
        true
    } else if a[0] != b[0] {
        a[0] < b[0]
    } else {
        bytes_lt(a.drop_first(), b.drop_first())
    }
}

/// Whether the keys ascend strictly: each before the next, none twice.
pub open spec fn strictly_ascending(keys: Seq<Seq<u8>>) -> bool {
    forall|i: int| 0 <= i < keys.len() - 1 ==> bytes_lt(#[trigger] keys[i], keys[i + 1])
}

/// Whether `order` lists indices into `keys` so that the keys never descend
/// along it.
pub open spec fn ascending_along(keys: Seq<Seq<u8>>, order: Seq<int>) -> bool {
    &&& forall|k: int| 0 <= k < order.len() ==> 0 <= #[trigger] order[k] < keys.len()
    &&& forall|k: int|
        0 <= k < order.len() - 1 ==> !bytes_lt(keys[#[trigger] order[k + 1]], keys[order[k]])
}

/// Where the key `key` goes into `order`, whose keys do not descend: behind
/// every index whose key is not after `key`, so that equal keys keep the
/// order in which they came.
pub open spec fn insert_position(keys: Seq<Seq<u8>>, order: Seq<int>, key: Seq<u8>) -> int
    decreases order.len(),
{
    if order.len() > 0 && bytes_lt(key, keys[order.last()]) {
        insert_position(keys, order.drop_last(), key)
    } else {
        order.len() as int
    }
}

/// The indices of `keys` in ascending order of the keys they point at;
/// among equal keys the earlier index first.
pub open spec fn key_order(keys: Seq<Seq<u8>>) -> Seq<int>
    decreases keys.len(),
{
    if keys.len() == 0 {
        Seq::empty()
    } else {
        let before = key_order(keys.drop_last());
        before.insert(insert_position(keys, before, keys.last()), keys.len() - 1)
    }
}

/// No byte string comes before itself.
pub proof fn lemma_bytes_lt_irreflexive(a: Seq<u8>)
    ensures
        !bytes_lt(a, a),
    decreases a.len(),
{
    if a.len() > 0 {
        lemma_bytes_lt_irreflexive(a.drop_first());
    }
}

/// Of two byte strings at most one comes before the other.
pub proof fn lemma_bytes_lt_asymmetric(a: Seq<u8>, b: Seq<u8>)
    ensures
        !(bytes_lt(a, b) && bytes_lt(b, a)),
    decreases a.len(),
{
    if a.len() > 0 && b.len() > 0 && a[0] == b[0] {
        lemma_bytes_lt_asymmetric(a.drop_first(), b.drop_first());
    }
}

/// The order of byte strings is transitive.
pub proof fn lemma_bytes_lt_transitive(a: Seq<u8>, b: Seq<u8>, c: Seq<u8>)
    requires
        bytes_lt(a, b),
        bytes_lt(b, c),
    ensures
        bytes_lt(a, c),
    decreases a.len(),
{
    if a.len() > 0 && b.len() > 0 && c.len() > 0 && a[0] == b[0] && b[0] == c[0] {
        lemma_bytes_lt_transitive(a.drop_first(), b.drop_first(), c.drop_first());
    }
}

/// Two byte strings of which neither comes before the other are equal.
pub proof fn lemma_bytes_lt_total(a: Seq<u8>, b: Seq<u8>)
    ensures
        bytes_lt(a, b) || bytes_lt(b, a) || a == b,
    decreases a.len(),
{
    if a.len() > 0 && b.len() > 0 {
        if a[0] == b[0] {
            lemma_bytes_lt_total(a.drop_first(), b.drop_first());
            if a.drop_first() == b.drop_first() {
                assert(a =~= seq![a[0]] + a.drop_first());
                assert(b =~= seq![b[0]] + b.drop_first());
            }
        }
    } else if a.len() == 0 && b.len() == 0 {
        assert(a =~= b);
    }
}

/// The place that `insert_position` names lies within `order`; the index
/// before it has a key not after `key`, and every index from it on has a
/// key after `key`.
pub proof fn lemma_insert_position(keys: Seq<Seq<u8>>, order: Seq<int>, key: Seq<u8>)
    ensures
        0 <= insert_position(keys, order, key) <= order.len(),
        insert_position(keys, order, key) > 0 ==> !bytes_lt(
            key,
            keys[order[insert_position(keys, order, key) - 1]],
        ),
        forall|k: int|
            insert_position(keys, order, key) <= k < order.len() ==> bytes_lt(
                key,
                keys[#[trigger] order[k]],
            ),
    decreases order.len(),
{
    if order.len() > 0 && bytes_lt(key, keys[order.last()]) {
        let head = order.drop_last();
        lemma_insert_position(keys, head, key);
        let at = insert_position(keys, order, key);
        assert forall|k: int| at <= k < order.len() implies bytes_lt(
            key,
            keys[#[trigger] order[k]],
        ) by {
            if k < head.len() {
                assert(order[k] == head[k]);
            }
        }
        if at > 0 {
            assert(order[at - 1] == head[at - 1]);
        }
    }
}

/// Whether indices with equal keys stand in `order` as they stand in
/// `keys`: the earlier first.
pub open spec fn keeps_equal_keys_in_order(keys: Seq<Seq<u8>>, order: Seq<int>) -> bool {
    forall|k: int, l: int|
        0 <= k < l < order.len() && keys[#[trigger] order[k]] == keys[#[trigger] order[l]]
            ==> order[k] < order[l]
}

/// `key_order` is a rearrangement of the indices of `keys` along which the
/// keys never descend, and in which indices with equal keys keep their
/// order.
pub proof fn lemma_key_order_sorts(keys: Seq<Seq<u8>>)
    ensures
        key_order(keys).len() == keys.len(),
        ascending_along(keys, key_order(keys)),
        forall|i: int| 0 <= i < keys.len() ==> key_order(keys).contains(i),
        key_order(keys).no_duplicates(),
        keeps_equal_keys_in_order(keys, key_order(keys)),
    decreases keys.len(),
{
    if keys.len() > 0 {
        let head = keys.drop_last();
        let before = key_order(head);
        let last = keys.len() - 1;
        let at = insert_position(keys, before, keys.last());
        let order = key_order(keys);
        lemma_key_order_sorts(head);
        lemma_insert_position(keys, before, keys.last());
        assert(order.len() == before.len() + 1);
        assert forall|k: int| 0 <= k < order.len() implies 0 <= #[trigger] order[k]
            < keys.len() by {
            if k < at {
                assert(order[k] == before[k]);
            } else if k > at {
                assert(order[k] == before[k - 1]);
            }
        }
        assert forall|k: int| 0 <= k < order.len() - 1 implies !bytes_lt(
            keys[#[trigger] order[k + 1]],
            keys[order[k]],
        ) by {
            if k + 1 < at {
                assert(order[k] == before[k] && order[k + 1] == before[k + 1]);
                assert(head[before[k]] == keys[before[k]]);
                assert(head[before[k + 1]] == keys[before[k + 1]]);
            } else if k + 1 == at {
                assert(order[k] == before[k] && order[k + 1] == last);
            } else if k == at {
                assert(order[k] == last && order[k + 1] == before[k]);
                lemma_bytes_lt_asymmetric(keys[last], keys[before[k]]);
            } else {
                assert(order[k] == before[k - 1] && order[k + 1] == before[k]);
                assert(head[before[k - 1]] == keys[before[k - 1]]);
                assert(head[before[k]] == keys[before[k]]);
                assert(!bytes_lt(head[before[(k - 1) + 1]], head[before[k - 1]]));
            }
        }
        assert forall|i: int| 0 <= i < keys.len() implies order.contains(i) by {
            if i == last {
                assert(order[at] == last);
            } else {
                assert(before.contains(i));
                let k = choose|k: int| 0 <= k < before.len() && before[k] == i;
                if k < at {
                    assert(order[k] == i);
                } else {
                    assert(order[k + 1] == i);
                }
            }
        }
        assert forall|k: int, l: int|
            0 <= k < l < order.len() && keys[#[trigger] order[k]]
                == keys[#[trigger] order[l]] implies order[k] < order[l] by {
            let bk = if k < at {
                k
            } else {
                k - 1
            };
            let bl = if l < at {
                l
            } else {
                l - 1
            };
            if k == at {
                assert(order[l] == before[bl]);
                assert(bytes_lt(keys[last], keys[before[bl]]));
                lemma_bytes_lt_irreflexive(keys[last]);
            } else if l == at {
                assert(order[k] == before[bk]);
                assert(0 <= before[bk] < head.len());
            } else {
                assert(order[k] == before[bk] && order[l] == before[bl]);
                assert(head[before[bk]] == keys[before[bk]]);
                assert(head[before[bl]] == keys[before[bl]]);
            }
        }
        assert forall|k: int, l: int|
            0 <= k < order.len() && 0 <= l < order.len() && k != l implies order[k]
            != order[l] by {
            let bk = if k < at { k } else { k - 1 };
            let bl = if l < at { l } else { l - 1 };
            if k != at && l != at {
                assert(order[k] == before[bk] && order[l] == before[bl]);
            } else if k == at {
                assert(order[l] == before[bl]);
            } else {
                assert(order[k] == before[bk]);
            }
        }
    }
}

/// Whether the keys never descend: none comes before the one in front of
/// it.
pub open spec fn never_descending(keys: Seq<Seq<u8>>) -> bool {
    forall|i: int| 0 <= i < keys.len() - 1 ==> !bytes_lt(keys[i + 1], #[trigger] keys[i])
}

/// Keys that never descend are left in their order.
pub proof fn lemma_key_order_of_sorted(keys: Seq<Seq<u8>>)
    requires
        never_descending(keys),
    ensures
        key_order(keys) == Seq::new(keys.len(), |i: int| i),
    decreases keys.len(),
{
    if keys.len() > 0 {
        let head = keys.drop_last();
        assert forall|i: int| 0 <= i < head.len() - 1 implies !bytes_lt(
            head[i + 1],
            #[trigger] head[i],
        ) by {
            assert(head[i] == keys[i] && head[i + 1] == keys[i + 1]);
        }
        lemma_key_order_of_sorted(head);
        let before = key_order(head);
        if before.len() > 0 {
            let prev = keys.len() - 2;
            assert(before.last() == prev);
            assert(!bytes_lt(keys[prev + 1], keys[prev]));
        }
        assert(key_order(keys) =~= Seq::new(keys.len(), |i: int| i));
    }
}

/// Keys that ascend strictly never descend.
pub proof fn lemma_ascending_never_descends(keys: Seq<Seq<u8>>)
    requires
        strictly_ascending(keys),
    ensures
        never_descending(keys),
{
    assert forall|i: int| 0 <= i < keys.len() - 1 implies !bytes_lt(
        keys[i + 1],
        #[trigger] keys[i],
    ) by {
        lemma_bytes_lt_asymmetric(keys[i], keys[i + 1]);
    }
}

/// Keys that already ascend are left in their order.
pub proof fn lemma_key_order_of_ascending(keys: Seq<Seq<u8>>)
    requires
        strictly_ascending(keys),
    ensures
        key_order(keys) == Seq::new(keys.len(), |i: int| i),
{
    lemma_ascending_never_descends(keys);
    lemma_key_order_of_sorted(keys);
}

/// Along keys that ascend strictly, every key comes before every later
/// one.
pub proof fn lemma_ascending_pairwise(keys: Seq<Seq<u8>>, i: int, j: int)
    requires
        strictly_ascending(keys),
        0 <= i < j < keys.len(),
    ensures
        bytes_lt(keys[i], keys[j]),
    decreases j - i,
{
    if i + 1 < j {
        lemma_ascending_pairwise(keys, i, j - 1);
        assert(bytes_lt(keys[j - 1], keys[j - 1 + 1]));
        lemma_bytes_lt_transitive(keys[i], keys[j - 1], keys[j]);
    }
}

/// Whether `a` comes strictly before `b` in lexicographic byte order.
pub fn key_before(a: &[u8], b: &[u8]) -> (before: bool)
    ensures
        before == bytes_lt(a@, b@),
{
    let mut i: usize = 0;
    assert(a@.skip(0) =~= a@ && b@.skip(0) =~= b@);
    while i < a.len() && i < b.len() && a[i] == b[i]
        invariant
            i <= a.len(),
            i <= b.len(),
            bytes_lt(a@, b@) == bytes_lt(a@.skip(i as int), b@.skip(i as int)),
        decreases a.len() - i,
    {
        proof {
            let ra = a@.skip(i as int);
            let rb = b@.skip(i as int);
            assert(ra[0] == a@[i as int] && rb[0] == b@[i as int]);
            assert(ra.drop_first() =~= a@.skip(i + 1));
            assert(rb.drop_first() =~= b@.skip(i + 1));
        }
        i += 1;
    }
    proof {
        let ra = a@.skip(i as int);
        let rb = b@.skip(i as int);
        if i < a.len() {
            assert(ra[0] == a@[i as int]);
        }
        if i < b.len() {
            assert(rb[0] == b@[i as int]);
        }
    }
    if i >= b.len() {
        false
    } else if i >= a.len() {
        true
    } else {
        a[i] < b[i]
    }
}

} // verus!
