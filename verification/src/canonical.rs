//! Canonical form: a value has one canonical encoding, whatever the order
//! in which its dictionaries were built.

use crate::grammar::{canonical, encode_value, keys_of};
use crate::order::{
    bytes_lt, key_order, lemma_ascending_pairwise, lemma_bytes_lt_asymmetric,
    lemma_bytes_lt_irreflexive, lemma_bytes_lt_total, lemma_key_order_of_sorted,
    lemma_key_order_sorts, never_descending, strictly_ascending,
};
use crate::value::Bencode;
use vstd::prelude::*;

verus! {

/// Whether no key occurs twice among the entries.
pub open spec fn unique_keys(entries: Seq<(Seq<u8>, Bencode)>) -> bool {
    forall|i: int, j: int|
        0 <= i < j < entries.len() ==> (#[trigger] entries[i]).0 != (#[trigger] entries[j]).0
}

/// Whether the entry `e` has a partner in `y`: an entry with the same key
/// and a value of the same content.
pub open spec fn has_partner(e: (Seq<u8>, Bencode), y: Seq<(Seq<u8>, Bencode)>) -> bool
    decreases e,
{
    exists|j: int|
        #![trigger y[j]]
        0 <= j < y.len() && y[j].0 == e.0 && same_content(e.1, y[j].1)
}

/// Whether every entry of `x` has a partner in `y`.
pub open spec fn covered_by(x: Seq<(Seq<u8>, Bencode)>, y: Seq<(Seq<u8>, Bencode)>) -> bool
    decreases x,
{
    forall|i: int| 0 <= i < x.len() ==> has_partner(#[trigger] x[i], y)
}

/// Whether two values hold the same, dictionaries taken as sets of entries:
/// integers and strings are equal, lists hold the same in the same order,
/// and dictionaries, in which no key occurs twice, hold the same under the
/// same keys in whatever order.
pub open spec fn same_content(a: Bencode, b: Bencode) -> bool
    decreases a,
{
    match a {
        Bencode::Integer(x) => b == a,
        Bencode::Bytes(x) => b == a,
        Bencode::List(x) => {
            &&& b is List
            &&& x.len() == b->List_0.len()
            &&& forall|i: int| 0 <= i < x.len() ==> same_content(#[trigger] x[i], b->List_0[i])
        },
        Bencode::Dict(x) => {
            &&& b is Dict
            &&& x.len() == b->Dict_0.len()
            &&& unique_keys(x)
            &&& unique_keys(b->Dict_0)
            &&& covered_by(x, b->Dict_0)
        },
    }
}

/// The entries of a dictionary as `canonical` writes them: sorted by key,
/// each value in canonical form.
pub open spec fn sorted_entries(entries: Seq<(Seq<u8>, Bencode)>) -> Seq<(Seq<u8>, Bencode)> {
    canonical(Bencode::Dict(entries))->Dict_0
}

/// Whether in every dictionary of the value, at any depth, the keys never
/// descend.
pub open spec fn is_sorted(v: Bencode) -> bool
    decreases v,
{
    match v {
        Bencode::Integer(i) => true,
        Bencode::Bytes(b) => true,
        Bencode::List(items) => forall|i: int|
            0 <= i < items.len() ==> is_sorted(#[trigger] items[i]),
        Bencode::Dict(entries) => {
            &&& never_descending(keys_of(entries))
            &&& forall|i: int| 0 <= i < entries.len() ==> is_sorted((#[trigger] entries[i]).1)
        },
    }
}

/// What `canonical` makes of a dictionary: as many entries, each the entry
/// that `key_order` names with its value in canonical form, and every
/// entry at some place.
pub proof fn lemma_sorted_entries(entries: Seq<(Seq<u8>, Bencode)>)
    ensures
        sorted_entries(entries).len() == entries.len(),
        key_order(keys_of(entries)).len() == entries.len(),
        never_descending(keys_of(sorted_entries(entries))),
        forall|k: int|
            0 <= k < entries.len() ==> {
                let at = #[trigger] key_order(keys_of(entries))[k];
                &&& 0 <= at < entries.len()
                &&& sorted_entries(entries)[k] == (entries[at].0, canonical(entries[at].1))
            },
        forall|i: int| 0 <= i < entries.len() ==> key_order(keys_of(entries)).contains(i),
        unique_keys(entries) ==> strictly_ascending(keys_of(sorted_entries(entries))),
{
    let keys = keys_of(entries);
    let order = key_order(keys);
    let sorted = sorted_entries(entries);
    lemma_key_order_sorts(keys);
    assert forall|k: int| 0 <= k < entries.len() implies {
        let at = #[trigger] order[k];
        &&& 0 <= at < entries.len()
        &&& sorted[k] == (entries[at].0, canonical(entries[at].1))
    } by {
        assert(0 <= order[k] < keys.len());
    }
    let written = keys_of(sorted);
    assert forall|k: int| 0 <= k < written.len() - 1 implies !bytes_lt(
        written[k + 1],
        #[trigger] written[k],
    ) by {
        assert(0 <= order[k] < keys.len() && 0 <= order[k + 1] < keys.len());
        assert(written[k] == keys[order[k]]);
        assert(written[k + 1] == keys[order[k + 1]]);
    }
    if unique_keys(entries) {
        assert forall|k: int| 0 <= k < written.len() - 1 implies bytes_lt(
            #[trigger] written[k],
            written[k + 1],
        ) by {
            let i = order[k];
            let j = order[k + 1];
            assert(0 <= i < keys.len() && 0 <= j < keys.len());
            assert(written[k] == entries[i].0);
            assert(written[k + 1] == entries[j].0);
            assert(i != j);
            if i < j {
                assert(entries[i].0 != entries[j].0);
            } else {
                assert(entries[j].0 != entries[i].0);
            }
            assert(!bytes_lt(written[k + 1], written[k]));
            lemma_bytes_lt_total(written[k], written[k + 1]);
        }
    }
}

/// Entries whose keys ascend strictly, and of which each occurs among the
/// others, are the same entries at the same places.
pub proof fn lemma_sorted_is_unique(s: Seq<(Seq<u8>, Bencode)>, t: Seq<(Seq<u8>, Bencode)>)
    requires
        s.len() == t.len(),
        strictly_ascending(keys_of(s)),
        strictly_ascending(keys_of(t)),
        forall|k: int| 0 <= k < s.len() ==> t.contains(#[trigger] s[k]),
        forall|l: int| 0 <= l < t.len() ==> s.contains(#[trigger] t[l]),
    ensures
        s == t,
    decreases s.len(),
{
    if s.len() == 0 {
        assert(s =~= t);
    } else {
        let ks = keys_of(s);
        let kt = keys_of(t);
        assert(t.contains(s[0]) && s.contains(t[0]));
        let l0 = choose|l: int| 0 <= l < t.len() && t[l] == s[0];
        let k0 = choose|k: int| 0 <= k < s.len() && s[k] == t[0];
        if l0 > 0 {
            lemma_ascending_pairwise(kt, 0, l0);
            assert(bytes_lt(t[0].0, s[0].0));
            if k0 == 0 {
                lemma_bytes_lt_irreflexive(s[0].0);
            } else {
                lemma_ascending_pairwise(ks, 0, k0);
                lemma_bytes_lt_asymmetric(s[0].0, s[k0].0);
            }
        }
        assert(s[0] == t[0]);
        let s1 = s.drop_first();
        let t1 = t.drop_first();
        assert forall|i: int| 0 <= i < keys_of(s1).len() - 1 implies bytes_lt(
            #[trigger] keys_of(s1)[i],
            keys_of(s1)[i + 1],
        ) by {
            assert(keys_of(s1)[i] == ks[i + 1] && keys_of(s1)[i + 1] == ks[i + 1 + 1]);
        }
        assert forall|i: int| 0 <= i < keys_of(t1).len() - 1 implies bytes_lt(
            #[trigger] keys_of(t1)[i],
            keys_of(t1)[i + 1],
        ) by {
            assert(keys_of(t1)[i] == kt[i + 1] && keys_of(t1)[i + 1] == kt[i + 1 + 1]);
        }
        assert forall|k: int| 0 <= k < s1.len() implies t1.contains(#[trigger] s1[k]) by {
            assert(s1[k] == s[k + 1]);
            assert(t.contains(s[k + 1]));
            let l = choose|l: int| 0 <= l < t.len() && t[l] == s[k + 1];
            if l == 0 {
                lemma_ascending_pairwise(ks, 0, k + 1);
                lemma_bytes_lt_irreflexive(s[0].0);
            }
            assert(t1[l - 1] == s1[k]);
        }
        assert forall|l: int| 0 <= l < t1.len() implies s1.contains(#[trigger] t1[l]) by {
            assert(t1[l] == t[l + 1]);
            assert(s.contains(t[l + 1]));
            let k = choose|k: int| 0 <= k < s.len() && s[k] == t[l + 1];
            if k == 0 {
                lemma_ascending_pairwise(kt, 0, l + 1);
                lemma_bytes_lt_irreflexive(t[0].0);
            }
            assert(s1[k - 1] == t1[l]);
        }
        lemma_sorted_is_unique(s1, t1);
        assert(s =~= seq![s[0]] + s1);
        assert(t =~= seq![t[0]] + t1);
    }
}

/// The place in `y` of the partner of entry `i` of `x`.
pub open spec fn partner_of(
    x: Seq<(Seq<u8>, Bencode)>,
    y: Seq<(Seq<u8>, Bencode)>,
    i: int,
) -> int {
    choose|j: int|
        #![trigger y[j]]
        0 <= j < y.len() && y[j].0 == x[i].0 && same_content(x[i].1, y[j].1)
}

/// The partner of an entry is an entry with the same key and a value of
/// the same content.
pub proof fn lemma_partner_of(x: Seq<(Seq<u8>, Bencode)>, y: Seq<(Seq<u8>, Bencode)>, i: int)
    requires
        covered_by(x, y),
        0 <= i < x.len(),
    ensures
        0 <= partner_of(x, y, i) < y.len(),
        y[partner_of(x, y, i)].0 == x[i].0,
        same_content(x[i].1, y[partner_of(x, y, i)].1),
{
    assert(has_partner(x[i], y));
}

/// The places in `y` of the partners of the first `n` entries of `x`.
pub open spec fn partners(
    x: Seq<(Seq<u8>, Bencode)>,
    y: Seq<(Seq<u8>, Bencode)>,
    n: int,
) -> Set<int>
    decreases n,
{
    if n <= 0 {
        Set::empty()
    } else {
        partners(x, y, n - 1).insert(partner_of(x, y, n - 1))
    }
}

/// Where no key of `x` occurs twice, the partners of its first `n` entries
/// are `n` places of `y`, and each is where the partner of one of them is.
proof fn lemma_partners(x: Seq<(Seq<u8>, Bencode)>, y: Seq<(Seq<u8>, Bencode)>, n: int)
    requires
        0 <= n <= x.len(),
        unique_keys(x),
        covered_by(x, y),
    ensures
        partners(x, y, n).finite(),
        partners(x, y, n).len() == n,
        forall|j: int|
            partners(x, y, n).contains(j) ==> 0 <= j < y.len() && exists|i: int|
                0 <= i < n && #[trigger] partner_of(x, y, i) == j,
    decreases n,
{
    if n > 0 {
        lemma_partners(x, y, n - 1);
        lemma_partner_of(x, y, n - 1);
        let before = partners(x, y, n - 1);
        let j = partner_of(x, y, n - 1);
        if before.contains(j) {
            let i = choose|i: int| 0 <= i < n - 1 && #[trigger] partner_of(x, y, i) == j;
            lemma_partner_of(x, y, i);
            assert(x[i].0 != x[n - 1].0);
        }
        assert forall|l: int| partners(x, y, n).contains(l) implies 0 <= l < y.len()
            && exists|i: int| 0 <= i < n && #[trigger] partner_of(x, y, i) == l by {
            if l == j {
                assert(partner_of(x, y, n - 1) == l);
            } else {
                assert(before.contains(l));
                let i = choose|i: int| 0 <= i < n - 1 && #[trigger] partner_of(x, y, i) == l;
                assert(partner_of(x, y, i) == l);
            }
        }
    }
}

/// Whether place `j` of `y` is where the partner of an entry of `x` is.
pub open spec fn is_partner_place(
    x: Seq<(Seq<u8>, Bencode)>,
    y: Seq<(Seq<u8>, Bencode)>,
    j: int,
) -> bool {
    exists|i: int| 0 <= i < x.len() && #[trigger] partner_of(x, y, i) == j
}

/// Where `y` has as many entries as `x`, no key of `x` occurs twice, and
/// every entry of `x` has a partner in `y`, every entry of `y` is the
/// partner of one of `x`.
pub proof fn lemma_covering_is_onto(x: Seq<(Seq<u8>, Bencode)>, y: Seq<(Seq<u8>, Bencode)>)
    requires
        x.len() == y.len(),
        unique_keys(x),
        covered_by(x, y),
    ensures
        forall|j: int| 0 <= j < y.len() ==> #[trigger] is_partner_place(x, y, j),
{
    let n = x.len() as int;
    lemma_partners(x, y, n);
    let all = vstd::set_lib::set_int_range(0, n);
    let hit = partners(x, y, n);
    vstd::set_lib::lemma_int_range(0, n);
    assert(hit.subset_of(all));
    vstd::set_lib::lemma_subset_equality(hit, all);
    assert forall|j: int| 0 <= j < y.len() implies #[trigger] is_partner_place(x, y, j) by {
        assert(all.contains(j));
        assert(hit.contains(j));
        let i = choose|i: int| 0 <= i < n && #[trigger] partner_of(x, y, i) == j;
        assert(0 <= i < x.len() && partner_of(x, y, i) == j);
    }
}

/// Having the same content goes both ways.
pub proof fn lemma_same_content_symmetric(a: Bencode, b: Bencode)
    requires
        same_content(a, b),
    ensures
        same_content(b, a),
    decreases a,
{
    match a {
        Bencode::Integer(x) => {},
        Bencode::Bytes(x) => {},
        Bencode::List(x) => {
            let y = b->List_0;
            assert forall|i: int| 0 <= i < y.len() implies same_content(#[trigger] y[i], x[i]) by {
                assert(same_content(x[i], y[i]));
                lemma_same_content_symmetric(x[i], y[i]);
            }
        },
        Bencode::Dict(x) => {
            let y = b->Dict_0;
            lemma_covering_is_onto(x, y);
            assert forall|j: int| 0 <= j < y.len() implies has_partner(#[trigger] y[j], x) by {
                assert(is_partner_place(x, y, j));
                let i = choose|i: int| 0 <= i < x.len() && #[trigger] partner_of(x, y, i) == j;
                lemma_partner_of(x, y, i);
                lemma_same_content_symmetric(x[i].1, y[j].1);
                let back = x[i];
                assert(0 <= i < x.len() && x[i].0 == y[j].0 && same_content(y[j].1, x[i].1));
            }
            assert(covered_by(y, x));
        },
    }
}

/// Values of the same content have the same canonical form: the order in
/// which a dictionary was built does not show in it, at any depth.
pub proof fn lemma_same_content_same_canonical(a: Bencode, b: Bencode)
    requires
        same_content(a, b),
    ensures
        canonical(a) == canonical(b),
    decreases a,
{
    match a {
        Bencode::Integer(x) => {},
        Bencode::Bytes(x) => {},
        Bencode::List(x) => {
            let y = b->List_0;
            let ca = canonical(a)->List_0;
            let cb = canonical(b)->List_0;
            assert forall|i: int| 0 <= i < x.len() implies ca[i] == cb[i] by {
                assert(same_content(x[i], y[i]));
                lemma_same_content_same_canonical(x[i], y[i]);
            }
            assert(ca =~= cb);
        },
        Bencode::Dict(x) => {
            let y = b->Dict_0;
            let s = sorted_entries(x);
            let t = sorted_entries(y);
            let ox = key_order(keys_of(x));
            let oy = key_order(keys_of(y));
            lemma_sorted_entries(x);
            lemma_sorted_entries(y);
            lemma_covering_is_onto(x, y);
            assert forall|k: int| 0 <= k < s.len() implies t.contains(#[trigger] s[k]) by {
                let i = ox[k];
                let j = partner_of(x, y, i);
                lemma_partner_of(x, y, i);
                lemma_same_content_same_canonical(x[i].1, y[j].1);
                assert(oy.contains(j));
                let l = choose|l: int| 0 <= l < oy.len() && oy[l] == j;
                assert(t[l] == s[k]);
            }
            assert forall|l: int| 0 <= l < t.len() implies s.contains(#[trigger] t[l]) by {
                let j = oy[l];
                assert(is_partner_place(x, y, j));
                let i = choose|i: int| 0 <= i < x.len() && #[trigger] partner_of(x, y, i) == j;
                lemma_partner_of(x, y, i);
                lemma_same_content_same_canonical(x[i].1, y[j].1);
                assert(ox.contains(i));
                let k = choose|k: int| 0 <= k < ox.len() && ox[k] == i;
                assert(s[k] == t[l]);
            }
            lemma_sorted_is_unique(s, t);
        },
    }
}

/// The encoding does not depend on the order in which dictionaries were
/// built: values of the same content are written as the same bytes.
pub proof fn lemma_encoding_ignores_order(a: Bencode, b: Bencode)
    requires
        same_content(a, b),
    ensures
        encode_value(a) == encode_value(b),
{
    lemma_same_content_same_canonical(a, b);
}

/// In the canonical form of a value the keys of every dictionary are in
/// order, and putting it in canonical form again changes nothing.
pub proof fn lemma_canonical_is_sorted(v: Bencode)
    ensures
        is_sorted(canonical(v)),
        canonical(canonical(v)) == canonical(v),
    decreases v,
{
    match v {
        Bencode::Integer(x) => {},
        Bencode::Bytes(x) => {},
        Bencode::List(x) => {
            let c = canonical(v)->List_0;
            let cc = canonical(canonical(v))->List_0;
            assert forall|i: int| 0 <= i < c.len() implies is_sorted(#[trigger] c[i]) && cc[i]
                == c[i] by {
                lemma_canonical_is_sorted(x[i]);
            }
            assert(cc =~= c);
        },
        Bencode::Dict(x) => {
            let s = sorted_entries(x);
            let order = key_order(keys_of(x));
            lemma_sorted_entries(x);
            assert forall|k: int| 0 <= k < s.len() implies is_sorted((#[trigger] s[k]).1)
                && canonical(s[k].1) == s[k].1 by {
                let at = order[k];
                lemma_canonical_is_sorted(x[at].1);
            }
            lemma_key_order_of_sorted(keys_of(s));
            let again = sorted_entries(s);
            assert forall|k: int| 0 <= k < s.len() implies again[k] == s[k] by {
                assert(key_order(keys_of(s))[k] == k);
            }
            assert(again =~= s);
        },
    }
}

/// The bytes of a value are those of its canonical form.
pub proof fn lemma_encode_of_canonical(v: Bencode)
    ensures
        encode_value(canonical(v)) == encode_value(v),
{
    lemma_canonical_is_sorted(v);
}

} // verus!
