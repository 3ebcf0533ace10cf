//! Association lists of byte-string keys, modelled as `Map`s. The first
//! entry with a key wins, so a list models the map that inserting its
//! entries in reverse order would build.

use vstd::prelude::*;

verus! {

/// The map that an entry list denotes; an earlier entry shadows a later
/// one with the same key.
pub open spec fn map_of<V>(es: Seq<(Seq<u8>, V)>) -> Map<Seq<u8>, V>
    decreases es.len(),
{
    if es.len() == 0 {
        Map::empty()
    } else {
        map_of(es.drop_first()).insert(es[0].0, es[0].1)
    }
}

/// True when some entry of `es` has the key `k`.
pub open spec fn has_key<V>(es: Seq<(Seq<u8>, V)>, k: Seq<u8>) -> bool {
    exists|i: int| 0 <= i < es.len() && (#[trigger] es[i]).0 == k
}

/// True when no two entries of `es` share a key.
pub open spec fn unique_keys<V>(es: Seq<(Seq<u8>, V)>) -> bool {
    forall|i: int, j: int| 0 <= i < j < es.len() ==> (#[trigger] es[i]).0 != (#[trigger] es[j]).0
}

/// A key is in the denoted map exactly when some entry holds it.
pub proof fn lemma_map_of_contains<V>(es: Seq<(Seq<u8>, V)>, k: Seq<u8>)
    ensures
        map_of(es).dom().contains(k) == has_key(es, k),
    decreases es.len(),
{
    if es.len() > 0 {
        lemma_map_of_contains(es.drop_first(), k);
        if es[0].0 == k {
            assert(has_key(es, k));
        } else if map_of(es).dom().contains(k) {
            let i = choose|i: int| 0 <= i < es.drop_first().len() && es.drop_first()[i].0 == k;
            assert(es[i + 1].0 == k);
        } else if has_key(es, k) {
            let i = choose|i: int| 0 <= i < es.len() && es[i].0 == k;
            assert(es.drop_first()[i - 1].0 == k);
        }
    }
}

/// The first entry with a key gives the key's value in the map.
pub proof fn lemma_map_of_first<V>(es: Seq<(Seq<u8>, V)>, k: int)
    requires
        0 <= k < es.len(),
        forall|j: int| 0 <= j < k ==> es[j].0 != es[k].0,
    ensures
        map_of(es).dom().contains(es[k].0),
        map_of(es)[es[k].0] == es[k].1,
    decreases es.len(),
{
    if k > 0 {
        assert forall|j: int| 0 <= j < k - 1 implies (#[trigger] es.drop_first()[j]).0
            != es.drop_first()[k - 1].0 by {
            assert(es[j + 1].0 != es[k].0);
        }
        lemma_map_of_first(es.drop_first(), k - 1);
    }
}

/// Entry lists with no key in common denote maps whose union either way
/// is the map of the concatenated list.
pub proof fn lemma_map_of_concat<V>(a: Seq<(Seq<u8>, V)>, b: Seq<(Seq<u8>, V)>)
    requires
        forall|k: Seq<u8>| !(has_key(a, k) && has_key(b, k)),
    ensures
        map_of(a + b) == map_of(a).union_prefer_right(map_of(b)),
        map_of(a).dom().disjoint(map_of(b).dom()),
    decreases a.len(),
{
    assert forall|k: Seq<u8>| !(map_of(a).dom().contains(k) && map_of(b).dom().contains(
        k,
    )) by {
        lemma_map_of_contains(a, k);
        lemma_map_of_contains(b, k);
    }
    if a.len() == 0 {
        assert(a + b =~= b);
        assert(map_of(a).union_prefer_right(map_of(b)) =~= map_of(b));
    } else {
        assert forall|k: Seq<u8>| !(has_key(a.drop_first(), k) && has_key(b, k)) by {
            if has_key(a.drop_first(), k) {
                let i = choose|i: int|
                    0 <= i < a.drop_first().len() && a.drop_first()[i].0 == k;
                assert(a[i + 1].0 == k);
                assert(has_key(a, k));
            }
        }
        lemma_map_of_concat(a.drop_first(), b);
        assert((a + b).drop_first() =~= a.drop_first() + b);
        assert(!map_of(b).dom().contains(a[0].0)) by {
            lemma_map_of_contains(b, a[0].0);
            assert(a[0].0 == a[0].0 && has_key(a, a[0].0));
        }
        assert(map_of(a.drop_first() + b).insert(a[0].0, a[0].1) =~= map_of(
            a.drop_first(),
        ).insert(a[0].0, a[0].1).union_prefer_right(map_of(b)));
    }
}

/// Appending an entry changes the map only where the key was free.
pub proof fn lemma_map_of_push<V>(es: Seq<(Seq<u8>, V)>, k: Seq<u8>, v: V)
    ensures
        map_of(es.push((k, v))) == if has_key(es, k) {
            map_of(es)
        } else {
            map_of(es).insert(k, v)
        },
    decreases es.len(),
{
    if es.len() == 0 {
        assert(es.push((k, v)).drop_first() =~= es);
        assert(map_of(es.push((k, v))) =~= map_of(es).insert(k, v));
    } else {
        assert(es.push((k, v)).drop_first() =~= es.drop_first().push((k, v)));
        lemma_map_of_push(es.drop_first(), k, v);
        if has_key(es, k) {
            if es[0].0 == k {
                if has_key(es.drop_first(), k) {
                    assert(map_of(es.push((k, v))) =~= map_of(es));
                } else {
                    assert(map_of(es.push((k, v))) =~= map_of(es));
                }
            } else {
                let i = choose|i: int| 0 <= i < es.len() && es[i].0 == k;
                assert(es.drop_first()[i - 1].0 == k);
                assert(has_key(es.drop_first(), k));
                assert(map_of(es.push((k, v))) =~= map_of(es));
            }
        } else {
            assert(!has_key(es.drop_first(), k)) by {
                if has_key(es.drop_first(), k) {
                    let i = choose|i: int|
                        0 <= i < es.drop_first().len() && es.drop_first()[i].0 == k;
                    assert(es[i + 1].0 == k);
                }
            }
            assert(map_of(es.push((k, v))) =~= map_of(es).insert(k, v));
        }
    }
}

/// Changing the value of one entry, no key repeated, changes the map at
/// that entry's key alone.
pub proof fn lemma_map_of_update<V>(es: Seq<(Seq<u8>, V)>, i: int, v: V)
    requires
        unique_keys(es),
        0 <= i < es.len(),
    ensures
        map_of(es.update(i, (es[i].0, v))) == map_of(es).insert(es[i].0, v),
    decreases es.len(),
{
    let es2 = es.update(i, (es[i].0, v));
    if i == 0 {
        assert(es2.drop_first() =~= es.drop_first());
        assert(map_of(es2) =~= map_of(es).insert(es[0].0, v));
    } else {
        assert forall|a: int, b: int|
            0 <= a < b < es.drop_first().len() implies (#[trigger] es.drop_first()[a]).0 != (
        #[trigger] es.drop_first()[b]).0 by {
            assert(es[a + 1].0 != es[b + 1].0);
        }
        assert(es2.drop_first() =~= es.drop_first().update(i - 1, (es[i].0, v)));
        assert(es.drop_first()[i - 1] == es[i]);
        lemma_map_of_update(es.drop_first(), i - 1, v);
        assert(es[0].0 != es[i].0);
        assert(map_of(es.drop_first()).insert(es[i].0, v).insert(es[0].0, es[0].1) =~= map_of(
            es.drop_first(),
        ).insert(es[0].0, es[0].1).insert(es[i].0, v));
    }
}

/// With no key repeated, the denoted map has one entry per list entry.
pub proof fn lemma_map_of_len<V>(es: Seq<(Seq<u8>, V)>)
    requires
        unique_keys(es),
    ensures
        map_of(es).dom().len() == es.len(),
        map_of(es).dom().finite(),
    decreases es.len(),
{
    if es.len() > 0 {
        assert forall|i: int, j: int|
            0 <= i < j < es.drop_first().len() implies (#[trigger] es.drop_first()[i]).0 != (
        #[trigger] es.drop_first()[j]).0 by {
            assert(es[i + 1].0 != es[j + 1].0);
        }
        lemma_map_of_len(es.drop_first());
        assert(!map_of(es.drop_first()).dom().contains(es[0].0)) by {
            lemma_map_of_contains(es.drop_first(), es[0].0);
            if has_key(es.drop_first(), es[0].0) {
                let i = choose|i: int|
                    0 <= i < es.drop_first().len() && es.drop_first()[i].0 == es[0].0;
                assert(es[0].0 != es[i + 1].0);
            }
        }
    }
}

} // verus!
