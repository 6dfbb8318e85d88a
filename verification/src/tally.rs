//! Adding up counts by key.

use crate::ordered::{has_key, Key, SortedMap};
use vstd::prelude::*;

verus! {

/// The sum of the counts that a key has in a list.
pub open spec fn tally<M>(items: Seq<(M, u64)>, k: M) -> nat
    decreases items.len(),
{
    if items.len() == 0 {
        0
    } else {
        tally(items.drop_last(), k) + (if items.last().0 == k {
            items.last().1 as nat
        } else {
            0
        })
    }
}

/// Whether every key has a sum of 64 bits.
pub open spec fn tally_fits<M>(items: Seq<(M, u64)>) -> bool {
    forall|k: M| #[trigger] tally(items, k) <= u64::MAX
}

/// Whether a map holds the sum of the counts of every key in a list.
pub open spec fn is_tally<M>(map: Map<M, u64>, items: Seq<(M, u64)>) -> bool {
    &&& forall|k: M| #[trigger] map.contains_key(k) <==> has_key(items, k)
    &&& forall|k: M| #[trigger] map.contains_key(k) ==> map[k] == tally(items, k)
}

pub proof fn lemma_has_key_push<M, V>(items: Seq<(M, V)>, item: (M, V), k: M)
    ensures
        has_key(items.push(item), k) <==> has_key(items, k) || item.0 == k,
{
    let more = items.push(item);
    if has_key(more, k) {
        let i = choose|i: int| 0 <= i < more.len() && (#[trigger] more[i]).0 == k;
        if i < items.len() {
            assert(items[i].0 == k);
        }
    }
    if has_key(items, k) {
        let i = choose|i: int| 0 <= i < items.len() && (#[trigger] items[i]).0 == k;
        assert(more[i].0 == k);
    }
    if item.0 == k {
        assert(more[items.len() as int].0 == k);
    }
}

pub proof fn lemma_tally_push<M>(items: Seq<(M, u64)>, item: (M, u64), k: M)
    ensures
        tally(items.push(item), k) == tally(items, k) + (if item.0 == k {
            item.1 as nat
        } else {
            0
        }),
{
    assert(items.push(item).drop_last() =~= items);
}

/// A key that is not in a list has no sum.
pub proof fn lemma_tally_absent<M>(items: Seq<(M, u64)>, k: M)
    requires
        !has_key(items, k),
    ensures
        tally(items, k) == 0,
    decreases items.len(),
{
    if items.len() > 0 {
        assert(items[items.len() - 1].0 != k);
        assert(!has_key(items.drop_last(), k)) by {
            if has_key(items.drop_last(), k) {
                let i = choose|i: int|
                    0 <= i < items.drop_last().len() && (#[trigger] items.drop_last()[i]).0 == k;
                assert(items[i].0 == k);
            }
        }
        lemma_tally_absent(items.drop_last(), k);
    }
}

/// The sums of the first items of a list are no greater than those of the list.
pub proof fn lemma_tally_take<M>(items: Seq<(M, u64)>, n: int, k: M)
    requires
        0 <= n <= items.len(),
    ensures
        tally(items.take(n), k) <= tally(items, k),
    decreases items.len(),
{
    if n == items.len() {
        assert(items.take(n) =~= items);
    } else {
        lemma_tally_take(items.drop_last(), n, k);
        assert(items.drop_last().take(n) =~= items.take(n));
    }
}

/// The sum of a key in two lists.
pub proof fn lemma_tally_add<M>(a: Seq<(M, u64)>, b: Seq<(M, u64)>, k: M)
    ensures
        tally(a + b, k) == tally(a, k) + tally(b, k),
    decreases b.len(),
{
    if b.len() == 0 {
        assert(a + b =~= a);
    } else {
        lemma_tally_add(a, b.drop_last(), k);
        assert((a + b).drop_last() =~= a + b.drop_last());
    }
}

/// Adds a count to that of a key. Tells whether the sum fits; changes nothing if it does not.
pub(crate) fn add_count<K: Key>(
    map: &mut SortedMap<K, u64>,
    key: K,
    count: u64,
    Ghost(items): Ghost<Seq<(K::Model, u64)>>,
) -> (r: bool)
    requires
        is_tally(old(map)@, items),
    ensures
        r == (tally(items, key.key()) + count <= u64::MAX),
        r ==> is_tally(final(map)@, items.push((key.key(), count))),
        !r ==> final(map)@ == old(map)@,
{
    let ghost before = map@;
    let known: u64 = match map.get(&key) {
        Some(n) => *n,
        None => 0,
    };
    let ghost k = key.key();
    proof {
        if !before.contains_key(k) {
            lemma_tally_absent(items, k);
        }
    }
    match known.checked_add(count) {
        Some(sum) => {
            map.insert(key, sum);
            proof {
                let more = items.push((k, count));
                assert forall|l: K::Model| #[trigger]
                    map@.contains_key(l) <==> has_key(more, l) by {
                    lemma_has_key_push(items, (k, count), l);
                    assert(before.contains_key(l) <==> has_key(items, l));
                }
                assert forall|l: K::Model| #[trigger] map@.contains_key(l) implies map@[l] == tally(
                    more,
                    l,
                ) by {
                    lemma_tally_push(items, (k, count), l);
                    assert(l != k ==> before.contains_key(l));
                }
            }
            true
        },
        None => false,
    }
}

/// The value that a key has first in a list.
pub open spec fn firsts<M, V>(items: Seq<(M, V)>) -> Map<M, V>
    decreases items.len(),
{
    if items.len() == 0 {
        Map::empty()
    } else {
        let before = firsts(items.drop_last());
        if before.contains_key(items.last().0) {
            before
        } else {
            before.insert(items.last().0, items.last().1)
        }
    }
}

/// Sets the value of a key that has none.
pub(crate) fn add_first<K: Key, V>(
    map: &mut SortedMap<K, V>,
    key: K,
    value: V,
    Ghost(items): Ghost<Seq<(K::Model, V)>>,
)
    requires
        old(map)@ == firsts(items),
    ensures
        final(map)@ == firsts(items.push((key.key(), value))),
{
    assert(items.push((key.key(), value)).drop_last() =~= items);
    if !map.contains(&key) {
        map.insert(key, value);
    }
}

} // verus!
