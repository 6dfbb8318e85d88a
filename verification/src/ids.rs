//! Numbers for functions, in the order in which they come up.

use crate::ordered::{keys, SortedMap};
use crate::text::texts;
use vstd::prelude::*;

verus! {

/// The numbers of functions, by name.
pub type FunctionIds = SortedMap<String, u64>;

/// The names that have come up, with one more.
pub open spec fn with_name(order: Seq<Seq<char>>, name: Seq<char>) -> Seq<Seq<char>> {
    if order.contains(name) {
        order
    } else {
        order.push(name)
    }
}

/// The names that have come up, with those of a list.
pub open spec fn with_names(order: Seq<Seq<char>>, names: Seq<Seq<char>>) -> Seq<Seq<char>>
    decreases names.len(),
{
    if names.len() == 0 {
        order
    } else {
        with_name(with_names(order, names.drop_last()), names.last())
    }
}

/// Whether the functions are numbered in the order in which they came up.
pub open spec fn numbered(ids: FunctionIds, order: Seq<Seq<char>>) -> bool {
    &&& order.no_duplicates()
    &&& ids.seq().len() == order.len()
    &&& forall|name: Seq<char>| #[trigger] ids@.contains_key(name) <==> order.contains(name)
    &&& forall|name: Seq<char>| #[trigger]
        ids@.contains_key(name) ==> ids@[name] == order.index_of(name)
}

pub proof fn lemma_with_name_keeps(order: Seq<Seq<char>>, name: Seq<char>, k: Seq<char>)
    requires
        order.no_duplicates(),
    ensures
        with_name(order, name).no_duplicates(),
        with_name(order, name).contains(k) <==> order.contains(k) || k == name,
        order.contains(k) ==> with_name(order, name).index_of(k) == order.index_of(k),
        !order.contains(name) ==> with_name(order, name).index_of(name) == order.len(),
{
    let more = with_name(order, name);
    if !order.contains(name) {
        assert(more.no_duplicates()) by {
            assert forall|i: int, j: int| 0 <= i < j < more.len() implies more[i] != more[j] by {
                if j == order.len() {
                    assert(order.contains(order[i]));
                }
            }
        }
        assert(more[order.len() as int] == name);
        assert(more.contains(name));
        if order.contains(k) {
            let i = order.index_of(k);
            assert(more[i] == k);
            assert(more.contains(k));
        }
        if more.contains(k) && k != name {
            let i = more.index_of(k);
            assert(order[i] == k);
        }
    }
}

/// Numbers one more function.
pub(crate) fn number_name(ids: &mut FunctionIds, name: &String, Ghost(order): Ghost<Seq<Seq<char>>>)
    requires
        numbered(*old(ids), order),
    ensures
        numbered(*final(ids), with_name(order, name@)),
{
    let ghost before = ids@;
    let ghost more = with_name(order, name@);
    assert(before.contains_key(name@) <==> order.contains(name@));
    if !ids.contains(name) {
        let id = ids.len() as u64;
        ids.insert(name.clone(), id);
    }
    proof {
        lemma_with_name_keeps(order, name@, name@);
        assert forall|k: Seq<char>| #[trigger] ids@.contains_key(k) <==> more.contains(k) by {
            lemma_with_name_keeps(order, name@, k);
            assert(before.contains_key(k) <==> order.contains(k));
        }
        assert forall|k: Seq<char>| #[trigger] ids@.contains_key(k) implies ids@[k]
            == more.index_of(k) by {
            lemma_with_name_keeps(order, name@, k);
            assert(before.contains_key(k) <==> order.contains(k));
        }
    }
}

/// Numbers the functions of a list.
pub(crate) fn number_names(
    ids: &mut FunctionIds,
    names: &[String],
    Ghost(order): Ghost<Seq<Seq<char>>>,
)
    requires
        numbered(*old(ids), order),
    ensures
        numbered(*final(ids), with_names(order, texts(names@))),
{
    let ghost all = texts(names@);
    let n = names.len();
    let mut i: usize = 0;
    assert(all.take(0).len() == 0);
    while i < n
        invariant
            all == texts(names@),
            n == names@.len(),
            i <= n,
            numbered(*ids, with_names(order, all.take(i as int))),
        decreases n - i,
    {
        assert(all.take(i + 1).drop_last() =~= all.take(i as int));
        assert(all[i as int] == names@[i as int]@);
        number_name(ids, &names[i], Ghost(with_names(order, all.take(i as int))));
        i = i + 1;
    }
    assert(all.take(n as int) =~= all);
}

/// Numbers the functions that are keys of a map, in the order of their names.
pub(crate) fn number_keys<V>(
    ids: &mut FunctionIds,
    names: &SortedMap<String, V>,
    Ghost(order): Ghost<Seq<Seq<char>>>,
)
    requires
        numbered(*old(ids), order),
    ensures
        numbered(*final(ids), with_names(order, keys(names.seq()))),
{
    let ghost all = keys(names.seq());
    let n = names.len();
    let mut i: usize = 0;
    assert(all.take(0).len() == 0);
    while i < n
        invariant
            all == keys(names.seq()),
            n == all.len(),
            i <= n,
            numbered(*ids, with_names(order, all.take(i as int))),
        decreases n - i,
    {
        assert(all.take(i + 1).drop_last() =~= all.take(i as int));
        number_name(ids, names.key_at(i), Ghost(with_names(order, all.take(i as int))));
        i = i + 1;
    }
    assert(all.take(n as int) =~= all);
}

/// The names of a list are among those that have come up.
pub proof fn lemma_with_names(order: Seq<Seq<char>>, names: Seq<Seq<char>>, k: Seq<char>)
    requires
        order.no_duplicates(),
    ensures
        with_names(order, names).no_duplicates(),
        with_names(order, names).contains(k) <==> order.contains(k) || names.contains(k),
    decreases names.len(),
{
    if names.len() > 0 {
        lemma_with_names(order, names.drop_last(), k);
        lemma_with_name_keeps(with_names(order, names.drop_last()), names.last(), k);
        if names.contains(k) {
            let i = names.index_of(k);
            if i < names.len() - 1 {
                assert(names.drop_last()[i] == k);
            }
        }
        if names.drop_last().contains(k) {
            let i = names.drop_last().index_of(k);
            assert(names[i] == k);
        }
        if names.last() == k {
            assert(names[names.len() - 1] == k);
        }
    }
}

/// The number of a function.
pub(crate) fn id_of(ids: &FunctionIds, name: &String, Ghost(order): Ghost<Seq<Seq<char>>>) -> (r: u64)
    requires
        numbered(*ids, order),
        order.contains(name@),
    ensures
        r == order.index_of(name@),
{
    assert(ids@.contains_key(name@));
    *ids.get(name).unwrap()
}

/// Functions with different names have different numbers, and the numbers have no gaps.
pub proof fn law_numbers_tell_functions_apart(
    ids: FunctionIds,
    order: Seq<Seq<char>>,
    a: Seq<char>,
    b: Seq<char>,
)
    requires
        numbered(ids, order),
        ids@.contains_key(a),
        ids@.contains_key(b),
    ensures
        ids@[a] == ids@[b] ==> a == b,
        ids@[a] < ids.seq().len(),
{
    assert(order.contains(a) && order.contains(b));
    let i = choose|i: int| 0 <= i < order.len() && order[i] == a;
    let j = choose|j: int| 0 <= j < order.len() && order[j] == b;
    assert(order.index_of(a) == i && order.index_of(b) == j);
}

} // verus!
