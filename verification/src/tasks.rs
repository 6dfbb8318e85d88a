//! What a partition has to be given besides its own functions: the way in from an
//! entry point, and whatever lies around it.

use crate::coverage::{is_owned, owned_functions, FunctionCoverage};
use crate::linkage::lemma_ascending_unique;
use crate::ordered::{
    ascending, entries_map, has_key, lemma_entry, lemma_has_key_take, Key, NameSet, SortedMap,
};
use crate::text::{
    contains, copy_strings, ends_with, text_contains, text_ends_with, text_eq, text_lt, texts,
};
use vstd::prelude::*;

verus! {

/// Calls between functions, with how often each was seen.
pub type FunctionEdges = SortedMap<(String, String), u64>;

/// For every function, other functions in some relation to it.
pub type NameLists = SortedMap<String, Vec<String>>;

/// The calls that `func_edges` records.
pub type EdgeModel = Map<(Seq<char>, Seq<char>), u64>;

/// Whether `item` is in the list of `name`.
pub open spec fn lists(m: Map<Seq<char>, Vec<String>>, name: Seq<char>, item: Seq<char>) -> bool {
    m.contains_key(name) && texts(m[name]@).contains(item)
}

/// A chain of calls that starts at a root, ends in `target`, and has no blocked function before
/// `target`.
pub open spec fn is_entry_path(
    callers: Map<Seq<char>, Vec<String>>,
    roots: Map<Seq<char>, ()>,
    blocked: Map<Seq<char>, ()>,
    target: Seq<char>,
    path: Seq<Seq<char>>,
) -> bool {
    &&& path.len() > 0
    &&& path.last() == target
    &&& roots.contains_key(path[0])
    &&& forall|i: int|
        #![trigger path[i]]
        0 <= i < path.len() - 1 ==> lists(callers, path[i + 1], path[i]) && !blocked.contains_key(
            path[i],
        )
}

/// Every name that is in one of the lists.
spec fn listed_names(s: Seq<(Seq<char>, Vec<String>)>) -> Set<Seq<char>>
    decreases s.len(),
{
    if s.len() == 0 {
        Set::empty()
    } else {
        listed_names(s.drop_last()) + texts(s.last().1@).to_set()
    }
}

proof fn lemma_listed_names(s: Seq<(Seq<char>, Vec<String>)>, i: int, item: Seq<char>)
    requires
        0 <= i < s.len(),
        texts(s[i].1@).contains(item),
    ensures
        listed_names(s).contains(item),
    decreases s.len(),
{
    if i < s.len() - 1 {
        assert(s.drop_last()[i] == s[i]);
        lemma_listed_names(s.drop_last(), i, item);
    }
}

proof fn lemma_listed_names_finite(s: Seq<(Seq<char>, Vec<String>)>)
    ensures
        listed_names(s).finite(),
    decreases s.len(),
{
    if s.len() > 0 {
        lemma_listed_names_finite(s.drop_last());
        vstd::seq_lib::seq_to_set_is_finite(texts(s.last().1@));
    }
}

/// A list without repetitions is no longer than a set that holds its items.
proof fn lemma_distinct_bound(s: Seq<Seq<char>>, all: Set<Seq<char>>)
    requires
        s.no_duplicates(),
        all.finite(),
        forall|i: int| 0 <= i < s.len() ==> all.contains(#[trigger] s[i]),
    ensures
        s.len() <= all.len(),
{
    s.unique_seq_to_set();
    assert(s.to_set().subset_of(all));
    vstd::set_lib::lemma_len_subset(s.to_set(), all);
}

/// The function at `i` calls its parent, which was found before it.
spec fn from_parent(
    callers: Map<Seq<char>, Vec<String>>,
    blocked: Map<Seq<char>, ()>,
    order: Seq<Seq<char>>,
    parents: Seq<usize>,
    dist: Seq<nat>,
    i: int,
) -> bool {
    &&& parents[i] < i
    &&& dist[i] == dist[parents[i] as int] + 1
    &&& lists(callers, order[parents[i] as int], order[i])
    &&& !blocked.contains_key(order[i])
}

/// The search for the nearest root, as far as it has come.
///
/// The functions in `order` have been found, those before `head` have been followed. Each was
/// found from its parent, one call further away from the target.
spec fn search_inv(
    callers: Map<Seq<char>, Vec<String>>,
    blocked: Map<Seq<char>, ()>,
    target: Seq<char>,
    order: Seq<Seq<char>>,
    parents: Seq<usize>,
    dist: Seq<nat>,
) -> bool {
    &&& order.len() == parents.len()
    &&& order.len() == dist.len()
    &&& order.len() > 0
    &&& order[0] == target
    &&& dist[0] == 0
    &&& order.no_duplicates()
    &&& forall|i: int|
        1 <= i < order.len() ==> #[trigger] from_parent(
            callers,
            blocked,
            order,
            parents,
            dist,
            i,
        )
    &&& forall|i: int, j: int|
        1 <= i <= j < order.len() ==> #[trigger] parents[i] <= #[trigger] parents[j]
    &&& forall|i: int, j: int| 0 <= i <= j < order.len() ==> #[trigger] dist[i] <= #[trigger] dist[j]
}

/// Every caller of a followed function has been found.
spec fn search_closed(
    callers: Map<Seq<char>, Vec<String>>,
    blocked: Map<Seq<char>, ()>,
    order: Seq<Seq<char>>,
    dist: Seq<nat>,
    head: int,
) -> bool {
    forall|i: int, c: Seq<char>|
        #![trigger order[i], blocked.contains_key(c)]
        0 <= i < head && lists(callers, order[i], c) && !blocked.contains_key(c) ==> found_within(
            order,
            dist,
            c,
            dist[i] + 1,
        )
}

/// One more function is found from the function at `head`.
proof fn lemma_search_push(
    callers: Map<Seq<char>, Vec<String>>,
    blocked: Map<Seq<char>, ()>,
    target: Seq<char>,
    order: Seq<Seq<char>>,
    parents: Seq<usize>,
    dist: Seq<nat>,
    head: usize,
    name: Seq<char>,
)
    requires
        search_inv(callers, blocked, target, order, parents, dist),
        head < order.len(),
        forall|i: int| 1 <= i < parents.len() ==> (#[trigger] parents[i]) <= head,
        lists(callers, order[head as int], name),
        !blocked.contains_key(name),
        !order.contains(name),
    ensures
        search_inv(
            callers,
            blocked,
            target,
            order.push(name),
            parents.push(head),
            dist.push(dist[head as int] + 1),
        ),
{
    let order1 = order.push(name);
    let parents1 = parents.push(head);
    let dist1 = dist.push(dist[head as int] + 1);
    assert forall|i: int| 1 <= i < order1.len() implies #[trigger] from_parent(
        callers,
        blocked,
        order1,
        parents1,
        dist1,
        i,
    ) by {
        if i < order.len() {
            assert(from_parent(callers, blocked, order, parents, dist, i));
        }
    }
    assert forall|i: int, j: int| 1 <= i <= j < order1.len() implies #[trigger] parents1[i]
        <= #[trigger] parents1[j] by {
        if j < order.len() {
            assert(parents[i] <= parents[j]);
        } else if i < j {
            assert(parents[i] <= head);
        }
    }
    assert(order1.no_duplicates()) by {
        assert forall|i: int, j: int| 0 <= i < j < order1.len() implies order1[i] != order1[j] by {
            if j == order.len() {
                assert(order[i] == order1[i]);
            }
        }
    }
    assert forall|i: int, j: int| 0 <= i <= j < order1.len() implies #[trigger] dist1[i]
        <= #[trigger] dist1[j] by {
        if j == order.len() && i < j {
            if i > 0 {
                assert(from_parent(callers, blocked, order, parents, dist, i));
                assert(dist[i] == dist[parents[i] as int] + 1);
                assert(dist[parents[i] as int] <= dist[head as int]);
            }
        }
    }
}

spec fn found_within(order: Seq<Seq<char>>, dist: Seq<nat>, name: Seq<char>, d: nat) -> bool {
    exists|k: int| 0 <= k < order.len() && #[trigger] order[k] == name && dist[k] <= d
}

/// Where a chain of calls into the target leads: to a function that has been found within that
/// many calls, unless one nearer has not been followed yet.
proof fn lemma_search_reaches(
    callers: Map<Seq<char>, Vec<String>>,
    roots: Map<Seq<char>, ()>,
    blocked: Map<Seq<char>, ()>,
    target: Seq<char>,
    order: Seq<Seq<char>>,
    parents: Seq<usize>,
    dist: Seq<nat>,
    head: int,
    path: Seq<Seq<char>>,
    j: nat,
)
    requires
        search_inv(callers, blocked, target, order, parents, dist),
        0 <= head <= order.len(),
        search_closed(callers, blocked, order, dist, head),
        is_entry_path(callers, roots, blocked, target, path),
        j < path.len(),
    ensures
        found_within(order, dist, path[path.len() - 1 - j], j) || (head < order.len() && dist[head]
            < j),
    decreases j,
{
    if j == 0 {
        assert(order[0] == path[path.len() - 1]);
    } else {
        let i = (j - 1) as nat;
        lemma_search_reaches(
            callers,
            roots,
            blocked,
            target,
            order,
            parents,
            dist,
            head,
            path,
            i,
        );
        let callee = path[path.len() - 1 - i];
        let caller = path[path.len() - 1 - j];
        if found_within(order, dist, callee, i) {
            let k = choose|k: int|
                0 <= k < order.len() && #[trigger] order[k] == callee && dist[k] <= i;
            assert(path[path.len() - 1 - j] == caller);
            assert(lists(callers, order[k], caller) && !blocked.contains_key(caller));
            if k < head {
                assert(found_within(order, dist, caller, dist[k] + 1));
                let l = choose|l: int|
                    0 <= l < order.len() && #[trigger] order[l] == caller && dist[l] <= dist[k] + 1;
                assert(dist[l] <= j);
            } else {
                assert(dist[head] <= dist[k]);
            }
        }
    }
}

/// The chain from a root down to `target`, the shortest there is; `target` alone where no root
/// leads to it.
pub open spec fn is_shortest_entry(
    callers: Map<Seq<char>, Vec<String>>,
    roots: Map<Seq<char>, ()>,
    blocked: Map<Seq<char>, ()>,
    target: Seq<char>,
    path: Seq<Seq<char>>,
) -> bool {
    if exists|p: Seq<Seq<char>>| is_entry_path(callers, roots, blocked, target, p) {
        &&& is_entry_path(callers, roots, blocked, target, path)
        &&& forall|p: Seq<Seq<char>>|
            is_entry_path(callers, roots, blocked, target, p) ==> path.len() <= p.len()
    } else {
        path == seq![target]
    }
}

/// Finds a shortest chain of calls from a root to `target` that avoids blocked functions.
pub fn shortest_predecessor_path(
    target: &str,
    predecessors: &NameLists,
    roots: &NameSet,
    blocked_owned: &NameSet,
) -> (r: Vec<String>)
    ensures
        is_shortest_entry(predecessors@, roots@, blocked_owned@, target@, texts(r@)),
{
    let start: String = target.to_owned();
    let ghost callers = predecessors@;
    let ghost all = listed_names(predecessors.seq()).insert(target@);
    proof {
        lemma_listed_names_finite(predecessors.seq());
    }
    if roots.contains(&start) {
        let mut path: Vec<String> = Vec::new();
        path.push(start);
        assert(texts(path@) =~= seq![target@]);
        assert(is_entry_path(callers, roots@, blocked_owned@, target@, texts(path@)));
        return path;
    }
    let mut order: Vec<String> = Vec::new();
    let mut parents: Vec<usize> = Vec::new();
    let mut visited: NameSet = SortedMap::new();
    let ghost mut dist: Seq<nat> = Seq::empty();
    visited.insert(start.clone(), ());
    order.push(start);
    parents.push(0);
    proof {
        dist = dist.push(0);
        assert(texts(order@) =~= seq![target@]);
        assert(texts(order@)[0] == target@);
    }
    let mut head: usize = 0;
    while head < order.len()
        invariant
            callers == predecessors@,
            all == listed_names(predecessors.seq()).insert(target@),
            all.finite(),
            search_inv(
                callers,
                blocked_owned@,
                target@,
                texts(order@),
                parents@,
                dist,
            ),
            head <= order@.len(),
            search_closed(callers, blocked_owned@, texts(order@), dist, head as int),
            forall|n: Seq<char>|
                #![trigger visited@.contains_key(n)]
                visited@.contains_key(n) <==> texts(order@).contains(n),
            forall|i: int| 0 <= i < order@.len() ==> !roots@.contains_key(#[trigger] texts(order@)[i]),
            forall|i: int| 0 <= i < order@.len() ==> all.contains(#[trigger] texts(order@)[i]),
            forall|i: int| 1 <= i < parents@.len() ==> (#[trigger] parents@[i]) < head,
        decreases all.len() - order@.len(), order@.len() - head,
    {
        let current = order[head].clone();
        let ghost order0 = texts(order@);
        let ghost parents0 = parents@;
        let ghost dist0 = dist;
        if let Some(preds) = predecessors.get(&current) {
            let ghost items = texts(preds@);
            let mut k: usize = 0;
            while k < preds.len()
                invariant
                    callers == predecessors@,
                    predecessors.ok(),
                    callers.contains_key(current@),
                    callers[current@] == *preds,
                    items == texts(preds@),
                    all == listed_names(predecessors.seq()).insert(target@),
                    all.finite(),
                    k <= preds@.len(),
                    head < order0.len() <= order@.len(),
                    order0[head as int] == current@,
                    order0.is_prefix_of(texts(order@)),
                    dist0.is_prefix_of(dist),
                    search_inv(
                        callers,
                        blocked_owned@,
                        target@,
                        order0,
                        parents0,
                        dist0,
                    ),
                    search_closed(callers, blocked_owned@, order0, dist0, head as int),
                    search_inv(
                        callers,
                        blocked_owned@,
                        target@,
                        texts(order@),
                        parents@,
                        dist,
                    ),
                    forall|n: Seq<char>|
                        #![trigger visited@.contains_key(n)]
                        visited@.contains_key(n) <==> texts(order@).contains(n),
                    forall|i: int|
                        0 <= i < order@.len() ==> !roots@.contains_key(#[trigger] texts(order@)[i]),
                    forall|i: int|
                        0 <= i < order@.len() ==> all.contains(#[trigger] texts(order@)[i]),
                    forall|i: int| 1 <= i < parents@.len() ==> (#[trigger] parents@[i]) <= head,
                    forall|i: int|
                        #![trigger items[i]]
                        0 <= i < k && !blocked_owned@.contains_key(items[i]) ==> found_within(
                            texts(order@),
                            dist,
                            items[i],
                            dist[head as int] + 1,
                        ),
                decreases preds@.len() - k,
            {
                let pred = &preds[k];
                assert(items[k as int] == pred@);
                assert(lists(callers, current@, pred@));
                let ghost order1 = texts(order@);
                if !blocked_owned.contains(pred) && !visited.contains(pred) {
                    proof {
                        let i = choose|i: int|
                            0 <= i < predecessors.seq().len() && (#[trigger] predecessors.seq()[i]).0
                                == current@;
                        lemma_entry::<String, Vec<String>>(predecessors.seq(), i);
                        lemma_listed_names(predecessors.seq(), i, pred@);
                    }
                    if roots.contains(pred) {
                        return entry_path(
                            predecessors,
                            roots,
                            blocked_owned,
                            &order,
                            &parents,
                            head,
                            pred,
                            Ghost(dist),
                            Ghost(order0),
                            Ghost(parents0),
                            Ghost(dist0),
                        );
                    }
                    visited.insert(pred.clone(), ());
                    order.push(pred.clone());
                    proof {
                        lemma_search_push(
                            callers,
                            blocked_owned@,
                            target@,
                            order1,
                            parents@,
                            dist,
                            head,
                            pred@,
                        );
                    }
                    parents.push(head);
                    proof {
                        dist = dist.push(dist[head as int] + 1);
                        let order2 = texts(order@);
                        assert(order2 =~= order1.push(pred@));
                        assert(order2[order1.len() as int] == pred@);
                        assert forall|n: Seq<char>|
                            #![trigger visited@.contains_key(n)]
                            visited@.contains_key(n) <==> order2.contains(n) by {
                            if order1.contains(n) {
                                let i = order1.index_of(n);
                                assert(order2[i] == n);
                            }
                            if order2.contains(n) && n != pred@ {
                                let i = order2.index_of(n);
                                assert(order1[i] == n);
                            }
                        }
                    }
                }
                proof {
                    let order2 = texts(order@);
                    assert forall|i: int|
                        #![trigger items[i]]
                        0 <= i < k + 1 && !blocked_owned@.contains_key(items[i]) implies found_within(
                        order2,
                        dist,
                        items[i],
                        dist[head as int] + 1,
                    ) by {
                        if i < k {
                            let l = choose|l: int|
                                0 <= l < order1.len() && #[trigger] order1[l] == items[i] && dist[l]
                                    <= dist[head as int] + 1;
                            assert(order2[l] == items[i]);
                        } else {
                            assert(order2.contains(pred@));
                            let l = order2.index_of(pred@);
                            assert(order2[l] == items[i]);
                            if l > 0 {
                                assert(from_parent(
                                    callers,
                                    blocked_owned@,
                                    order2,
                                    parents@,
                                    dist,
                                    l,
                                ));
                                assert(dist[l] == dist[parents@[l] as int] + 1);
                                assert(parents@[l] <= head);
                                assert(dist[parents@[l] as int] <= dist[head as int]);
                            }
                        }
                    }
                }
                k = k + 1;
            }
            proof {
                assert forall|i: int, c: Seq<char>|
                    #![trigger texts(order@)[i], blocked_owned@.contains_key(c)]
                    0 <= i < head + 1 && lists(callers, texts(order@)[i], c)
                        && !blocked_owned@.contains_key(c) implies found_within(
                    texts(order@),
                    dist,
                    c,
                    dist[i] + 1,
                ) by {
                    if i < head {
                        assert(order0[i] == texts(order@)[i]);
                        assert(found_within(order0, dist0, c, dist0[i] + 1));
                        let l = choose|l: int|
                            0 <= l < order0.len() && #[trigger] order0[l] == c && dist0[l]
                                <= dist0[i] + 1;
                        assert(texts(order@)[l] == c);
                    } else {
                        let l = items.index_of(c);
                        assert(items[l] == c);
                    }
                }
            }
        }
        proof {
            lemma_distinct_bound(texts(order@), all);
            lemma_distinct_bound(order0, all);
        }
        head = head + 1;
    }
    proof {
        assert forall|p: Seq<Seq<char>>| !is_entry_path(
            callers,
            roots@,
            blocked_owned@,
            target@,
            p,
        ) by {
            if is_entry_path(callers, roots@, blocked_owned@, target@, p) {
                lemma_search_reaches(
                    callers,
                    roots@,
                    blocked_owned@,
                    target@,
                    texts(order@),
                    parents@,
                    dist,
                    head as int,
                    p,
                    (p.len() - 1) as nat,
                );
                let k = choose|k: int|
                    0 <= k < order@.len() && #[trigger] texts(order@)[k] == p[0] && dist[k]
                        <= p.len() - 1;
                assert(roots@.contains_key(texts(order@)[k]));
            }
        }
    }
    let mut path: Vec<String> = Vec::new();
    path.push(target.to_owned());
    assert(texts(path@) =~= seq![target@]);
    path
}

/// The chain of calls from a root that calls the function at `head`, down to the target.
fn entry_path(
    predecessors: &NameLists,
    roots: &NameSet,
    blocked_owned: &NameSet,
    order: &Vec<String>,
    parents: &Vec<usize>,
    head: usize,
    root: &String,
    Ghost(dist): Ghost<Seq<nat>>,
    Ghost(order0): Ghost<Seq<Seq<char>>>,
    Ghost(parents0): Ghost<Seq<usize>>,
    Ghost(dist0): Ghost<Seq<nat>>,
) -> (r: Vec<String>)
    requires
        order@.len() > 0,
        head < order0.len() <= order@.len(),
        order0.is_prefix_of(texts(order@)),
        dist0.is_prefix_of(dist),
        search_inv(
            predecessors@,
            blocked_owned@,
            order@[0]@,
            texts(order@),
            parents@,
            dist,
        ),
        search_inv(
            predecessors@,
            blocked_owned@,
            order@[0]@,
            order0,
            parents0,
            dist0,
        ),
        search_closed(predecessors@, blocked_owned@, order0, dist0, head as int),
        roots@.contains_key(root@),
        !blocked_owned@.contains_key(root@),
        lists(predecessors@, order@[head as int]@, root@),
        forall|i: int| 0 <= i < order@.len() ==> !roots@.contains_key(#[trigger] texts(order@)[i]),
    ensures
        is_shortest_entry(predecessors@, roots@, blocked_owned@, order@[0]@, texts(r@)),
{
    let ghost names = texts(order@);
    let ghost target = order@[0]@;
    let mut path: Vec<String> = Vec::new();
    path.push(root.clone());
    path.push(order[head].clone());
    let mut at = head;
    proof {
        assert(names[head as int] == order@[head as int]@);
        assert(texts(path@) =~= seq![root@, names[head as int]]);
    }
    while at != 0
        invariant
            names == texts(order@),
            at <= head < names.len(),
            search_inv(
                predecessors@,
                blocked_owned@,
                target,
                names,
                parents@,
                dist,
            ),
            path@.len() >= 2,
            path@.len() + dist[at as int] == dist[head as int] + 2,
            texts(path@)[0] == root@,
            texts(path@).last() == names[at as int],
            !blocked_owned@.contains_key(root@),
            forall|i: int|
                #![trigger texts(path@)[i]]
                0 <= i < path@.len() - 1 ==> lists(
                    predecessors@,
                    texts(path@)[i + 1],
                    texts(path@)[i],
                ) && !blocked_owned@.contains_key(texts(path@)[i]),
        decreases at,
    {
        let ghost before = texts(path@);
        let next = parents[at];
        assert(names[at as int] == order@[at as int]@);
        assert(from_parent(predecessors@, blocked_owned@, names, parents@, dist, at as int));
        path.push(order[next].clone());
        proof {
            assert(names[next as int] == order@[next as int]@);
            assert(texts(path@) =~= before.push(names[next as int]));
            assert forall|i: int|
                #![trigger texts(path@)[i]]
                0 <= i < path@.len() - 1 implies lists(
                predecessors@,
                texts(path@)[i + 1],
                texts(path@)[i],
            ) && !blocked_owned@.contains_key(texts(path@)[i]) by {
                if i < before.len() - 1 {
                    assert(before[i] == texts(path@)[i]);
                }
            }
        }
        at = next;
    }
    proof {
        let found = texts(path@);
        assert(is_entry_path(predecessors@, roots@, blocked_owned@, target, found));
        assert forall|p: Seq<Seq<char>>|
            is_entry_path(predecessors@, roots@, blocked_owned@, target, p) implies found.len()
            <= p.len() by {
            lemma_search_reaches(
                predecessors@,
                roots@,
                blocked_owned@,
                target,
                order0,
                parents0,
                dist0,
                head as int,
                p,
                (p.len() - 1) as nat,
            );
            if found_within(order0, dist0, p[0], (p.len() - 1) as nat) {
                let k = choose|k: int|
                    0 <= k < order0.len() && #[trigger] order0[k] == p[0] && dist0[k] <= p.len()
                        - 1;
                assert(names[k] == p[0]);
            }
            assert(dist0[head as int] == dist[head as int]);
        }
    }
    path
}

/// Whether the function takes part in a call.
pub open spec fn is_endpoint(edges: EdgeModel, name: Seq<char>) -> bool {
    exists|e: (Seq<char>, Seq<char>)| #[trigger]
        edges.contains_key(e) && (e.0 == name || e.1 == name)
}

/// Whether some function calls this one.
pub open spec fn is_called(edges: EdgeModel, name: Seq<char>) -> bool {
    exists|e: (Seq<char>, Seq<char>)| #[trigger] edges.contains_key(e) && e.1 == name
}

/// Whether the name is one that a program starts at.
pub open spec fn is_start_name(name: Seq<char>) -> bool {
    text_ends_with(name, "::main"@) || name == "main"@ || text_contains(
        name,
        "LLVMFuzzerTestOneInput"@,
    ) || text_contains(name, "__fuzz_target_impl"@) || text_contains(name, "__callgraph_rust_main"@)
}

/// The functions that nothing calls; where each function is called, those with a telling name.
pub open spec fn is_root(edges: EdgeModel, name: Seq<char>) -> bool {
    is_endpoint(edges, name) && (if exists|n: Seq<char>|
        #[trigger] is_endpoint(edges, n) && !is_called(edges, n) {
        !is_called(edges, name)
    } else {
        is_start_name(name)
    })
}

fn has_start_name(name: &str) -> (r: bool)
    ensures
        r == is_start_name(name@),
{
    ends_with(name, "::main") || text_eq(name, "main")
        || contains(name, "LLVMFuzzerTestOneInput") || contains(
        name,
        "__fuzz_target_impl",
    ) || contains(name, "__callgraph_rust_main")
}

/// The functions of all calls, and those that are called.
pub(crate) fn endpoints(func_edges: &FunctionEdges) -> (r: (NameSet, NameSet))
    ensures
        forall|n: Seq<char>|
            #![trigger r.0@.contains_key(n)]
            r.0@.contains_key(n) <==> is_endpoint(func_edges@, n),
        forall|n: Seq<char>|
            #![trigger r.1@.contains_key(n)]
            r.1@.contains_key(n) <==> is_called(func_edges@, n),
{
    let mut nodes: NameSet = SortedMap::new();
    let mut called: NameSet = SortedMap::new();
    let n = func_edges.len();
    let ghost all = func_edges.seq();
    let mut i: usize = 0;
    while i < n
        invariant
            n == all.len(),
            all == func_edges.seq(),
            i <= n,
            forall|k: Seq<char>|
                #![trigger nodes@.contains_key(k)]
                nodes@.contains_key(k) <==> exists|j: int|
                    0 <= j < i && ((#[trigger] all[j]).0.0 == k || all[j].0.1 == k),
            forall|k: Seq<char>|
                #![trigger called@.contains_key(k)]
                called@.contains_key(k) <==> exists|j: int|
                    0 <= j < i && (#[trigger] all[j]).0.1 == k,
        decreases n - i,
    {
        let edge = func_edges.key_at(i);
        let ghost nodes0 = nodes@;
        let ghost called0 = called@;
        nodes.insert(edge.0.clone(), ());
        nodes.insert(edge.1.clone(), ());
        called.insert(edge.1.clone(), ());
        proof {
            let last = all[i as int];
            assert forall|k: Seq<char>|
                #![trigger nodes@.contains_key(k)]
                nodes@.contains_key(k) <==> exists|j: int|
                    0 <= j < i + 1 && ((#[trigger] all[j]).0.0 == k || all[j].0.1 == k) by {
                assert(nodes@.contains_key(k) <==> nodes0.contains_key(k) || last.0.0 == k
                    || last.0.1 == k);
            }
            assert forall|k: Seq<char>|
                #![trigger called@.contains_key(k)]
                called@.contains_key(k) <==> exists|j: int|
                    0 <= j < i + 1 && (#[trigger] all[j]).0.1 == k by {
                assert(called@.contains_key(k) <==> called0.contains_key(k) || last.0.1 == k);
            }
        }
        i = i + 1;
    }
    proof {
        assert forall|k: Seq<char>|
            #![trigger nodes@.contains_key(k)]
            nodes@.contains_key(k) <==> is_endpoint(func_edges@, k) by {
            if nodes@.contains_key(k) {
                let j = choose|j: int|
                    0 <= j < n && ((#[trigger] all[j]).0.0 == k || all[j].0.1 == k);
                assert(has_key(all, all[j].0));
                assert(func_edges@.contains_key(all[j].0));
            }
            if is_endpoint(func_edges@, k) {
                let e = choose|e: (Seq<char>, Seq<char>)| #[trigger]
                    func_edges@.contains_key(e) && (e.0 == k || e.1 == k);
                let j = choose|j: int| 0 <= j < all.len() && (#[trigger] all[j]).0 == e;
                assert(all[j].0.0 == k || all[j].0.1 == k);
            }
        }
        assert forall|k: Seq<char>|
            #![trigger called@.contains_key(k)]
            called@.contains_key(k) <==> is_called(func_edges@, k) by {
            if called@.contains_key(k) {
                let j = choose|j: int| 0 <= j < n && (#[trigger] all[j]).0.1 == k;
                assert(has_key(all, all[j].0));
                assert(func_edges@.contains_key(all[j].0));
            }
            if is_called(func_edges@, k) {
                let e = choose|e: (Seq<char>, Seq<char>)| #[trigger]
                    func_edges@.contains_key(e) && e.1 == k;
                let j = choose|j: int| 0 <= j < all.len() && (#[trigger] all[j]).0 == e;
                assert(all[j].0.1 == k);
            }
        }
    }
    (nodes, called)
}

/// The functions at which the recorded calls start.
pub fn entry_roots(func_edges: &FunctionEdges) -> (r: NameSet)
    ensures
        forall|name: Seq<char>|
            #![trigger r@.contains_key(name)]
            r@.contains_key(name) <==> is_root(func_edges@, name),
{
    let (nodes, called) = endpoints(func_edges);
    let mut roots: NameSet = SortedMap::new();
    let mut starts: NameSet = SortedMap::new();
    let n = nodes.len();
    let ghost all = nodes.seq();
    let mut i: usize = 0;
    while i < n
        invariant
            n == all.len(),
            all == nodes.seq(),
            i <= n,
            forall|k: Seq<char>|
                #![trigger called@.contains_key(k)]
                called@.contains_key(k) <==> is_called(func_edges@, k),
            forall|k: Seq<char>|
                #![trigger roots@.contains_key(k)]
                roots@.contains_key(k) <==> has_key(all.take(i as int), k) && !is_called(
                    func_edges@,
                    k,
                ),
            forall|k: Seq<char>|
                #![trigger starts@.contains_key(k)]
                starts@.contains_key(k) <==> has_key(all.take(i as int), k) && is_start_name(k),
        decreases n - i,
    {
        let name = nodes.key_at(i);
        let ghost roots0 = roots@;
        let ghost starts0 = starts@;
        if !called.contains(name) {
            roots.insert(name.clone(), ());
        }
        if has_start_name(name.as_str()) {
            starts.insert(name.clone(), ());
        }
        proof {
            assert forall|k: Seq<char>|
                #![trigger roots@.contains_key(k)]
                roots@.contains_key(k) <==> has_key(all.take(i + 1), k) && !is_called(
                    func_edges@,
                    k,
                ) by {
                lemma_has_key_take(all, i as int, k);
                assert(roots0.contains_key(k) <==> has_key(all.take(i as int), k) && !is_called(
                    func_edges@,
                    k,
                ));
            }
            assert forall|k: Seq<char>|
                #![trigger starts@.contains_key(k)]
                starts@.contains_key(k) <==> has_key(all.take(i + 1), k) && is_start_name(k) by {
                lemma_has_key_take(all, i as int, k);
                assert(starts0.contains_key(k) <==> has_key(all.take(i as int), k)
                    && is_start_name(k));
            }
        }
        i = i + 1;
    }
    assert(all.take(n as int) =~= all);
    assert(forall|k: Seq<char>| nodes@.contains_key(k) <==> has_key(all, k));
    let none = roots.is_empty();
    proof {
        if !none {
            let k = roots.seq()[0].0;
            assert(has_key(roots.seq(), k));
            assert(roots@.contains_key(k));
            assert(nodes@.contains_key(k));
            assert(is_endpoint(func_edges@, k) && !is_called(func_edges@, k));
        } else if exists|k: Seq<char>| #[trigger]
            is_endpoint(func_edges@, k) && !is_called(func_edges@, k) {
            let k = choose|k: Seq<char>| #[trigger]
                is_endpoint(func_edges@, k) && !is_called(func_edges@, k);
            assert(nodes@.contains_key(k));
            assert(roots@.contains_key(k));
            assert(false);
        }
        assert forall|k: Seq<char>|
            #![trigger roots@.contains_key(k)]
            roots@.contains_key(k) <==> is_endpoint(func_edges@, k) && !is_called(
                func_edges@,
                k,
            ) by {
            assert(nodes@.contains_key(k) <==> is_endpoint(func_edges@, k));
        }
        assert forall|k: Seq<char>|
            #![trigger starts@.contains_key(k)]
            starts@.contains_key(k) <==> is_endpoint(func_edges@, k) && is_start_name(k) by {
            assert(nodes@.contains_key(k) <==> is_endpoint(func_edges@, k));
        }
    }
    if none {
        starts
    } else {
        roots
    }
}

/// Adds `item` to the list of `name`.
fn add_to_list(m: &mut NameLists, name: &String, item: &String)
    ensures
        forall|n: Seq<char>, x: Seq<char>|
            #![trigger lists(final(m)@, n, x)]
            lists(final(m)@, n, x) <==> lists(old(m)@, n, x) || (n == name@ && x == item@),
{
    let ghost before = m@;
    let mut list: Vec<String> = match m.get(name) {
        Some(list) => copy_strings(list.as_slice()),
        None => Vec::new(),
    };
    let ghost old_list = texts(list@);
    list.push(item.clone());
    let ghost new_list = texts(list@);
    m.insert(name.clone(), list);
    proof {
        assert(new_list =~= old_list.push(item@));
        assert forall|x: Seq<char>| #[trigger]
            new_list.contains(x) <==> old_list.contains(x) || x == item@ by {
            if old_list.contains(x) {
                assert(new_list[old_list.index_of(x)] == x);
            }
            if new_list.contains(x) && x != item@ {
                assert(old_list[new_list.index_of(x)] == x);
            }
            assert(new_list[old_list.len() as int] == item@);
        }
        assert forall|n: Seq<char>, x: Seq<char>|
            #![trigger lists(m@, n, x)]
            lists(m@, n, x) <==> lists(before, n, x) || (n == name@ && x == item@) by {
            if n == name@ {
                assert(m@[n]@ == list@);
                if !before.contains_key(n) {
                    assert(old_list =~= Seq::empty());
                }
            }
        }
    }
}

/// The callers and the callees of every function.
pub fn call_lists(func_edges: &FunctionEdges) -> (r: (NameLists, NameLists))
    ensures
        forall|n: Seq<char>, x: Seq<char>|
            #![trigger lists(r.0@, n, x)]
            lists(r.0@, n, x) <==> func_edges@.contains_key((x, n)),
        forall|n: Seq<char>, x: Seq<char>|
            #![trigger lists(r.1@, n, x)]
            lists(r.1@, n, x) <==> func_edges@.contains_key((n, x)),
{
    let mut callers: NameLists = SortedMap::new();
    let mut callees: NameLists = SortedMap::new();
    let n = func_edges.len();
    let ghost all = func_edges.seq();
    let mut i: usize = 0;
    while i < n
        invariant
            n == all.len(),
            all == func_edges.seq(),
            i <= n,
            forall|k: Seq<char>, x: Seq<char>|
                #![trigger lists(callers@, k, x)]
                lists(callers@, k, x) <==> has_key(all.take(i as int), (x, k)),
            forall|k: Seq<char>, x: Seq<char>|
                #![trigger lists(callees@, k, x)]
                lists(callees@, k, x) <==> has_key(all.take(i as int), (k, x)),
        decreases n - i,
    {
        let edge = func_edges.key_at(i);
        let ghost callers0 = callers@;
        let ghost callees0 = callees@;
        add_to_list(&mut callers, &edge.1, &edge.0);
        add_to_list(&mut callees, &edge.0, &edge.1);
        proof {
            assert forall|k: Seq<char>, x: Seq<char>|
                #![trigger lists(callers@, k, x)]
                lists(callers@, k, x) <==> has_key(all.take(i + 1), (x, k)) by {
                lemma_has_key_take(all, i as int, (x, k));
                assert(lists(callers0, k, x) <==> has_key(all.take(i as int), (x, k)));
            }
            assert forall|k: Seq<char>, x: Seq<char>|
                #![trigger lists(callees@, k, x)]
                lists(callees@, k, x) <==> has_key(all.take(i + 1), (k, x)) by {
                lemma_has_key_take(all, i as int, (k, x));
                assert(lists(callees0, k, x) <==> has_key(all.take(i as int), (k, x)));
            }
        }
        i = i + 1;
    }
    assert(all.take(n as int) =~= all);
    (callers, callees)
}

/// Whether one of the two functions calls the other.
pub open spec fn is_linked(edges: EdgeModel, a: Seq<char>, b: Seq<char>) -> bool {
    edges.contains_key((a, b)) || edges.contains_key((b, a))
}

/// A chain of calls, taken in either direction, that starts in `base` and enters no blocked
/// function.
pub open spec fn is_walk(
    edges: EdgeModel,
    base: Seq<Seq<char>>,
    blocked: Map<Seq<char>, ()>,
    walk: Seq<Seq<char>>,
) -> bool {
    &&& walk.len() > 0
    &&& base.contains(walk[0])
    &&& forall|i: int|
        #![trigger walk[i]]
        1 <= i < walk.len() ==> is_linked(edges, walk[i - 1], walk[i]) && !blocked.contains_key(
            walk[i],
        )
}

/// Whether such a chain leads to the function.
pub open spec fn is_reachable(
    edges: EdgeModel,
    base: Seq<Seq<char>>,
    blocked: Map<Seq<char>, ()>,
    name: Seq<char>,
) -> bool {
    exists|walk: Seq<Seq<char>>| #[trigger]
        is_walk(edges, base, blocked, walk) && walk.last() == name
}

proof fn lemma_reach_one_more(
    edges: EdgeModel,
    base: Seq<Seq<char>>,
    blocked: Map<Seq<char>, ()>,
    from: Seq<char>,
    to: Seq<char>,
)
    requires
        is_reachable(edges, base, blocked, from),
        is_linked(edges, from, to),
        !blocked.contains_key(to),
    ensures
        is_reachable(edges, base, blocked, to),
{
    let walk = choose|walk: Seq<Seq<char>>| #[trigger]
        is_walk(edges, base, blocked, walk) && walk.last() == from;
    let longer = walk.push(to);
    assert forall|i: int|
        #![trigger longer[i]]
        1 <= i < longer.len() implies is_linked(edges, longer[i - 1], longer[i])
        && !blocked.contains_key(longer[i]) by {
        if i < walk.len() {
            assert(walk[i] == longer[i]);
        }
    }
    assert(is_walk(edges, base, blocked, longer));
    assert(longer.last() == to);
}

/// What is closed under unblocked links and holds `base` holds whatever can be reached.
proof fn lemma_closed_holds_reachable(
    edges: EdgeModel,
    base: Seq<Seq<char>>,
    blocked: Map<Seq<char>, ()>,
    order: Seq<Seq<char>>,
    walk: Seq<Seq<char>>,
)
    requires
        forall|n: Seq<char>| base.contains(n) ==> #[trigger] order.contains(n),
        forall|i: int, n: Seq<char>|
            #![trigger order[i], blocked.contains_key(n)]
            0 <= i < order.len() && is_linked(edges, order[i], n) && !blocked.contains_key(n)
                ==> order.contains(n),
        is_walk(edges, base, blocked, walk),
    ensures
        order.contains(walk.last()),
    decreases walk.len(),
{
    if walk.len() > 1 {
        let shorter = walk.drop_last();
        assert forall|i: int|
            #![trigger shorter[i]]
            1 <= i < shorter.len() implies is_linked(edges, shorter[i - 1], shorter[i])
            && !blocked.contains_key(shorter[i]) by {
            assert(walk[i] == shorter[i]);
        }
        lemma_closed_holds_reachable(edges, base, blocked, order, shorter);
        let k = order.index_of(shorter.last());
        let n = walk[walk.len() - 1];
        assert(order[k] == walk[walk.len() - 2]);
        assert(is_linked(edges, order[k], n) && !blocked.contains_key(n));
    }
}

/// Puts the items of `list` that are neither blocked nor found yet behind those in `order`.
fn find_more(
    list: &Vec<String>,
    blocked: &NameSet,
    order: &mut Vec<String>,
    visited: &mut NameSet,
    Ghost(all): Ghost<Set<Seq<char>>>,
)
    requires
        texts(old(order)@).no_duplicates(),
        forall|n: Seq<char>|
            #![trigger old(visited)@.contains_key(n)]
            old(visited)@.contains_key(n) <==> texts(old(order)@).contains(n),
        forall|i: int| 0 <= i < old(order)@.len() ==> all.contains(#[trigger] texts(old(order)@)[i]),
        forall|i: int| 0 <= i < list@.len() ==> all.contains(#[trigger] texts(list@)[i]),
    ensures
        texts(final(order)@).no_duplicates(),
        forall|n: Seq<char>|
            #![trigger final(visited)@.contains_key(n)]
            final(visited)@.contains_key(n) <==> texts(final(order)@).contains(n),
        forall|i: int| 0 <= i < final(order)@.len() ==> all.contains(#[trigger] texts(final(order)@)[i]),
        texts(old(order)@).is_prefix_of(texts(final(order)@)),
        forall|n: Seq<char>| #[trigger]
            texts(final(order)@).contains(n) <==> texts(old(order)@).contains(n) || (texts(
                list@,
            ).contains(n) && !blocked@.contains_key(n)),
{
    let ghost start = texts(order@);
    let ghost items = texts(list@);
    let mut k: usize = 0;
    while k < list.len()
        invariant
            items == texts(list@),
            k <= list@.len(),
            texts(order@).no_duplicates(),
            forall|n: Seq<char>|
                #![trigger visited@.contains_key(n)]
                visited@.contains_key(n) <==> texts(order@).contains(n),
            forall|i: int| 0 <= i < order@.len() ==> all.contains(#[trigger] texts(order@)[i]),
            forall|i: int| 0 <= i < list@.len() ==> all.contains(#[trigger] items[i]),
            start.is_prefix_of(texts(order@)),
            forall|n: Seq<char>| #[trigger]
                texts(order@).contains(n) <==> start.contains(n) || (items.take(
                    k as int,
                ).contains(n) && !blocked@.contains_key(n)),
        decreases list@.len() - k,
    {
        let item = &list[k];
        let ghost order1 = texts(order@);
        assert(items[k as int] == item@);
        if !blocked.contains(item) && !visited.contains(item) {
            visited.insert(item.clone(), ());
            order.push(item.clone());
            proof {
                let order2 = texts(order@);
                assert(order2 =~= order1.push(item@));
                assert forall|n: Seq<char>| #[trigger]
                    order2.contains(n) <==> order1.contains(n) || n == item@ by {
                    lemma_contains_push(order1, item@, n);
                }
                assert(order2.no_duplicates());
            }
        }
        proof {
            let order2 = texts(order@);
            assert forall|n: Seq<char>| #[trigger]
                order2.contains(n) <==> start.contains(n) || (items.take(k + 1).contains(n)
                    && !blocked@.contains_key(n)) by {
                assert(items.take(k + 1) =~= items.take(k as int).push(item@));
                lemma_contains_push(items.take(k as int), item@, n);
                assert(order1.contains(n) <==> start.contains(n) || (items.take(
                    k as int,
                ).contains(n) && !blocked@.contains_key(n)));
            }
        }
        k = k + 1;
    }
    assert(items.take(list@.len() as int) =~= items);
}

proof fn lemma_contains_push(s: Seq<Seq<char>>, x: Seq<char>, n: Seq<char>)
    ensures
        s.push(x).contains(n) <==> s.contains(n) || n == x,
{
    let t = s.push(x);
    if s.contains(n) {
        assert(t[s.index_of(n)] == n);
    }
    if n == x {
        assert(t[s.len() as int] == n);
    }
    if t.contains(n) && n != x {
        assert(s[t.index_of(n)] == n);
    }
}

/// The functions that can be reached from `base`, those of `base` first.
fn reachable_functions(
    base: &Vec<String>,
    callers: &NameLists,
    callees: &NameLists,
    blocked: &NameSet,
    Ghost(edges): Ghost<EdgeModel>,
) -> (r: Vec<String>)
    requires
        forall|n: Seq<char>, x: Seq<char>|
            #![trigger lists(callers@, n, x)]
            lists(callers@, n, x) <==> edges.contains_key((x, n)),
        forall|n: Seq<char>, x: Seq<char>|
            #![trigger lists(callees@, n, x)]
            lists(callees@, n, x) <==> edges.contains_key((n, x)),
    ensures
        forall|n: Seq<char>| #[trigger]
            texts(r@).contains(n) <==> is_reachable(edges, texts(base@), blocked@, n),
{
    let ghost start = texts(base@);
    let ghost all = listed_names(callers.seq()) + listed_names(callees.seq()) + start.to_set();
    let nothing: NameSet = SortedMap::new();
    let mut order: Vec<String> = Vec::new();
    let mut visited: NameSet = SortedMap::new();
    proof {
        lemma_listed_names_finite(callers.seq());
        lemma_listed_names_finite(callees.seq());
        vstd::seq_lib::seq_to_set_is_finite(start);
        assert(texts(order@) =~= Seq::empty());
    }
    find_more(base, &nothing, &mut order, &mut visited, Ghost(all));
    proof {
        assert forall|n: Seq<char>| #[trigger] texts(order@).contains(n) implies is_reachable(
            edges,
            start,
            blocked@,
            n,
        ) by {
            assert(is_walk(edges, start, blocked@, seq![n]));
            assert(seq![n].last() == n);
        }
    }
    let mut head: usize = 0;
    while head < order.len()
        invariant
            start == texts(base@),
            all == listed_names(callers.seq()) + listed_names(callees.seq()) + start.to_set(),
            all.finite(),
            head <= order@.len(),
            forall|n: Seq<char>, x: Seq<char>|
                #![trigger lists(callers@, n, x)]
                lists(callers@, n, x) <==> edges.contains_key((x, n)),
            forall|n: Seq<char>, x: Seq<char>|
                #![trigger lists(callees@, n, x)]
                lists(callees@, n, x) <==> edges.contains_key((n, x)),
            texts(order@).no_duplicates(),
            forall|n: Seq<char>|
                #![trigger visited@.contains_key(n)]
                visited@.contains_key(n) <==> texts(order@).contains(n),
            forall|i: int| 0 <= i < order@.len() ==> all.contains(#[trigger] texts(order@)[i]),
            forall|n: Seq<char>| start.contains(n) ==> #[trigger] texts(order@).contains(n),
            forall|n: Seq<char>| #[trigger]
                texts(order@).contains(n) ==> is_reachable(edges, start, blocked@, n),
            forall|i: int, n: Seq<char>|
                #![trigger texts(order@)[i], blocked@.contains_key(n)]
                0 <= i < head && is_linked(edges, texts(order@)[i], n) && !blocked@.contains_key(n)
                    ==> texts(order@).contains(n),
        decreases all.len() - order@.len(), order@.len() - head,
    {
        let current = order[head].clone();
        let ghost order0 = texts(order@);
        assert(order0[head as int] == current@);
        assert(order0.contains(current@));
        if let Some(list) = callers.get(&current) {
            proof {
                lemma_list_within(callers.seq(), current@, all);
            }
            find_more(list, blocked, &mut order, &mut visited, Ghost(all));
        }
        let ghost order1 = texts(order@);
        proof {
            assert forall|n: Seq<char>| #[trigger]
                order1.contains(n) <==> order0.contains(n) || (lists(callers@, current@, n)
                    && !blocked@.contains_key(n)) by {}
        }
        if let Some(list) = callees.get(&current) {
            proof {
                lemma_list_within(callees.seq(), current@, all);
            }
            find_more(list, blocked, &mut order, &mut visited, Ghost(all));
        }
        proof {
            let order2 = texts(order@);
            assert forall|n: Seq<char>| #[trigger]
                order2.contains(n) <==> order0.contains(n) || (is_linked(edges, current@, n)
                    && !blocked@.contains_key(n)) by {
                assert(order1.contains(n) <==> order0.contains(n) || (lists(callers@, current@, n)
                    && !blocked@.contains_key(n)));
                assert(order2.contains(n) <==> order1.contains(n) || (lists(callees@, current@, n)
                    && !blocked@.contains_key(n)));
            }
            assert(order0.is_prefix_of(order2));
            assert forall|n: Seq<char>| #[trigger] order2.contains(n) implies is_reachable(
                edges,
                start,
                blocked@,
                n,
            ) by {
                if !order0.contains(n) {
                    lemma_reach_one_more(edges, start, blocked@, current@, n);
                }
            }
            assert forall|i: int, n: Seq<char>|
                #![trigger order2[i], blocked@.contains_key(n)]
                0 <= i < head + 1 && is_linked(edges, order2[i], n) && !blocked@.contains_key(
                    n,
                ) implies order2.contains(n) by {
                assert(order0[i] == order2[i]);
                if i < head {
                    assert(order0.contains(n));
                }
            }
            lemma_distinct_bound(order2, all);
            lemma_distinct_bound(order0, all);
        }
        head = head + 1;
    }
    proof {
        assert forall|n: Seq<char>| is_reachable(edges, start, blocked@, n) implies #[trigger] texts(
            order@,
        ).contains(n) by {
            let walk = choose|walk: Seq<Seq<char>>| #[trigger]
                is_walk(edges, start, blocked@, walk) && walk.last() == n;
            lemma_closed_holds_reachable(edges, start, blocked@, texts(order@), walk);
        }
    }
    order
}

proof fn lemma_list_within(
    s: Seq<(Seq<char>, Vec<String>)>,
    name: Seq<char>,
    all: Set<Seq<char>>,
)
    requires
        ascending::<String, Vec<String>>(s),
        has_key(s, name),
        listed_names(s).subset_of(all),
    ensures
        forall|i: int|
            0 <= i < entries_map(s)[name]@.len() ==> all.contains(
                #[trigger] texts(entries_map(s)[name]@)[i],
            ),
{
    let k = choose|k: int| 0 <= k < s.len() && (#[trigger] s[k]).0 == name;
    lemma_entry::<String, Vec<String>>(s, k);
    let items = texts(s[k].1@);
    assert forall|i: int| 0 <= i < items.len() implies all.contains(#[trigger] items[i]) by {
        assert(items.contains(items[i]));
        lemma_listed_names(s, k, items[i]);
    }
}

/// Whether the function belongs to the project but to no function list at hand.
pub open spec fn is_blocked(
    coverage: Map<Seq<char>, FunctionCoverage>,
    root: Seq<char>,
    base: Seq<Seq<char>>,
    shared: Map<Seq<char>, ()>,
    name: Seq<char>,
) -> bool {
    is_owned(coverage, root, name) && !base.contains(name) && !shared.contains_key(name)
}

/// The task of a partition: its own functions, and those of the project and the shared ones that
/// can be reached from them without entering another partition.
pub open spec fn in_task(
    edges: EdgeModel,
    coverage: Map<Seq<char>, FunctionCoverage>,
    root: Seq<char>,
    base: Seq<Seq<char>>,
    shared: Map<Seq<char>, ()>,
    name: Seq<char>,
) -> bool {
    base.contains(name) || ((is_owned(coverage, root, name) || shared.contains_key(name))
        && exists|walk: Seq<Seq<char>>| #[trigger]
        is_task_walk(edges, coverage, root, base, shared, walk) && walk.last() == name)
}

/// A chain of calls, taken in either direction, that starts in `base` and enters no function of
/// another partition.
pub open spec fn is_task_walk(
    edges: EdgeModel,
    coverage: Map<Seq<char>, FunctionCoverage>,
    root: Seq<char>,
    base: Seq<Seq<char>>,
    shared: Map<Seq<char>, ()>,
    walk: Seq<Seq<char>>,
) -> bool {
    &&& walk.len() > 0
    &&& base.contains(walk[0])
    &&& forall|i: int|
        #![trigger walk[i]]
        1 <= i < walk.len() ==> is_linked(edges, walk[i - 1], walk[i]) && !is_blocked(
            coverage,
            root,
            base,
            shared,
            walk[i],
        )
}

/// The names go up strictly.
pub open spec fn ascending_names(s: Seq<Seq<char>>) -> bool {
    forall|i: int, j: int| 0 <= i < j < s.len() ==> text_lt(#[trigger] s[i], #[trigger] s[j])
}

/// The names of a set, in ascending order.
pub fn sorted_names(names: &NameSet) -> (r: Vec<String>)
    ensures
        ascending_names(texts(r@)),
        forall|n: Seq<char>| #[trigger] texts(r@).contains(n) <==> names@.contains_key(n),
{
    let n = names.len();
    let ghost all = names.seq();
    let mut out: Vec<String> = Vec::new();
    let mut i: usize = 0;
    while i < n
        invariant
            n == all.len(),
            all == names.seq(),
            i <= n,
            out@.len() == i,
            forall|j: int| 0 <= j < i ==> (#[trigger] out@[j])@ == all[j].0,
        decreases n - i,
    {
        out.push(names.key_at(i).clone());
        i = i + 1;
    }
    proof {
        let t = texts(out@);
        assert forall|a: int, b: int| 0 <= a < b < t.len() implies text_lt(
            #[trigger] t[a],
            #[trigger] t[b],
        ) by {
            assert(<String as Key>::lt(all[a].0, all[b].0));
        }
        assert forall|k: Seq<char>| #[trigger] t.contains(k) <==> names@.contains_key(k) by {
            if t.contains(k) {
                let j = t.index_of(k);
                assert(all[j].0 == k);
            }
            if names@.contains_key(k) {
                let j = choose|j: int| 0 <= j < all.len() && (#[trigger] all[j]).0 == k;
                assert(t[j] == k);
            }
        }
    }
    out
}

/// The task of one partition.
fn expand_task(
    base_functions: &Vec<String>,
    callers: &NameLists,
    callees: &NameLists,
    owned: &NameSet,
    roots: &NameSet,
    shared: &NameSet,
    Ghost(edges): Ghost<EdgeModel>,
    Ghost(coverage): Ghost<Map<Seq<char>, FunctionCoverage>>,
    Ghost(root): Ghost<Seq<char>>,
) -> (r: Vec<String>)
    requires
        forall|n: Seq<char>, x: Seq<char>|
            #![trigger lists(callers@, n, x)]
            lists(callers@, n, x) <==> edges.contains_key((x, n)),
        forall|n: Seq<char>, x: Seq<char>|
            #![trigger lists(callees@, n, x)]
            lists(callees@, n, x) <==> edges.contains_key((n, x)),
        forall|n: Seq<char>|
            #![trigger owned@.contains_key(n)]
            owned@.contains_key(n) <==> is_owned(coverage, root, n),
    ensures
        ascending_names(texts(r@)),
        forall|n: Seq<char>| #[trigger]
            texts(r@).contains(n) <==> in_task(
                edges,
                coverage,
                root,
                texts(base_functions@),
                shared@,
                n,
            ),
{
    let ghost base = texts(base_functions@);
    let mut base_set: NameSet = SortedMap::new();
    let mut expanded: NameSet = SortedMap::new();
    let mut i: usize = 0;
    while i < base_functions.len()
        invariant
            base == texts(base_functions@),
            i <= base.len(),
            forall|n: Seq<char>|
                #![trigger base_set@.contains_key(n)]
                base_set@.contains_key(n) <==> base.take(i as int).contains(n),
            forall|n: Seq<char>|
                #![trigger expanded@.contains_key(n)]
                expanded@.contains_key(n) <==> base.take(i as int).contains(n),
        decreases base.len() - i,
    {
        let name = &base_functions[i];
        base_set.insert(name.clone(), ());
        expanded.insert(name.clone(), ());
        proof {
            assert(base[i as int] == name@);
            assert(base.take(i + 1) =~= base.take(i as int).push(name@));
            assert forall|n: Seq<char>| #[trigger]
                base.take(i + 1).contains(n) <==> base.take(i as int).contains(n) || n
                    == name@ by {
                lemma_contains_push(base.take(i as int), name@, n);
            }
        }
        i = i + 1;
    }
    assert(base.take(base.len() as int) =~= base);

    let mut blocked: NameSet = SortedMap::new();
    let n = owned.len();
    let ghost all = owned.seq();
    let mut i: usize = 0;
    while i < n
        invariant
            n == all.len(),
            all == owned.seq(),
            i <= n,
            forall|k: Seq<char>|
                #![trigger base_set@.contains_key(k)]
                base_set@.contains_key(k) <==> base.contains(k),
            forall|k: Seq<char>|
                #![trigger blocked@.contains_key(k)]
                blocked@.contains_key(k) <==> has_key(all.take(i as int), k) && !base.contains(k)
                    && !shared@.contains_key(k),
        decreases n - i,
    {
        let name = owned.key_at(i);
        let ghost blocked0 = blocked@;
        if !base_set.contains(name) && !shared.contains(name) {
            blocked.insert(name.clone(), ());
        }
        proof {
            assert forall|k: Seq<char>|
                #![trigger blocked@.contains_key(k)]
                blocked@.contains_key(k) <==> has_key(all.take(i + 1), k) && !base.contains(k)
                    && !shared@.contains_key(k) by {
                lemma_has_key_take(all, i as int, k);
                assert(blocked0.contains_key(k) <==> has_key(all.take(i as int), k)
                    && !base.contains(k) && !shared@.contains_key(k));
            }
        }
        i = i + 1;
    }
    proof {
        assert(all.take(n as int) =~= all);
        assert forall|k: Seq<char>|
            #![trigger blocked@.contains_key(k)]
            blocked@.contains_key(k) <==> is_blocked(coverage, root, base, shared@, k) by {
            assert(owned@.contains_key(k) <==> is_owned(coverage, root, k));
        }
        assert forall|k: Seq<char>|
            is_reachable(edges, base, blocked@, k) <==> #[trigger] reaches_in_task(
                edges,
                coverage,
                root,
                base,
                shared@,
                k,
            ) by {
            lemma_task_walks(edges, coverage, root, base, shared@, blocked@, k);
        }
    }

    let mut i: usize = 0;
    while i < base_functions.len()
        invariant
            base == texts(base_functions@),
            i <= base.len(),
            forall|n: Seq<char>, x: Seq<char>|
                #![trigger lists(callers@, n, x)]
                lists(callers@, n, x) <==> edges.contains_key((x, n)),
            forall|k: Seq<char>| #[trigger]
                expanded@.contains_key(k) ==> base.contains(k) || ((owned@.contains_key(k)
                    || shared@.contains_key(k)) && is_reachable(edges, base, blocked@, k)),
            forall|k: Seq<char>| base.contains(k) ==> #[trigger] expanded@.contains_key(k),
        decreases base.len() - i,
    {
        let path = shortest_predecessor_path(
            base_functions[i].as_str(),
            callers,
            roots,
            &blocked,
        );
        let ghost target = base_functions@[i as int]@;
        let ghost nodes = texts(path@);
        proof {
            assert(base[i as int] == target);
            lemma_entry_path_reachable(edges, callers@, roots@, blocked@, base, target, nodes);
        }
        let mut k: usize = 0;
        while k < path.len()
            invariant
                k <= path@.len(),
                nodes == texts(path@),
                forall|j: int|
                    0 <= j < nodes.len() ==> is_reachable(edges, base, blocked@, #[trigger] nodes[j]),
                forall|k: Seq<char>| #[trigger]
                    expanded@.contains_key(k) ==> base.contains(k) || ((owned@.contains_key(k)
                        || shared@.contains_key(k)) && is_reachable(edges, base, blocked@, k)),
                forall|k: Seq<char>| base.contains(k) ==> #[trigger] expanded@.contains_key(k),
            decreases path@.len() - k,
        {
            let node = &path[k];
            assert(nodes[k as int] == node@);
            if owned.contains(node) || shared.contains(node) {
                expanded.insert(node.clone(), ());
            }
            k = k + 1;
        }
        i = i + 1;
    }

    let reached = reachable_functions(base_functions, callers, callees, &blocked, Ghost(edges));
    let ghost found = texts(reached@);
    let mut i: usize = 0;
    while i < reached.len()
        invariant
            found == texts(reached@),
            i <= found.len(),
            forall|n: Seq<char>| #[trigger]
                found.contains(n) <==> is_reachable(edges, base, blocked@, n),
            forall|k: Seq<char>| #[trigger]
                expanded@.contains_key(k) ==> base.contains(k) || ((owned@.contains_key(k)
                    || shared@.contains_key(k)) && is_reachable(edges, base, blocked@, k)),
            forall|k: Seq<char>| base.contains(k) ==> #[trigger] expanded@.contains_key(k),
            forall|j: int|
                0 <= j < i && (owned@.contains_key(found[j]) || shared@.contains_key(found[j]))
                    ==> expanded@.contains_key(#[trigger] found[j]),
        decreases found.len() - i,
    {
        let node = &reached[i];
        assert(found[i as int] == node@);
        assert(found.contains(node@));
        if owned.contains(node) || shared.contains(node) {
            expanded.insert(node.clone(), ());
        }
        i = i + 1;
    }
    proof {
        assert forall|k: Seq<char>| #[trigger]
            expanded@.contains_key(k) <==> in_task(edges, coverage, root, base, shared@, k) by {
            assert(reaches_in_task(edges, coverage, root, base, shared@, k) <==> is_reachable(
                edges,
                base,
                blocked@,
                k,
            ));
            assert(owned@.contains_key(k) <==> is_owned(coverage, root, k));
            if is_reachable(edges, base, blocked@, k) {
                assert(found.contains(k));
                assert(found[found.index_of(k)] == k);
            }
        }
    }
    sorted_names(&expanded)
}

spec fn reaches_in_task(
    edges: EdgeModel,
    coverage: Map<Seq<char>, FunctionCoverage>,
    root: Seq<char>,
    base: Seq<Seq<char>>,
    shared: Map<Seq<char>, ()>,
    name: Seq<char>,
) -> bool {
    exists|walk: Seq<Seq<char>>| #[trigger]
        is_task_walk(edges, coverage, root, base, shared, walk) && walk.last() == name
}

proof fn lemma_task_walks(
    edges: EdgeModel,
    coverage: Map<Seq<char>, FunctionCoverage>,
    root: Seq<char>,
    base: Seq<Seq<char>>,
    shared: Map<Seq<char>, ()>,
    blocked: Map<Seq<char>, ()>,
    name: Seq<char>,
)
    requires
        forall|k: Seq<char>|
            #![trigger blocked.contains_key(k)]
            blocked.contains_key(k) <==> is_blocked(coverage, root, base, shared, k),
    ensures
        is_reachable(edges, base, blocked, name) <==> reaches_in_task(
            edges,
            coverage,
            root,
            base,
            shared,
            name,
        ),
{
    if is_reachable(edges, base, blocked, name) {
        let walk = choose|walk: Seq<Seq<char>>| #[trigger]
            is_walk(edges, base, blocked, walk) && walk.last() == name;
        assert(is_task_walk(edges, coverage, root, base, shared, walk));
    }
    if reaches_in_task(edges, coverage, root, base, shared, name) {
        let walk = choose|walk: Seq<Seq<char>>| #[trigger]
            is_task_walk(edges, coverage, root, base, shared, walk) && walk.last() == name;
        assert(is_walk(edges, base, blocked, walk));
    }
}

/// The functions on the way in can be reached from where the way leads.
proof fn lemma_entry_path_reachable(
    edges: EdgeModel,
    callers: Map<Seq<char>, Vec<String>>,
    roots: Map<Seq<char>, ()>,
    blocked: Map<Seq<char>, ()>,
    base: Seq<Seq<char>>,
    target: Seq<char>,
    path: Seq<Seq<char>>,
)
    requires
        forall|n: Seq<char>, x: Seq<char>|
            #![trigger lists(callers, n, x)]
            lists(callers, n, x) <==> edges.contains_key((x, n)),
        base.contains(target),
        is_shortest_entry(callers, roots, blocked, target, path),
    ensures
        forall|j: int| 0 <= j < path.len() ==> is_reachable(edges, base, blocked, #[trigger] path[j]),
{
    assert(is_walk(edges, base, blocked, seq![target]));
    assert(seq![target].last() == target);
    if exists|p: Seq<Seq<char>>| is_entry_path(callers, roots, blocked, target, p) {
        assert forall|j: int| 0 <= j < path.len() implies is_reachable(
            edges,
            base,
            blocked,
            #[trigger] path[j],
        ) by {
            lemma_entry_suffix_reachable(edges, callers, roots, blocked, base, target, path, j);
        }
    }
}

proof fn lemma_entry_suffix_reachable(
    edges: EdgeModel,
    callers: Map<Seq<char>, Vec<String>>,
    roots: Map<Seq<char>, ()>,
    blocked: Map<Seq<char>, ()>,
    base: Seq<Seq<char>>,
    target: Seq<char>,
    path: Seq<Seq<char>>,
    j: int,
)
    requires
        forall|n: Seq<char>, x: Seq<char>|
            #![trigger lists(callers, n, x)]
            lists(callers, n, x) <==> edges.contains_key((x, n)),
        is_reachable(edges, base, blocked, target),
        is_entry_path(callers, roots, blocked, target, path),
        0 <= j < path.len(),
    ensures
        is_reachable(edges, base, blocked, path[j]),
    decreases path.len() - j,
{
    if j < path.len() - 1 {
        lemma_entry_suffix_reachable(
            edges,
            callers,
            roots,
            blocked,
            base,
            target,
            path,
            j + 1,
        );
        assert(lists(callers, path[j + 1], path[j]));
        lemma_reach_one_more(edges, base, blocked, path[j + 1], path[j]);
    }
}

/// The tasks of all partitions.
pub fn expand_partition_tasks(
    partitions: &[Vec<String>],
    func_edges: &FunctionEdges,
    coverage_by_function: &SortedMap<String, FunctionCoverage>,
    workspace_root: &str,
    shared: &NameSet,
) -> (r: Vec<Vec<String>>)
    ensures
        r@.len() == partitions@.len(),
        forall|i: int|
            0 <= i < r@.len() ==> is_task(
                func_edges@,
                coverage_by_function@,
                workspace_root@,
                texts(partitions@[i]@),
                shared@,
                texts((#[trigger] r@[i])@),
            ),
{
    let owned = owned_functions(coverage_by_function, workspace_root);
    let roots = entry_roots(func_edges);
    let (callers, callees) = call_lists(func_edges);
    let mut out: Vec<Vec<String>> = Vec::new();
    let mut i: usize = 0;
    while i < partitions.len()
        invariant
            i <= partitions@.len(),
            out@.len() == i,
            forall|n: Seq<char>, x: Seq<char>|
                #![trigger lists(callers@, n, x)]
                lists(callers@, n, x) <==> func_edges@.contains_key((x, n)),
            forall|n: Seq<char>, x: Seq<char>|
                #![trigger lists(callees@, n, x)]
                lists(callees@, n, x) <==> func_edges@.contains_key((n, x)),
            forall|n: Seq<char>|
                #![trigger owned@.contains_key(n)]
                owned@.contains_key(n) <==> is_owned(coverage_by_function@, workspace_root@, n),
            forall|j: int|
                0 <= j < i ==> is_task(
                    func_edges@,
                    coverage_by_function@,
                    workspace_root@,
                    texts(partitions@[j]@),
                    shared@,
                    texts((#[trigger] out@[j])@),
                ),
        decreases partitions@.len() - i,
    {
        let task = expand_task(
            &partitions[i],
            &callers,
            &callees,
            &owned,
            &roots,
            shared,
            Ghost(func_edges@),
            Ghost(coverage_by_function@),
            Ghost(workspace_root@),
        );
        out.push(task);
        i = i + 1;
    }
    out
}

/// The task of a partition as a list: in ascending order, each function once.
pub open spec fn is_task(
    edges: EdgeModel,
    coverage: Map<Seq<char>, FunctionCoverage>,
    root: Seq<char>,
    base: Seq<Seq<char>>,
    shared: Map<Seq<char>, ()>,
    task: Seq<Seq<char>>,
) -> bool {
    &&& ascending_names(task)
    &&& forall|n: Seq<char>| #[trigger]
        task.contains(n) <==> in_task(edges, coverage, root, base, shared, n)
}

/// A task holds the functions of its partition, and no function that belongs to another: of the
/// functions of the project, those that are neither in the partition nor shared are not in the task.
pub proof fn law_task_keeps_to_its_partition(
    edges: EdgeModel,
    coverage: Map<Seq<char>, FunctionCoverage>,
    root: Seq<char>,
    base: Seq<Seq<char>>,
    shared: Map<Seq<char>, ()>,
    task: Seq<Seq<char>>,
    name: Seq<char>,
)
    requires
        is_task(edges, coverage, root, base, shared, task),
    ensures
        base.contains(name) ==> task.contains(name),
        is_blocked(coverage, root, base, shared, name) ==> !task.contains(name),
        task.contains(name) && !base.contains(name) ==> is_owned(coverage, root, name)
            || shared.contains_key(name),
{
    assert(task.contains(name) <==> in_task(edges, coverage, root, base, shared, name));
    if in_task(edges, coverage, root, base, shared, name) && !base.contains(name) {
        let walk = choose|walk: Seq<Seq<char>>| #[trigger]
            is_task_walk(edges, coverage, root, base, shared, walk) && walk.last() == name;
        assert(walk[walk.len() - 1] == name);
    }
}

/// There is one list for a task.
pub proof fn law_task_is_unique(
    edges: EdgeModel,
    coverage: Map<Seq<char>, FunctionCoverage>,
    root: Seq<char>,
    base: Seq<Seq<char>>,
    shared: Map<Seq<char>, ()>,
    a: Seq<Seq<char>>,
    b: Seq<Seq<char>>,
)
    requires
        is_task(edges, coverage, root, base, shared, a),
        is_task(edges, coverage, root, base, shared, b),
    ensures
        a == b,
{
    assert forall|n: Seq<char>| #[trigger] a.contains(n) <==> b.contains(n) by {
        assert(a.contains(n) <==> in_task(edges, coverage, root, base, shared, n));
        assert(b.contains(n) <==> in_task(edges, coverage, root, base, shared, n));
    }
    lemma_ascending_unique(a, b);
}

} // verus!
