//! What holds of the seeds that are handed out to partitions, and of plans that are compacted.

use crate::edge_placement::name_pair;
use crate::partition::{
    described, filled, function_terms, handed_out, home_of, is_call, is_compacted,
    law_every_seed_is_handed_out, law_seed_home_is_best, link_copies, link_terms, reaching_seeds, seed_home, terms_for, SeedTerm,
};
use crate::placement::PartitionPlan;
use crate::text::{text_lt, texts};
use crate::trace::SeedTraceSummary;
use vstd::prelude::*;

verus! {

/// A function that no seed is known to reach counts as reached by one.
pub proof fn law_at_least_one_seed(seed_hits: Map<Seq<char>, u64>, name: Seq<char>)
    ensures
        reaching_seeds(seed_hits, name) >= 1,
        seed_hits.contains_key(name) ==> reaching_seeds(seed_hits, name) >= seed_hits[name],
        reaching_seeds(seed_hits, name) > 1 ==> seed_hits.contains_key(name) && reaching_seeds(
            seed_hits,
            name,
        ) == seed_hits[name],
{
}

/// A function that several partitions hold is at home in the last of them.
pub proof fn law_home_is_last(partitions: Seq<Vec<String>>, n: int, name: Seq<char>, p: int)
    requires
        0 <= p < n <= partitions.len(),
        texts(partitions[p]@).contains(name),
        forall|q: int| p < q < n ==> !texts((#[trigger] partitions[q])@).contains(name),
    ensures
        home_of(partitions, n, name) == Some(p),
    decreases n,
{
    if p < n - 1 {
        assert(!texts(partitions[n - 1]@).contains(name));
        law_home_is_last(partitions, n - 1, name, p);
    }
}

/// A function that no partition holds has no home.
pub proof fn law_homeless(partitions: Seq<Vec<String>>, n: int, name: Seq<char>)
    requires
        0 <= n <= partitions.len(),
        forall|q: int| 0 <= q < n ==> !texts((#[trigger] partitions[q])@).contains(name),
    ensures
        home_of(partitions, n, name) is None,
    decreases n,
{
    if n > 0 {
        assert(!texts(partitions[n - 1]@).contains(name));
        law_homeless(partitions, n - 1, name);
    }
}

/// Each function that a seed reaches speaks once for the partition that is its home, and for no
/// other.
pub proof fn law_functions_speak_for_home(
    partitions: Seq<Vec<String>>,
    reached: Seq<(Seq<char>, u64)>,
    seed_hits: Map<Seq<char>, u64>,
    partition: int,
)
    ensures
        function_terms(partitions, reached, seed_hits, partition) == reached.filter(
            |f: (Seq<char>, u64)|
                home_of(partitions, partitions.len() as int, f.0) == Some(partition),
        ).map_values(
            |f: (Seq<char>, u64)| SeedTerm::Function { seeds: reaching_seeds(seed_hits, f.0) },
        ),
    decreases reached.len(),
{
    reveal(Seq::filter);
    let at_home = |f: (Seq<char>, u64)|
        home_of(partitions, partitions.len() as int, f.0) == Some(partition);
    let term = |f: (Seq<char>, u64)| SeedTerm::Function { seeds: reaching_seeds(seed_hits, f.0) };
    if reached.len() > 0 {
        law_functions_speak_for_home(partitions, reached.drop_last(), seed_hits, partition);
        let less = reached.drop_last().filter(at_home);
        if at_home(reached.last()) {
            assert(reached.filter(at_home) =~= less.push(reached.last()));
            assert(less.push(reached.last()).map_values(term) =~= less.map_values(term).push(
                term(reached.last()),
            ));
        } else {
            assert(reached.filter(at_home) =~= less);
        }
    } else {
        assert(reached.filter(at_home).map_values(term) =~= Seq::empty());
    }
}

/// A link has no direction: its ends are named in ascending order, whichever calls the other.
pub proof fn law_links_have_no_direction(a: Seq<char>, b: Seq<char>)
    ensures
        name_pair(a, b) == (a, b) || name_pair(a, b) == (b, a),
        !text_lt(name_pair(a, b).1, name_pair(a, b).0),
        name_pair(a, b) == name_pair(b, a),
{
    crate::text::lemma_text_lt_total(a, b);
    if text_lt(a, b) && text_lt(b, a) {
        crate::text::lemma_text_lt_transitive(a, b, a);
    }
    crate::text::lemma_text_lt_irreflexive(a);
}

/// Whether a link stands between two functions.
pub open spec fn is_between(link: (String, String), a: Seq<char>, b: Seq<char>) -> bool {
    &&& (link.0@ == a && link.1@ == b) || (link.0@ == b && link.1@ == a)
    &&& !text_lt(link.1@, link.0@)
}

proof fn lemma_is_between(link: (String, String), a: Seq<char>, b: Seq<char>)
    ensures
        is_call(link, a, b) <==> is_between(link, a, b),
{
    law_links_have_no_direction(a, b);
    crate::text::lemma_text_lt_total(a, b);
}

proof fn lemma_copies(
    links: Seq<(String, String)>,
    a: Seq<char>,
    b: Seq<char>,
    term: SeedTerm,
)
    ensures
        link_copies(links, a, b, term).len() == links.filter(
            |l: (String, String)| is_between(l, a, b),
        ).len(),
        forall|i: int|
            0 <= i < link_copies(links, a, b, term).len() ==> #[trigger] link_copies(
                links,
                a,
                b,
                term,
            )[i] == term,
    decreases links.len(),
{
    reveal(Seq::filter);
    if links.len() > 0 {
        lemma_copies(links.drop_last(), a, b, term);
        lemma_is_between(links.last(), a, b);
    }
}

/// Each call of a seed speaks for a partition as often as that holds a link between the two
/// functions, with the number of times it was made and how many seeds reach either function.
pub proof fn law_calls_speak_for_links(
    links: Seq<(String, String)>,
    calls: Seq<((String, String), u64)>,
    seed_hits: Map<Seq<char>, u64>,
    call: ((String, String), u64),
)
    ensures
        ({
            let before = link_terms(links, calls, seed_hits);
            let after = link_terms(links, calls.push(call), seed_hits);
            &&& after.len() == before.len() + links.filter(
                |l: (String, String)| is_between(l, call.0.0@, call.0.1@),
            ).len()
            &&& after.take(before.len() as int) == before
            &&& forall|i: int|
                before.len() <= i < after.len() ==> #[trigger] after[i] == (SeedTerm::Link {
                    count: call.1,
                    caller_seeds: reaching_seeds(seed_hits, call.0.0@),
                    callee_seeds: reaching_seeds(seed_hits, call.0.1@),
                })
        }),
{
    let term = SeedTerm::Link {
        count: call.1,
        caller_seeds: reaching_seeds(seed_hits, call.0.0@),
        callee_seeds: reaching_seeds(seed_hits, call.0.1@),
    };
    assert(calls.push(call).drop_last() =~= calls);
    lemma_copies(links, call.0.0@, call.0.1@, term);
    let before = link_terms(links, calls, seed_hits);
    let after = link_terms(links, calls.push(call), seed_hits);
    let copies = link_copies(links, call.0.0@, call.0.1@, term);
    assert(after == before + copies);
    assert(after.take(before.len() as int) =~= before);
    assert forall|i: int| before.len() <= i < after.len() implies #[trigger] after[i] == term by {
        assert(after[i] == copies[i - before.len()]);
    }
}

/// Where a plan places links, the calls of a seed speak; where it places none, its functions do.
pub proof fn law_calls_or_functions_speak(
    plan: PartitionPlan,
    seed: SeedTraceSummary,
    seed_hits: Map<Seq<char>, u64>,
    partition: int,
    p: int,
)
    ensures
        0 <= p < plan.partition_edges@.len() && plan.partition_edges@[p]@.len() > 0 ==> terms_for(
            plan,
            seed,
            seed_hits,
            partition,
        ) == link_terms(plan.partition_edges@[partition]@, seed.edge_hits@, seed_hits),
        (forall|q: int|
            0 <= q < plan.partition_edges@.len() ==> (
            #[trigger] plan.partition_edges@[q])@.len() == 0) ==> terms_for(
            plan,
            seed,
            seed_hits,
            partition,
        ) == function_terms(plan.partitions@, seed.function_hits.seq(), seed_hits, partition),
{
}

/// Each seed goes to one partition: one for which most speaks, of these the one with the fewest seeds
/// so far, and of these the last. The others keep their seeds.
pub proof fn law_seed_goes_to_best(
    before: Seq<Seq<Seq<char>>>,
    seeds: Seq<SeedTraceSummary>,
    scores: Seq<Vec<u64>>,
    n: int,
)
    requires
        before.len() > 0,
        0 <= n < seeds.len(),
        scores.len() == seeds.len(),
        forall|s: int| 0 <= s < scores.len() ==> (#[trigger] scores[s])@.len() == before.len(),
    ensures
        ({
            let lists = handed_out(before, seeds, scores, n);
            let next = handed_out(before, seeds, scores, n + 1);
            &&& lists.len() == next.len() == before.len()
            &&& exists|p: int|
                0 <= p < next.len() && #[trigger] next[p] == lists[p].push(seeds[n].seed_path@) && (
                forall|q: int|
                    0 <= q < next.len() && q != p ==> #[trigger] next[q] == lists[q]
                        && scores[n]@[q] <= scores[n]@[p] && (scores[n]@[q] == scores[n]@[p]
                        ==> lists[p].len() <= lists[q].len()) && (scores[n]@[q] == scores[n]@[p]
                        && lists[q].len() == lists[p].len() ==> q < p))
        }),
{
    law_every_seed_is_handed_out(before, seeds, scores, n);
    let lists = handed_out(before, seeds, scores, n);
    let next = handed_out(before, seeds, scores, n + 1);
    let sizes = |p: int| lists[p].len();
    let home = seed_home(scores[n]@, sizes, before.len() as int);
    law_seed_home_is_best(scores[n]@, sizes, before.len() as int, 0);
    assert(next == lists.update(home, lists[home].push(seeds[n].seed_path@)));
    assert forall|q: int| 0 <= q < next.len() && q != home implies #[trigger] next[q] == lists[q]
        && scores[n]@[q] <= scores[n]@[home] && (scores[n]@[q] == scores[n]@[home]
        ==> lists[home].len() <= lists[q].len()) && (scores[n]@[q] == scores[n]@[home]
        && lists[q].len() == lists[home].len() ==> q < home) by {
        law_seed_home_is_best(scores[n]@, sizes, before.len() as int, q);
    }
    assert(next[home] == lists[home].push(seeds[n].seed_path@));
}

/// The partitions that are kept are those that hold a function, in their order.
pub proof fn law_filled_are_kept(partitions: Seq<Vec<String>>, n: int, p: int)
    requires
        0 <= n <= partitions.len(),
    ensures
        filled(partitions, n).contains(p) <==> 0 <= p < n && partitions[p]@.len() > 0,
        forall|i: int, j: int|
            0 <= i < j < filled(partitions, n).len() ==> #[trigger] filled(partitions, n)[i]
                < #[trigger] filled(partitions, n)[j],
        forall|i: int|
            0 <= i < filled(partitions, n).len() ==> 0 <= #[trigger] filled(partitions, n)[i] < n
                && partitions[filled(partitions, n)[i]]@.len() > 0,
    decreases n,
{
    if n > 0 {
        law_filled_are_kept(partitions, n - 1, p);
        let less = filled(partitions, n - 1);
        let all = filled(partitions, n);
        if partitions[n - 1]@.len() > 0 {
            assert(all =~= less.push(n - 1));
            assert(all[less.len() as int] == n - 1);
            if less.contains(p) {
                let k = less.index_of(p);
                assert(all[k] == p);
            }
            if all.contains(p) && p != n - 1 {
                let k = all.index_of(p);
                assert(less[k] == p);
            }
        }
    }
}

/// What is told of a plan is what all its lists tell of.
pub proof fn law_plan_is_told_in_full(plan: PartitionPlan)
    ensures
        described(plan) <= plan.partitions@.len(),
        described(plan) <= plan.loads@.len(),
        described(plan) <= plan.seed_assignments@.len(),
        described(plan) <= plan.partition_edges@.len(),
        plan.partitions@.len() == plan.loads@.len() == plan.seed_assignments@.len()
            && plan.partitions@.len() == plan.partition_edges@.len() ==> described(plan)
            == plan.partitions@.len(),
{
}

/// A partition that is kept keeps its functions, its load, its seeds and its links; where one was
/// kept, there are no others.
pub proof fn law_compacting_keeps_partitions(before: PartitionPlan, after: PartitionPlan, k: int)
    requires
        is_compacted(before, after),
        0 <= k < after.partitions@.len(),
        after.partitions@[k]@.len() > 0,
    ensures
        after.algorithm == before.algorithm,
        exists|p: int|
            0 <= p < described(before) && (#[trigger] before.partitions@[p])@
                == after.partitions@[k]@ && before.loads@[p] == after.loads@[k]
                && before.seed_assignments@[p]@ == after.seed_assignments@[k]@
                && before.partition_edges@[p]@ == after.partition_edges@[k]@,
{
    let kept = filled(before.partitions@, described(before));
    law_plan_is_told_in_full(before);
    law_filled_are_kept(before.partitions@, described(before), kept[k]);
    assert(before.partitions@[kept[k]]@ == after.partitions@[k]@);
}

} // verus!
