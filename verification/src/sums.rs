//! What holds of counts that are added up, and of traces that are merged and summed up.

use crate::ordered::{entries_map, has_key, lemma_entry};
use crate::tally::{firsts, is_tally, lemma_has_key_push, lemma_tally_add, tally, tally_fits};
use crate::text::decimal;
use crate::trace::{
    all_edges, all_pcs, call_items, call_views, edge_items, function_at, hit_items, is_summary,
    law_no_function_calls_itself, pc_items, SeedTrace, SeedTraceSummary,
};
use crate::tree::TreeModel;
use vstd::prelude::*;

verus! {

/// The sum of counts.
pub open spec fn total(counts: Seq<u64>) -> nat
    decreases counts.len(),
{
    if counts.len() == 0 {
        0
    } else {
        total(counts.drop_last()) + counts.last() as nat
    }
}

/// The counts of the items that are asked for.
pub open spec fn counts_of<M>(items: Seq<(M, u64)>, wanted: spec_fn(M) -> bool) -> Seq<u64> {
    items.filter(|item: (M, u64)| wanted(item.0)).map_values(|item: (M, u64)| item.1)
}

pub proof fn lemma_counts_step<M>(items: Seq<(M, u64)>, wanted: spec_fn(M) -> bool)
    requires
        items.len() > 0,
    ensures
        total(counts_of(items, wanted)) == total(counts_of(items.drop_last(), wanted)) + (if wanted(
            items.last().0,
        ) {
            items.last().1 as nat
        } else {
            0
        }),
{
    reveal(Seq::filter);
    let f = |item: (M, u64)| wanted(item.0);
    let g = |item: (M, u64)| item.1;
    let less = items.drop_last().filter(f);
    if wanted(items.last().0) {
        let more = items.filter(f);
        assert(more =~= less.push(items.last()));
        assert(more.map_values(g).drop_last() =~= less.map_values(g));
    } else {
        assert(items.filter(f) =~= less);
    }
}

/// The sum of the counts of a key.
pub open spec fn sum_of<M>(items: Seq<(M, u64)>, k: M) -> nat {
    total(counts_of(items, |key: M| key == k))
}

/// What is told of a key is the sum of all its counts, and of no others.
pub proof fn law_tally_is_the_sum<M>(map: Map<M, u64>, items: Seq<(M, u64)>, k: M)
    requires
        is_tally(map, items),
    ensures
        map.contains_key(k) <==> exists|i: int| 0 <= i < items.len() && (#[trigger] items[i]).0 == k,
        map.contains_key(k) ==> map[k] == sum_of(items, k),
{
    lemma_tally_total(items, k);
}

pub proof fn lemma_tally_total<M>(items: Seq<(M, u64)>, k: M)
    ensures
        tally(items, k) == total(counts_of(items, |key: M| key == k)),
    decreases items.len(),
{
    let wanted = |key: M| key == k;
    if items.len() > 0 {
        lemma_tally_total(items.drop_last(), k);
        lemma_counts_step(items, wanted);
    } else {
        reveal(Seq::filter);
        assert(counts_of(items, wanted) =~= Seq::empty());
    }
}

/// Of the values of a key, the first counts.
pub proof fn law_first_value_counts<M, V>(items: Seq<(M, V)>, i: int)
    requires
        0 <= i < items.len(),
        forall|j: int| 0 <= j < i ==> (#[trigger] items[j]).0 != items[i].0,
    ensures
        firsts(items).contains_key(items[i].0),
        firsts(items)[items[i].0] == items[i].1,
    decreases items.len(),
{
    let less = items.drop_last();
    if i < less.len() {
        assert forall|j: int| 0 <= j < i implies (#[trigger] less[j]).0 != less[i].0 by {
            assert(less[j] == items[j]);
        }
        law_first_value_counts(less, i);
    } else {
        law_only_listed_keys_have_values(less, items[i].0);
        assert forall|j: int| 0 <= j < less.len() implies (#[trigger] less[j]).0 != items[i].0 by {
            assert(less[j] == items[j]);
        }
    }
}

/// A key has a value if and only if it is listed.
pub proof fn law_only_listed_keys_have_values<M, V>(items: Seq<(M, V)>, k: M)
    ensures
        firsts(items).contains_key(k) <==> exists|i: int|
            0 <= i < items.len() && (#[trigger] items[i]).0 == k,
    decreases items.len(),
{
    if items.len() > 0 {
        let less = items.drop_last();
        law_only_listed_keys_have_values(less, k);
        lemma_has_key_push(less, items.last(), k);
        assert(less.push(items.last()) =~= items);
        assert(has_key(items, k) <==> has_key(less, k) || items.last().0 == k);
    }
}

/// Whether an entry of an edge file tells of an edge: it has two guards of 32 bits and a count.
pub open spec fn tells_edge(t: TreeModel) -> bool {
    &&& t.number_at("prev"@) matches Some(prev) && prev < 0x1_0000_0000
    &&& t.number_at("cur"@) matches Some(cur) && cur < 0x1_0000_0000
    &&& t.number_at("count"@) is Some
}

/// Every entry of an edge file counts that tells of an edge, in the order of the file; no other does.
pub proof fn law_readable_edges_are_kept(list: Seq<TreeModel>)
    ensures
        edge_items(list) == list.filter(|t: TreeModel| tells_edge(t)).map_values(
            |t: TreeModel|
                (
                    (t.number_at("prev"@)->0 as u32, t.number_at("cur"@)->0 as u32),
                    t.number_at("count"@)->0,
                ),
        ),
    decreases list.len(),
{
    reveal(Seq::filter);
    let f = |t: TreeModel| tells_edge(t);
    let g = |t: TreeModel|
        (
            (t.number_at("prev"@)->0 as u32, t.number_at("cur"@)->0 as u32),
            t.number_at("count"@)->0,
        );
    if list.len() > 0 {
        law_readable_edges_are_kept(list.drop_last());
        let less = list.drop_last().filter(f);
        if tells_edge(list.last()) {
            assert(list.filter(f) =~= less.push(list.last()));
            assert(list.filter(f).map_values(g) =~= less.map_values(g).push(g(list.last())));
        } else {
            assert(list.filter(f) =~= less);
        }
    } else {
        assert(list.filter(f).map_values(g) =~= Seq::empty());
    }
}

/// Whether an entry of an edge file tells of a guard: it has a guard of 32 bits and an address.
pub open spec fn tells_guard(t: TreeModel) -> bool {
    &&& t.number_at("guard_id"@) matches Some(guard) && guard < 0x1_0000_0000
    &&& t.number_at("pc"@) is Some
}

/// Every entry of an edge file counts that tells of a guard, in the order of the file; no other does.
pub proof fn law_readable_guards_are_kept(list: Seq<TreeModel>)
    ensures
        pc_items(list) == list.filter(|t: TreeModel| tells_guard(t)).map_values(
            |t: TreeModel| (t.number_at("guard_id"@)->0 as u32, t.number_at("pc"@)->0),
        ),
    decreases list.len(),
{
    reveal(Seq::filter);
    let f = |t: TreeModel| tells_guard(t);
    let g = |t: TreeModel| (t.number_at("guard_id"@)->0 as u32, t.number_at("pc"@)->0);
    if list.len() > 0 {
        law_readable_guards_are_kept(list.drop_last());
        let less = list.drop_last().filter(f);
        if tells_guard(list.last()) {
            assert(list.filter(f) =~= less.push(list.last()));
            assert(list.filter(f).map_values(g) =~= less.map_values(g).push(g(list.last())));
        } else {
            assert(list.filter(f) =~= less);
        }
    } else {
        assert(list.filter(f).map_values(g) =~= Seq::empty());
    }
}

/// How often an edge was taken in a trace.
pub open spec fn taken(trace: SeedTrace, edge: (u32, u32)) -> nat {
    total(counts_of(trace.edges.seq(), |e: (u32, u32)| e == edge))
}

/// One more trace adds to each edge how often it was taken there.
pub proof fn law_merging_adds(traces: Seq<SeedTrace>, trace: SeedTrace, edge: (u32, u32))
    ensures
        tally(all_edges(traces.push(trace)), edge) == tally(all_edges(traces), edge) + taken(
            trace,
            edge,
        ),
{
    assert(traces.push(trace).drop_last() =~= traces);
    lemma_tally_add(all_edges(traces), trace.edges.seq(), edge);
    lemma_tally_total(trace.edges.seq(), edge);
}

proof fn lemma_edges_add(a: Seq<SeedTrace>, b: Seq<SeedTrace>, edge: (u32, u32))
    ensures
        tally(all_edges(a + b), edge) == tally(all_edges(a), edge) + tally(all_edges(b), edge),
    decreases b.len(),
{
    if b.len() == 0 {
        assert(a + b =~= a);
    } else {
        lemma_edges_add(a, b.drop_last(), edge);
        assert((a + b).drop_last() =~= a + b.drop_last());
        lemma_tally_add(all_edges(a + b.drop_last()), b.last().edges.seq(), edge);
        lemma_tally_add(all_edges(b.drop_last()), b.last().edges.seq(), edge);
    }
}

/// Traces can be merged in any order: each edge is taken as often.
pub proof fn law_merging_in_any_order(a: Seq<SeedTrace>, b: Seq<SeedTrace>, edge: (u32, u32))
    ensures
        tally(all_edges(a + b), edge) == tally(all_edges(b + a), edge),
{
    lemma_edges_add(a, b, edge);
    lemma_edges_add(b, a, edge);
}

/// An edge is known after merging if and only if one of the traces has it.
pub proof fn law_merging_keeps_edges(traces: Seq<SeedTrace>, edge: (u32, u32))
    ensures
        has_key(all_edges(traces), edge) <==> exists|t: int|
            0 <= t < traces.len() && has_key((#[trigger] traces[t]).edges.seq(), edge),
    decreases traces.len(),
{
    if traces.len() > 0 {
        let less = traces.drop_last();
        law_merging_keeps_edges(less, edge);
        lemma_has_key_add(all_edges(less), traces.last().edges.seq(), edge);
        if has_key(all_edges(less), edge) {
            let t = choose|t: int|
                0 <= t < less.len() && has_key((#[trigger] less[t]).edges.seq(), edge);
            assert(traces[t] == less[t]);
        }
        assert(traces[traces.len() - 1] == traces.last());
        if exists|t: int| 0 <= t < traces.len() && has_key(
            (#[trigger] traces[t]).edges.seq(),
            edge,
        ) {
            let t = choose|t: int|
                0 <= t < traces.len() && has_key((#[trigger] traces[t]).edges.seq(), edge);
            if t < less.len() {
                assert(less[t] == traces[t]);
            }
        }
    }
}

/// A guard is known after merging if and only if one of the traces has it.
pub proof fn law_merging_keeps_guards(traces: Seq<SeedTrace>, guard: u32)
    ensures
        has_key(all_pcs(traces), guard) <==> exists|t: int|
            0 <= t < traces.len() && has_key((#[trigger] traces[t]).pc_table.seq(), guard),
    decreases traces.len(),
{
    if traces.len() > 0 {
        let less = traces.drop_last();
        law_merging_keeps_guards(less, guard);
        lemma_has_key_add(all_pcs(less), traces.last().pc_table.seq(), guard);
        if has_key(all_pcs(less), guard) {
            let t = choose|t: int|
                0 <= t < less.len() && has_key((#[trigger] less[t]).pc_table.seq(), guard);
            assert(traces[t] == less[t]);
        }
        assert(traces[traces.len() - 1] == traces.last());
        if exists|t: int| 0 <= t < traces.len() && has_key(
            (#[trigger] traces[t]).pc_table.seq(),
            guard,
        ) {
            let t = choose|t: int|
                0 <= t < traces.len() && has_key((#[trigger] traces[t]).pc_table.seq(), guard);
            if t < less.len() {
                assert(less[t] == traces[t]);
            }
        }
    }
}

pub proof fn lemma_has_key_add<M, V>(a: Seq<(M, V)>, b: Seq<(M, V)>, k: M)
    ensures
        has_key(a + b, k) <==> has_key(a, k) || has_key(b, k),
{
    if has_key(a + b, k) {
        let i = choose|i: int| 0 <= i < (a + b).len() && (#[trigger] (a + b)[i]).0 == k;
        if i < a.len() {
            assert(a[i].0 == k);
        } else {
            assert(b[i - a.len()].0 == k);
        }
    }
    if has_key(a, k) {
        let i = choose|i: int| 0 <= i < a.len() && (#[trigger] a[i]).0 == k;
        assert((a + b)[i].0 == k);
    }
    if has_key(b, k) {
        let i = choose|i: int| 0 <= i < b.len() && (#[trigger] b[i]).0 == k;
        assert((a + b)[a.len() + i].0 == k);
    }
}

/// A guard is of the function in which its address lies; where that is not known, it stands for
/// itself.
pub proof fn law_guards_have_functions(table: Map<u32, u64>, names: Map<u64, String>, guard: u32)
    ensures
        table.contains_key(guard) && names.contains_key(table[guard]) ==> function_at(
            table,
            names,
            guard,
        ) == names[table[guard]]@,
        !table.contains_key(guard) || !names.contains_key(table[guard]) ==> {
            let name = function_at(table, names, guard);
            &&& name.len() == 6 + decimal(guard as nat).len()
            &&& name.take(6) == "guard_"@
            &&& name.skip(6) == decimal(guard as nat)
        },
{
    reveal_strlit("guard_");
    let name = "guard_"@ + decimal(guard as nat);
    assert(name.take(6) =~= "guard_"@);
    assert(name.skip(6) =~= decimal(guard as nat));
}

/// A function calls another as often as edges were taken that lead from a guard of the one to a guard
/// of the other.
pub proof fn law_calls_are_counted(
    edges: Seq<((u32, u32), u64)>,
    table: Map<u32, u64>,
    names: Map<u64, String>,
    caller: Seq<char>,
    callee: Seq<char>,
)
    requires
        caller != callee,
    ensures
        tally(call_items(edges, table, names), (caller, callee)) == total(
            counts_of(
                edges,
                |e: (u32, u32)|
                    function_at(table, names, e.0) == caller && function_at(table, names, e.1)
                        == callee,
            ),
        ),
        has_key(call_items(edges, table, names), (caller, callee)) <==> exists|i: int|
            0 <= i < edges.len() && function_at(table, names, (#[trigger] edges[i]).0.0) == caller
                && function_at(table, names, edges[i].0.1) == callee,
    decreases edges.len(),
{
    let wanted = |e: (u32, u32)|
        function_at(table, names, e.0) == caller && function_at(table, names, e.1) == callee;
    if edges.len() > 0 {
        let less = edges.drop_last();
        let e = edges.last();
        law_calls_are_counted(less, table, names, caller, callee);
        lemma_counts_step(edges, wanted);
        let before = call_items(less, table, names);
        let item = ((function_at(table, names, e.0.0), function_at(table, names, e.0.1)), e.1);
        lemma_has_key_push(before, item, (caller, callee));
        assert(before.push(item).drop_last() =~= before);
        assert(edges[edges.len() - 1] == e);
        if has_key(before, (caller, callee)) {
            let i = choose|i: int|
                0 <= i < less.len() && function_at(table, names, (#[trigger] less[i]).0.0) == caller
                    && function_at(table, names, less[i].0.1) == callee;
            assert(edges[i] == less[i]);
        }
        if exists|i: int|
            0 <= i < edges.len() && function_at(table, names, (#[trigger] edges[i]).0.0) == caller
                && function_at(table, names, edges[i].0.1) == callee {
            let i = choose|i: int|
                0 <= i < edges.len() && function_at(table, names, (#[trigger] edges[i]).0.0)
                    == caller && function_at(table, names, edges[i].0.1) == callee;
            if i < less.len() {
                assert(less[i] == edges[i]);
            }
        }
    } else {
        reveal(Seq::filter);
        assert(counts_of(edges, wanted) =~= Seq::empty());
    }
}

/// A function is hit as often as it calls another one or is called.
pub proof fn law_hits_are_calls(calls: Seq<((Seq<char>, Seq<char>), u64)>, name: Seq<char>)
    ensures
        tally(hit_items(calls), name) == total(
            counts_of(calls, |c: (Seq<char>, Seq<char>)| c.0 == name),
        ) + total(counts_of(calls, |c: (Seq<char>, Seq<char>)| c.1 == name)),
        has_key(hit_items(calls), name) <==> exists|i: int|
            0 <= i < calls.len() && ((#[trigger] calls[i]).0.0 == name || calls[i].0.1 == name),
    decreases calls.len(),
{
    let calling = |c: (Seq<char>, Seq<char>)| c.0 == name;
    let called = |c: (Seq<char>, Seq<char>)| c.1 == name;
    if calls.len() > 0 {
        let less = calls.drop_last();
        let c = calls.last();
        law_hits_are_calls(less, name);
        lemma_counts_step(calls, calling);
        lemma_counts_step(calls, called);
        let before = hit_items(less);
        let one = before.push((c.0.0, c.1));
        assert(one.drop_last() =~= before);
        assert(one.push((c.0.1, c.1)).drop_last() =~= one);
        assert(tally(one, name) == tally(before, name) + (if c.0.0 == name {
            c.1 as nat
        } else {
            0
        }));
        lemma_has_key_push(before, (c.0.0, c.1), name);
        lemma_has_key_push(one, (c.0.1, c.1), name);
        assert(calls[calls.len() - 1] == c);
        if has_key(before, name) {
            let i = choose|i: int|
                0 <= i < less.len() && ((#[trigger] less[i]).0.0 == name || less[i].0.1 == name);
            assert(calls[i] == less[i]);
        }
        if exists|i: int|
            0 <= i < calls.len() && ((#[trigger] calls[i]).0.0 == name || calls[i].0.1 == name) {
            let i = choose|i: int|
                0 <= i < calls.len() && ((#[trigger] calls[i]).0.0 == name || calls[i].0.1 == name);
            if i < less.len() {
                assert(less[i] == calls[i]);
            }
        }
    } else {
        reveal(Seq::filter);
        assert(counts_of(calls, calling) =~= Seq::empty());
        assert(counts_of(calls, called) =~= Seq::empty());
    }
}

/// Sums fit if each of them can be told with 64 bits.
pub proof fn law_sums_fit<M>(items: Seq<(M, u64)>)
    ensures
        tally_fits(items) <==> forall|k: M| #[trigger] sum_of(items, k) <= 18446744073709551615,
{
    assert forall|k: M| #[trigger] sum_of(items, k) == tally(items, k) by {
        lemma_tally_total(items, k);
    }
    if forall|k: M| #[trigger] sum_of(items, k) <= 18446744073709551615 {
        assert forall|k: M| #[trigger] tally(items, k) <= u64::MAX by {
            assert(sum_of(items, k) == tally(items, k));
        }
    }
}

/// The summary of a trace tells of each function how often it calls another one or is called, and of
/// each call how often it was made.
pub proof fn law_summary_tells_trace(
    trace: SeedTrace,
    names: Map<u64, String>,
    summary: SeedTraceSummary,
    name: Seq<char>,
    i: int,
)
    requires
        is_summary(trace, names, summary),
        0 <= i < summary.edge_hits@.len(),
    ensures
        summary.seed_path@ == trace.seed_path@,
        summary.artifact_stem@ == trace.artifact_stem@,
        summary.function_hits@.contains_key(name) ==> summary.function_hits@[name] == total(
            counts_of(call_views(summary.edge_hits@), |c: (Seq<char>, Seq<char>)| c.0 == name),
        ) + total(
            counts_of(call_views(summary.edge_hits@), |c: (Seq<char>, Seq<char>)| c.1 == name),
        ),
        ({
            let call = summary.edge_hits@[i];
            &&& call.0.0@ != call.0.1@
            &&& summary.function_hits@.contains_key(call.0.0@)
            &&& summary.function_hits@.contains_key(call.0.1@)
            &&& call.1 == total(
                counts_of(
                    trace.edges.seq(),
                    |e: (u32, u32)|
                        function_at(trace.pc_table@, names, e.0) == call.0.0@ && function_at(
                            trace.pc_table@,
                            names,
                            e.1,
                        ) == call.0.1@,
                ),
            )
        }),
{
    let list = call_views(summary.edge_hits@);
    law_hits_are_calls(list, name);
    let call = list[i];
    let items = call_items(trace.edges.seq(), trace.pc_table@, names);
    lemma_entry::<(String, String), u64>(list, i);
    assert(has_key(list, call.0));
    assert(entries_map(list).contains_key(call.0));
    assert(has_key(items, call.0));
    law_no_function_calls_itself(
        trace.edges.seq(),
        trace.pc_table@,
        names,
        entries_map(list),
        call.0.0,
    );
    assert(call.0 == (call.0.0, call.0.1));
    law_calls_are_counted(trace.edges.seq(), trace.pc_table@, names, call.0.0, call.0.1);
    law_hits_are_calls(list, call.0.0);
    law_hits_are_calls(list, call.0.1);
    assert(list[i].0.0 == call.0.0);
}

} // verus!
