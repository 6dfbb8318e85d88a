//! The documents that describe a call graph.

use crate::coverage::FunctionCoverage;
use crate::ids::{
    id_of, lemma_with_name_keeps, lemma_with_names, number_keys, number_name, numbered, with_name,
    with_names, FunctionIds,
};
use crate::json::{append_number, append_quoted, push_row, quoted, rows, rows_up_to};
use crate::layout::listed;
use crate::linkage::{coverage_of, lemma_keys_ascend};
use crate::ordered::{keys, NameSet, SortedMap};
use crate::tasks::{ascending_names, endpoints, is_endpoint, EdgeModel, FunctionEdges};
use crate::text::{append, decimal};
use crate::trace::{call_views, SeedTraceSummary};
use vstd::prelude::*;

verus! {

/// The functions that take part in a call, in ascending order.
pub open spec fn is_node_list(edges: EdgeModel, names: Seq<Seq<char>>) -> bool {
    &&& ascending_names(names)
    &&& forall|name: Seq<char>| #[trigger] names.contains(name) <==> is_endpoint(edges, name)
}

/// The functions that take part in a call.
pub fn call_graph_nodes(func_edges: &FunctionEdges) -> (r: NameSet)
    ensures
        r.ok(),
        is_node_list(func_edges@, keys(r.seq())),
{
    let (names, _called) = endpoints(func_edges);
    let _ = names.len();
    proof {
        lemma_keys_ascend(&names);
        let list = keys(names.seq());
        assert forall|name: Seq<char>| #[trigger] list.contains(name) <==> is_endpoint(
            func_edges@,
            name,
        ) by {
            assert(names@.contains_key(name) <==> is_endpoint(func_edges@, name));
            if list.contains(name) {
                let i = list.index_of(name);
                assert(names.seq()[i].0 == name);
            }
            if names@.contains_key(name) {
                let i = choose|i: int|
                    0 <= i < names.seq().len() && (#[trigger] names.seq()[i]).0 == name;
                assert(list[i] == name);
            }
        }
    }
    names
}

/// One function of a call graph.
pub open spec fn node_row(name: Seq<char>, cov: FunctionCoverage, ratio: Seq<char>) -> Seq<char> {
    "    {\"name\":"@ + quoted(name) + ",\"count\":"@ + decimal(cov.count as nat)
        + ",\"region_total\":"@ + decimal(cov.region_total as nat) + ",\"region_covered\":"@
        + decimal(cov.region_covered as nat) + ",\"coverage_ratio\":"@ + ratio + ",\"file\":"@ + (
    match cov.file {
        Some(file) => quoted(file@),
        None => "null"@,
    }) + "}"@
}

/// One call of a call graph.
pub open spec fn call_row(call: ((Seq<char>, Seq<char>), u64)) -> Seq<char> {
    "    {\"caller\":"@ + quoted(call.0.0) + ",\"callee\":"@ + quoted(call.0.1) + ",\"count\":"@
        + decimal(call.1 as nat) + "}"@
}

/// A call graph as it is written. The shares of executed regions are given as texts, by name.
pub open spec fn callgraph_text(
    names: Seq<Seq<char>>,
    calls: Seq<((Seq<char>, Seq<char>), u64)>,
    coverage: Map<Seq<char>, FunctionCoverage>,
    ratios: Map<Seq<char>, String>,
) -> Seq<char> {
    "{\n  \"nodes\":"@ + listed(
        " [\n"@,
        Seq::new(
            names.len(),
            |i: int| node_row(names[i], coverage_of(coverage, names[i]), ratios[names[i]]@),
        ),
        "  ]"@,
    ) + ",\n  \"edges\":"@ + listed(
        " [\n"@,
        Seq::new(calls.len(), |i: int| call_row(calls[i])),
        "  ]"@,
    ) + "\n}"@ + "\n"@
}

fn node_line(name: &str, cov: &FunctionCoverage, ratio: &str) -> (r: String)
    ensures
        r@ == node_row(name@, *cov, ratio@),
{
    let mut line = "    {\"name\":".to_owned();
    append_quoted(&mut line, name);
    append(&mut line, ",\"count\":");
    append_number(&mut line, cov.count);
    append(&mut line, ",\"region_total\":");
    append_number(&mut line, cov.region_total);
    append(&mut line, ",\"region_covered\":");
    append_number(&mut line, cov.region_covered);
    append(&mut line, ",\"coverage_ratio\":");
    append(&mut line, ratio);
    append(&mut line, ",\"file\":");
    match &cov.file {
        Some(file) => append_quoted(&mut line, file.as_str()),
        None => append(&mut line, "null"),
    }
    append(&mut line, "}");
    line
}

fn call_line(caller: &str, callee: &str, count: u64) -> (r: String)
    ensures
        r@ == call_row(((caller@, callee@), count)),
{
    let mut line = "    {\"caller\":".to_owned();
    append_quoted(&mut line, caller);
    append(&mut line, ",\"callee\":");
    append_quoted(&mut line, callee);
    append(&mut line, ",\"count\":");
    append_number(&mut line, count);
    append(&mut line, "}");
    line
}

/// Writes a call graph. Each function that takes part in a call needs the text of its share of
/// executed regions.
pub fn write_callgraph_json(
    func_edges: &FunctionEdges,
    coverage_by_function: &SortedMap<String, FunctionCoverage>,
    ratios: &SortedMap<String, String>,
) -> (r: String)
    requires
        forall|name: Seq<char>| #[trigger]
            is_endpoint(func_edges@, name) ==> ratios@.contains_key(name),
    ensures
        exists|names: Seq<Seq<char>>|
            is_node_list(func_edges@, names) && r@ == #[trigger] callgraph_text(
                names,
                func_edges.seq(),
                coverage_by_function@,
                ratios@,
            ),
{
    let ghost coverage = coverage_by_function@;
    let ghost shares = ratios@;
    let nodes = call_graph_nodes(func_edges);
    let ghost names = keys(nodes.seq());
    let ghost node_rows = Seq::new(
        names.len(),
        |i: int| node_row(names[i], coverage_of(coverage, names[i]), shares[names[i]]@),
    );
    let mut out = "{\n  \"nodes\":".to_owned();
    let ghost start = out@;
    append(&mut out, " [\n");
    let ghost head = out@;
    let n = nodes.len();
    let mut i: usize = 0;
    assert(out@ =~= head + rows_up_to(node_rows, 0));
    while i < n
        invariant
            coverage == coverage_by_function@,
            shares == ratios@,
            names == keys(nodes.seq()),
            is_node_list(func_edges@, names),
            forall|name: Seq<char>| #[trigger]
                is_endpoint(func_edges@, name) ==> ratios@.contains_key(name),
            node_rows == Seq::new(
                names.len(),
                |i: int| node_row(names[i], coverage_of(coverage, names[i]), shares[names[i]]@),
            ),
            n == names.len(),
            i <= n,
            out@ == head + rows_up_to(node_rows, i as int),
        decreases n - i,
    {
        let name = nodes.key_at(i);
        assert(names[i as int] == name@);
        assert(names.contains(name@));
        let none = FunctionCoverage::default();
        let cov = match coverage_by_function.get(name) {
            Some(cov) => cov,
            None => &none,
        };
        let ratio = ratios.get(name).unwrap();
        let line = node_line(name.as_str(), cov, ratio.as_str());
        push_row(
            &mut out,
            line.as_str(),
            i + 1 == n,
            Ghost(head),
            Ghost(node_rows),
            Ghost(i as int),
        );
        i = i + 1;
    }
    append(&mut out, "  ]");
    assert(out@ =~= start + listed(" [\n"@, node_rows, "  ]"@));
    append(&mut out, ",\n  \"edges\":");
    let ghost start = out@;
    append(&mut out, " [\n");
    let ghost calls = func_edges.seq();
    let ghost call_rows = Seq::new(calls.len(), |i: int| call_row(calls[i]));
    let ghost head = out@;
    let m = func_edges.len();
    let mut j: usize = 0;
    assert(out@ =~= head + rows_up_to(call_rows, 0));
    while j < m
        invariant
            calls == func_edges.seq(),
            call_rows == Seq::new(calls.len(), |i: int| call_row(calls[i])),
            m == calls.len(),
            j <= m,
            out@ == head + rows_up_to(call_rows, j as int),
        decreases m - j,
    {
        let call = func_edges.key_at(j);
        let line = call_line(call.0.as_str(), call.1.as_str(), *func_edges.value_at(j));
        push_row(
            &mut out,
            line.as_str(),
            j + 1 == m,
            Ghost(head),
            Ghost(call_rows),
            Ghost(j as int),
        );
        j = j + 1;
    }
    append(&mut out, "  ]");
    assert(out@ =~= start + listed(" [\n"@, call_rows, "  ]"@));
    append(&mut out, "\n}");
    append(&mut out, "\n");
    assert(out@ == callgraph_text(names, calls, coverage, shares));
    out
}

/// The names that have come up, with those of a list of calls.
pub open spec fn with_calls(
    order: Seq<Seq<char>>,
    calls: Seq<((Seq<char>, Seq<char>), u64)>,
) -> Seq<Seq<char>>
    decreases calls.len(),
{
    if calls.len() == 0 {
        order
    } else {
        with_name(
            with_name(with_calls(order, calls.drop_last()), calls.last().0.0),
            calls.last().0.1,
        )
    }
}

/// The functions that the seeds reach, in the order in which they come up.
pub open spec fn seed_order(seeds: Seq<SeedTraceSummary>) -> Seq<Seq<char>>
    decreases seeds.len(),
{
    if seeds.len() == 0 {
        Seq::empty()
    } else {
        with_calls(
            with_names(seed_order(seeds.drop_last()), keys(seeds.last().function_hits.seq())),
            call_views(seeds.last().edge_hits@),
        )
    }
}

/// A number on a line of its own.
pub open spec fn id_row(id: int) -> Seq<char> {
    "      "@ + decimal(id as nat)
}

/// A function and its number.
pub open spec fn function_row(id: u64, name: Seq<char>) -> Seq<char> {
    "    {\"id\":"@ + decimal(id as nat) + ",\"name\":"@ + quoted(name) + "}"@
}

/// A call, by the numbers of the functions.
pub open spec fn id_call_row(order: Seq<Seq<char>>, call: ((Seq<char>, Seq<char>), u64)) -> Seq<char> {
    "      {\"caller_id\":"@ + decimal(order.index_of(call.0.0) as nat) + ",\"callee_id\":"@ + decimal(
        order.index_of(call.0.1) as nat,
    ) + ",\"count\":"@ + decimal(call.1 as nat) + "}"@
}

/// What a seed reaches.
pub open spec fn seed_block(order: Seq<Seq<char>>, seed: SeedTraceSummary) -> Seq<char> {
    let names = keys(seed.function_hits.seq());
    let calls = call_views(seed.edge_hits@);
    "    {\"seed\":"@ + quoted(seed.seed_path@) + ",\"artifact\":"@ + quoted(seed.artifact_stem@)
        + ",\"function_ids\":"@ + listed(
        "[\n"@,
        Seq::new(names.len(), |i: int| id_row(order.index_of(names[i]))),
        "    ]"@,
    ) + ",\"edges\":"@ + listed(
        "[\n"@,
        Seq::new(calls.len(), |i: int| id_call_row(order, calls[i])),
        "    ]"@,
    ) + "}"@
}

/// What the seeds reach, as it is written. `ids` are the functions with their numbers, in the order
/// of their names.
pub open spec fn seed_hits_text(ids: Seq<(Seq<char>, u64)>, seeds: Seq<SeedTraceSummary>) -> Seq<char> {
    "{\n  \"functions\":"@ + listed(
        " [\n"@,
        Seq::new(ids.len(), |i: int| function_row(ids[i].1, ids[i].0)),
        "  ]"@,
    ) + ",\n  \"seeds\":"@ + listed(
        " [\n"@,
        Seq::new(seeds.len(), |i: int| seed_block(seed_order(seeds), seeds[i])),
        "  ]"@,
    ) + "\n}"@ + "\n"@
}

proof fn lemma_with_calls(
    order: Seq<Seq<char>>,
    calls: Seq<((Seq<char>, Seq<char>), u64)>,
    k: Seq<char>,
)
    requires
        order.no_duplicates(),
    ensures
        with_calls(order, calls).no_duplicates(),
        order.contains(k) ==> with_calls(order, calls).contains(k),
        forall|i: int|
            0 <= i < calls.len() ==> with_calls(order, calls).contains((#[trigger] calls[i]).0.0)
                && with_calls(order, calls).contains(calls[i].0.1),
    decreases calls.len(),
{
    if calls.len() > 0 {
        lemma_with_calls(order, calls.drop_last(), k);
        let before = with_calls(order, calls.drop_last());
        let (a, b) = (calls.last().0.0, calls.last().0.1);
        let one = with_name(before, a);
        lemma_with_name_keeps(before, a, k);
        lemma_with_name_keeps(one, b, k);
        lemma_with_name_keeps(before, a, a);
        lemma_with_name_keeps(one, b, a);
        lemma_with_name_keeps(one, b, b);
        assert forall|i: int| 0 <= i < calls.len() implies with_calls(order, calls).contains(
            (#[trigger] calls[i]).0.0,
        ) && with_calls(order, calls).contains(calls[i].0.1) by {
            if i < calls.len() - 1 {
                assert(calls.drop_last()[i] == calls[i]);
                lemma_with_name_keeps(before, a, calls[i].0.0);
                lemma_with_name_keeps(one, b, calls[i].0.0);
                lemma_with_name_keeps(before, a, calls[i].0.1);
                lemma_with_name_keeps(one, b, calls[i].0.1);
            }
        }
    }
}

/// Every function that a seed reaches has come up.
pub(crate) proof fn lemma_seed_order(seeds: Seq<SeedTraceSummary>, n: int)
    requires
        0 <= n < seeds.len(),
    ensures
        seed_order(seeds).no_duplicates(),
        forall|i: int|
            0 <= i < keys(seeds[n].function_hits.seq()).len() ==> seed_order(seeds).contains(
                #[trigger] keys(seeds[n].function_hits.seq())[i],
            ),
        forall|i: int|
            0 <= i < call_views(seeds[n].edge_hits@).len() ==> seed_order(seeds).contains(
                (#[trigger] call_views(seeds[n].edge_hits@)[i]).0.0,
            ) && seed_order(seeds).contains(call_views(seeds[n].edge_hits@)[i].0.1),
    decreases seeds.len(),
{
    let before = seed_order(seeds.drop_last());
    let last = seeds.last();
    let names = keys(last.function_hits.seq());
    let calls = call_views(last.edge_hits@);
    let mid = with_names(before, names);
    lemma_seed_order_distinct(seeds.drop_last());
    lemma_with_names(before, names, Seq::empty());
    lemma_with_calls(mid, calls, Seq::empty());
    if n == seeds.len() - 1 {
        assert forall|i: int| 0 <= i < names.len() implies seed_order(seeds).contains(
            #[trigger] names[i],
        ) by {
            assert(names.contains(names[i]));
            lemma_with_names(before, names, names[i]);
            lemma_with_calls(mid, calls, names[i]);
        }
    } else {
        lemma_seed_order(seeds.drop_last(), n);
        assert(seeds.drop_last()[n] == seeds[n]);
        let theirs = keys(seeds[n].function_hits.seq());
        let made = call_views(seeds[n].edge_hits@);
        assert forall|i: int| 0 <= i < theirs.len() implies seed_order(seeds).contains(
            #[trigger] theirs[i],
        ) by {
            assert(before.contains(theirs[i]));
            lemma_with_names(before, names, theirs[i]);
            lemma_with_calls(mid, calls, theirs[i]);
        }
        assert forall|i: int| 0 <= i < made.len() implies seed_order(seeds).contains(
            (#[trigger] made[i]).0.0,
        ) && seed_order(seeds).contains(made[i].0.1) by {
            assert(before.contains(made[i].0.0) && before.contains(made[i].0.1));
            lemma_with_names(before, names, made[i].0.0);
            lemma_with_calls(mid, calls, made[i].0.0);
            lemma_with_names(before, names, made[i].0.1);
            lemma_with_calls(mid, calls, made[i].0.1);
        }
    }
}

proof fn lemma_seed_order_distinct(seeds: Seq<SeedTraceSummary>)
    ensures
        seed_order(seeds).no_duplicates(),
    decreases seeds.len(),
{
    if seeds.len() > 0 {
        lemma_seed_order_distinct(seeds.drop_last());
        let before = seed_order(seeds.drop_last());
        let names = keys(seeds.last().function_hits.seq());
        lemma_with_names(before, names, Seq::empty());
        lemma_with_calls(with_names(before, names), call_views(seeds.last().edge_hits@), Seq::empty());
    }
}

/// Numbers the functions of a list of calls.
fn number_calls(
    ids: &mut FunctionIds,
    calls: &Vec<((String, String), u64)>,
    Ghost(order): Ghost<Seq<Seq<char>>>,
)
    requires
        numbered(*old(ids), order),
    ensures
        numbered(*final(ids), with_calls(order, call_views(calls@))),
{
    let ghost all = call_views(calls@);
    let n = calls.len();
    let mut i: usize = 0;
    assert(all.take(0).len() == 0);
    while i < n
        invariant
            all == call_views(calls@),
            n == calls@.len(),
            i <= n,
            numbered(*ids, with_calls(order, all.take(i as int))),
        decreases n - i,
    {
        assert(all.take(i + 1).drop_last() =~= all.take(i as int));
        let ghost before = with_calls(order, all.take(i as int));
        let call = &calls[i];
        assert(all[i as int] == ((call.0.0@, call.0.1@), call.1));
        number_name(ids, &call.0.0, Ghost(before));
        number_name(ids, &call.0.1, Ghost(with_name(before, call.0.0@)));
        i = i + 1;
    }
    assert(all.take(n as int) =~= all);
}

/// Numbers the functions that the seeds reach.
fn number_seeds(seed_summaries: &[SeedTraceSummary]) -> (r: FunctionIds)
    ensures
        numbered(r, seed_order(seed_summaries@)),
{
    let ghost seeds = seed_summaries@;
    let mut ids: FunctionIds = SortedMap::new();
    let n = seed_summaries.len();
    let mut i: usize = 0;
    assert(seeds.take(0).len() == 0);
    while i < n
        invariant
            seeds == seed_summaries@,
            n == seeds.len(),
            i <= n,
            numbered(ids, seed_order(seeds.take(i as int))),
        decreases n - i,
    {
        let seed = &seed_summaries[i];
        let ghost before = seed_order(seeds.take(i as int));
        assert(seeds.take(i + 1).drop_last() =~= seeds.take(i as int));
        number_keys(&mut ids, &seed.function_hits, Ghost(before));
        number_calls(
            &mut ids,
            &seed.edge_hits,
            Ghost(with_names(before, keys(seed.function_hits.seq()))),
        );
        i = i + 1;
    }
    assert(seeds.take(n as int) =~= seeds);
    ids
}

fn id_line(id: u64) -> (r: String)
    ensures
        r@ == id_row(id as int),
{
    let mut line = "      ".to_owned();
    append_number(&mut line, id);
    line
}

fn function_line(id: u64, name: &str) -> (r: String)
    ensures
        r@ == function_row(id, name@),
{
    let mut line = "    {\"id\":".to_owned();
    append_number(&mut line, id);
    append(&mut line, ",\"name\":");
    append_quoted(&mut line, name);
    append(&mut line, "}");
    line
}

/// Writes the numbers of the functions that are keys of a map, in the order of their names.
pub(crate) fn append_key_ids<V>(
    out: &mut String,
    names: &SortedMap<String, V>,
    ids: &FunctionIds,
    Ghost(order): Ghost<Seq<Seq<char>>>,
)
    requires
        numbered(*ids, order),
        forall|i: int|
            0 <= i < keys(names.seq()).len() ==> order.contains(#[trigger] keys(names.seq())[i]),
    ensures
        final(out)@ == old(out)@ + rows(
            Seq::new(
                names.seq().len(),
                |i: int| id_row(order.index_of(keys(names.seq())[i])),
            ),
        ),
{
    let ghost list = keys(names.seq());
    let ghost lines = Seq::new(list.len(), |i: int| id_row(order.index_of(list[i])));
    let ghost head = out@;
    let n = names.len();
    let mut i: usize = 0;
    assert(out@ =~= head + rows_up_to(lines, 0));
    while i < n
        invariant
            list == keys(names.seq()),
            lines == Seq::new(list.len(), |i: int| id_row(order.index_of(list[i]))),
            numbered(*ids, order),
            forall|i: int| 0 <= i < list.len() ==> order.contains(#[trigger] list[i]),
            n == list.len(),
            i <= n,
            out@ == head + rows_up_to(lines, i as int),
        decreases n - i,
    {
        let name = names.key_at(i);
        assert(list[i as int] == name@);
        let id = id_of(ids, name, Ghost(order));
        let line = id_line(id);
        push_row(out, line.as_str(), i + 1 == n, Ghost(head), Ghost(lines), Ghost(i as int));
        i = i + 1;
    }
    assert(lines =~= Seq::new(
        names.seq().len(),
        |i: int| id_row(order.index_of(keys(names.seq())[i])),
    ));
}

fn id_call_line(
    ids: &FunctionIds,
    call: &((String, String), u64),
    Ghost(order): Ghost<Seq<Seq<char>>>,
) -> (r: String)
    requires
        numbered(*ids, order),
        order.contains(call.0.0@),
        order.contains(call.0.1@),
    ensures
        r@ == id_call_row(order, ((call.0.0@, call.0.1@), call.1)),
{
    let mut line = "      {\"caller_id\":".to_owned();
    append_number(&mut line, id_of(ids, &call.0.0, Ghost(order)));
    append(&mut line, ",\"callee_id\":");
    append_number(&mut line, id_of(ids, &call.0.1, Ghost(order)));
    append(&mut line, ",\"count\":");
    append_number(&mut line, call.1);
    append(&mut line, "}");
    line
}

fn seed_entry(
    ids: &FunctionIds,
    seed: &SeedTraceSummary,
    Ghost(order): Ghost<Seq<Seq<char>>>,
) -> (r: String)
    requires
        numbered(*ids, order),
        forall|i: int|
            0 <= i < keys(seed.function_hits.seq()).len() ==> order.contains(
                #[trigger] keys(seed.function_hits.seq())[i],
            ),
        forall|i: int|
            0 <= i < call_views(seed.edge_hits@).len() ==> order.contains(
                (#[trigger] call_views(seed.edge_hits@)[i]).0.0,
            ) && order.contains(call_views(seed.edge_hits@)[i].0.1),
    ensures
        r@ == seed_block(order, *seed),
{
    let mut out = "    {\"seed\":".to_owned();
    append_quoted(&mut out, seed.seed_path.as_str());
    append(&mut out, ",\"artifact\":");
    append_quoted(&mut out, seed.artifact_stem.as_str());
    append(&mut out, ",\"function_ids\":");
    let ghost start = out@;
    append(&mut out, "[\n");
    append_key_ids(&mut out, &seed.function_hits, ids, Ghost(order));
    append(&mut out, "    ]");
    proof {
        let names = keys(seed.function_hits.seq());
        let lines = Seq::new(names.len(), |i: int| id_row(order.index_of(names[i])));
        assert(Seq::new(
            seed.function_hits.seq().len(),
            |i: int| id_row(order.index_of(keys(seed.function_hits.seq())[i])),
        ) =~= lines);
        assert(out@ =~= start + listed("[\n"@, lines, "    ]"@));
    }
    append(&mut out, ",\"edges\":");
    let ghost start = out@;
    append(&mut out, "[\n");
    let ghost calls = call_views(seed.edge_hits@);
    let ghost lines = Seq::new(calls.len(), |i: int| id_call_row(order, calls[i]));
    let ghost head = out@;
    let n = seed.edge_hits.len();
    let mut i: usize = 0;
    assert(out@ =~= head + rows_up_to(lines, 0));
    while i < n
        invariant
            numbered(*ids, order),
            calls == call_views(seed.edge_hits@),
            forall|i: int|
                0 <= i < calls.len() ==> order.contains((#[trigger] calls[i]).0.0)
                    && order.contains(calls[i].0.1),
            lines == Seq::new(calls.len(), |i: int| id_call_row(order, calls[i])),
            n == calls.len() == seed.edge_hits@.len(),
            i <= n,
            out@ == head + rows_up_to(lines, i as int),
        decreases n - i,
    {
        let call = &seed.edge_hits[i];
        assert(calls[i as int] == ((call.0.0@, call.0.1@), call.1));
        let line = id_call_line(ids, call, Ghost(order));
        push_row(&mut out, line.as_str(), i + 1 == n, Ghost(head), Ghost(lines), Ghost(i as int));
        i = i + 1;
    }
    append(&mut out, "    ]");
    assert(out@ =~= start + listed("[\n"@, lines, "    ]"@));
    append(&mut out, "}");
    out
}

/// Writes what the seeds reach.
pub fn write_seed_hits_json(seed_summaries: &[SeedTraceSummary]) -> (r: String)
    ensures
        exists|ids: FunctionIds|
            ids.ok() && numbered(ids, seed_order(seed_summaries@)) && r@ == #[trigger] seed_hits_text(
                ids.seq(),
                seed_summaries@,
            ),
{
    let ghost seeds = seed_summaries@;
    let ghost order = seed_order(seeds);
    let ids = number_seeds(seed_summaries);
    let ghost all = ids.seq();
    let ghost function_rows = Seq::new(all.len(), |i: int| function_row(all[i].1, all[i].0));
    let mut out = "{\n  \"functions\":".to_owned();
    let ghost start = out@;
    append(&mut out, " [\n");
    let ghost head = out@;
    let n = ids.len();
    let mut i: usize = 0;
    assert(out@ =~= head + rows_up_to(function_rows, 0));
    while i < n
        invariant
            all == ids.seq(),
            function_rows == Seq::new(all.len(), |i: int| function_row(all[i].1, all[i].0)),
            n == all.len(),
            i <= n,
            out@ == head + rows_up_to(function_rows, i as int),
        decreases n - i,
    {
        let line = function_line(*ids.value_at(i), ids.key_at(i).as_str());
        push_row(
            &mut out,
            line.as_str(),
            i + 1 == n,
            Ghost(head),
            Ghost(function_rows),
            Ghost(i as int),
        );
        i = i + 1;
    }
    append(&mut out, "  ]");
    assert(out@ =~= start + listed(" [\n"@, function_rows, "  ]"@));
    append(&mut out, ",\n  \"seeds\":");
    let ghost start = out@;
    append(&mut out, " [\n");
    let ghost blocks = Seq::new(seeds.len(), |i: int| seed_block(order, seeds[i]));
    let ghost head = out@;
    let m = seed_summaries.len();
    let mut j: usize = 0;
    assert(out@ =~= head + rows_up_to(blocks, 0));
    while j < m
        invariant
            seeds == seed_summaries@,
            order == seed_order(seeds),
            numbered(ids, order),
            blocks == Seq::new(seeds.len(), |i: int| seed_block(order, seeds[i])),
            m == seeds.len(),
            j <= m,
            out@ == head + rows_up_to(blocks, j as int),
        decreases m - j,
    {
        proof {
            lemma_seed_order(seeds, j as int);
        }
        let block = seed_entry(&ids, &seed_summaries[j], Ghost(order));
        push_row(&mut out, block.as_str(), j + 1 == m, Ghost(head), Ghost(blocks), Ghost(j as int));
        j = j + 1;
    }
    append(&mut out, "  ]");
    assert(out@ =~= start + listed(" [\n"@, blocks, "  ]"@));
    append(&mut out, "\n}");
    append(&mut out, "\n");
    assert(out@ == seed_hits_text(ids.seq(), seeds));
    out
}

} // verus!
