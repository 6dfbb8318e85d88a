//! Call graphs in the DOT language.

use crate::documents::{call_graph_nodes, is_node_list};
use crate::json::append_number;
use crate::ordered::{has_key, keys, lemma_has_key_take, Key, NameSet, SortedMap};
use crate::ranking::{edge_ranks_before, EdgeRank};
use crate::tasks::{EdgeModel, FunctionEdges};
use crate::text::{append, chars_of, decimal, texts};
use vstd::prelude::*;

verus! {

/// A text with a backslash before every quote.
pub open spec fn dot_escaped(s: Seq<char>) -> Seq<char>
    decreases s.len(),
{
    if s.len() == 0 {
        Seq::empty()
    } else if s.last() == '"' {
        dot_escaped(s.drop_last()).push('\\').push('"')
    } else {
        dot_escaped(s.drop_last()).push(s.last())
    }
}

pub fn dot_escape(s: &str) -> (r: String)
    ensures
        r@ == dot_escaped(s@),
{
    let c = chars_of(s);
    let n = c.len();
    let mut out = String::new();
    let mut i: usize = 0;
    assert(s@.take(0) =~= Seq::empty());
    while i < n
        invariant
            c@ == s@,
            n == c@.len(),
            i <= n,
            out@ == dot_escaped(s@.take(i as int)),
        decreases n - i,
    {
        assert(s@.take(i + 1).drop_last() =~= s@.take(i as int));
        if c[i] == '"' {
            out.push('\\');
        }
        out.push(c[i]);
        i = i + 1;
    }
    assert(s@.take(n as int) =~= s@);
    out
}

/// The first `n` lines.
pub open spec fn lines_up_to(lines: Seq<Seq<char>>, n: int) -> Seq<char>
    decreases n,
{
    if n <= 0 {
        Seq::empty()
    } else {
        lines_up_to(lines, n - 1) + lines[n - 1] + "\n"@
    }
}

/// Lines of text.
pub open spec fn line_text(lines: Seq<Seq<char>>) -> Seq<char> {
    lines_up_to(lines, lines.len() as int)
}

/// Writes the next line.
pub(crate) fn push_line(
    out: &mut String,
    line: &str,
    Ghost(before): Ghost<Seq<char>>,
    Ghost(lines): Ghost<Seq<Seq<char>>>,
    Ghost(n): Ghost<int>,
)
    requires
        0 <= n < lines.len(),
        old(out)@ == before + lines_up_to(lines, n),
        line@ == lines[n],
    ensures
        final(out)@ == before + lines_up_to(lines, n + 1),
{
    append(out, line);
    append(out, "\n");
    assert(out@ =~= before + lines_up_to(lines, n + 1));
}

/// How a function is declared.
pub open spec fn dot_node(name: Seq<char>) -> Seq<char> {
    "    \""@ + dot_escaped(name) + "\" [label=\""@ + dot_escaped(name) + "\"];"@
}

/// How a call is declared. The width of the line is given as a text, by the number of calls.
pub open spec fn dot_call(
    call: (u64, Seq<char>, Seq<char>, usize),
    widths: Map<u64, String>,
) -> Seq<char> {
    "    \""@ + dot_escaped(call.1) + "\" -> \""@ + dot_escaped(call.2) + "\" [label=\""@ + decimal(
        call.0 as nat,
    ) + "\", penwidth="@ + widths[call.0]@ + "];"@
}

/// The calls, those that were made most first; calls that were made as often go by their names.
pub open spec fn is_call_order(
    edges: EdgeModel,
    order: Seq<(u64, Seq<char>, Seq<char>, usize)>,
) -> bool {
    &&& forall|i: int, j: int|
        0 <= i < j < order.len() ==> edge_ranks_before(#[trigger] order[i], #[trigger] order[j])
    &&& forall|call: (u64, Seq<char>, Seq<char>, usize)| #[trigger]
        order.contains(call) <==> call.3 == 0 && edges.contains_key((call.1, call.2)) && edges[(
            call.1,
            call.2,
        )] == call.0
}

/// A graph as it is written.
pub open spec fn dot_text(
    names: Seq<Seq<char>>,
    calls: Seq<(u64, Seq<char>, Seq<char>, usize)>,
    widths: Map<u64, String>,
) -> Seq<char> {
    "digraph callgraph {\n    rankdir=LR;\n    node [shape=box, style=filled, fillcolor=lightyellow];\n\n"@
        + line_text(Seq::new(names.len(), |i: int| dot_node(names[i]))) + "\n"@ + line_text(
        Seq::new(calls.len(), |i: int| dot_call(calls[i], widths)),
    ) + "}\n"@
}

/// What a graph of these functions and calls is written as.
pub open spec fn is_dot_text(
    names: Seq<Seq<char>>,
    edges: EdgeModel,
    widths: Map<u64, String>,
    text: Seq<char>,
) -> bool {
    exists|calls: Seq<(u64, Seq<char>, Seq<char>, usize)>|
        is_call_order(edges, calls) && text == #[trigger] dot_text(names, calls, widths)
}

/// Whether the width of the line is given for every call.
pub open spec fn widths_given(edges: EdgeModel, widths: Map<u64, String>) -> bool {
    forall|call: (Seq<char>, Seq<char>)| #[trigger]
        edges.contains_key(call) ==> widths.contains_key(edges[call])
}

fn rank_calls(func_edges: &FunctionEdges) -> (r: SortedMap<EdgeRank, ()>)
    ensures
        r.ok(),
        is_call_order(func_edges@, keys(r.seq())),
{
    let ghost all = func_edges.seq();
    let ghost edges = func_edges@;
    let n = func_edges.len();
    let mut ranks: SortedMap<EdgeRank, ()> = SortedMap::new();
    let mut i: usize = 0;
    while i < n
        invariant
            all == func_edges.seq(),
            edges == func_edges@,
            n == all.len(),
            i <= n,
            ranks.ok(),
            forall|k: (u64, Seq<char>, Seq<char>, usize)| #[trigger]
                ranks@.contains_key(k) <==> k.3 == 0 && has_key(all.take(i as int), (k.1, k.2))
                    && edges[(k.1, k.2)] == k.0,
        decreases n - i,
    {
        let call = func_edges.key_at(i);
        let count = *func_edges.value_at(i);
        let ghost before = ranks@;
        ranks.insert(
            EdgeRank {
                weight: count,
                source: call.0.clone(),
                target: call.1.clone(),
                index: 0,
            },
            (),
        );
        proof {
            assert forall|k: (u64, Seq<char>, Seq<char>, usize)| #[trigger]
                ranks@.contains_key(k) <==> k.3 == 0 && has_key(all.take(i + 1), (k.1, k.2))
                    && edges[(k.1, k.2)] == k.0 by {
                lemma_has_key_take(all, i as int, (k.1, k.2));
                assert(before.contains_key(k) <==> k.3 == 0 && has_key(
                    all.take(i as int),
                    (k.1, k.2),
                ) && edges[(k.1, k.2)] == k.0);
            }
        }
        i = i + 1;
    }
    proof {
        assert(all.take(n as int) =~= all);
        let order = keys(ranks.seq());
        assert forall|a: int, b: int| 0 <= a < b < order.len() implies edge_ranks_before(
            #[trigger] order[a],
            #[trigger] order[b],
        ) by {
            assert(<EdgeRank as Key>::lt(ranks.seq()[a].0, ranks.seq()[b].0));
        }
        assert forall|k: (u64, Seq<char>, Seq<char>, usize)| #[trigger]
            order.contains(k) <==> k.3 == 0 && edges.contains_key((k.1, k.2)) && edges[(k.1, k.2)]
                == k.0 by {
            assert(ranks@.contains_key(k) <==> k.3 == 0 && has_key(all, (k.1, k.2)) && edges[(
                k.1,
                k.2,
            )] == k.0);
            if order.contains(k) {
                let a = order.index_of(k);
                assert(ranks.seq()[a].0 == k);
            }
            if ranks@.contains_key(k) {
                let a = choose|a: int|
                    0 <= a < ranks.seq().len() && (#[trigger] ranks.seq()[a]).0 == k;
                assert(order[a] == k);
            }
        }
    }
    ranks
}

fn node_line(name: &str) -> (r: String)
    ensures
        r@ == dot_node(name@),
{
    let escaped = dot_escape(name);
    let mut line = "    \"".to_owned();
    append(&mut line, escaped.as_str());
    append(&mut line, "\" [label=\"");
    append(&mut line, escaped.as_str());
    append(&mut line, "\"];");
    line
}

fn call_line(rank: &EdgeRank, width: &str, Ghost(widths): Ghost<Map<u64, String>>) -> (r: String)
    requires
        widths[rank.weight]@ == width@,
    ensures
        r@ == dot_call((rank.weight, rank.source@, rank.target@, rank.index), widths),
{
    let source = dot_escape(rank.source.as_str());
    let target = dot_escape(rank.target.as_str());
    let mut line = "    \"".to_owned();
    append(&mut line, source.as_str());
    append(&mut line, "\" -> \"");
    append(&mut line, target.as_str());
    append(&mut line, "\" [label=\"");
    append_number(&mut line, rank.weight);
    append(&mut line, "\", penwidth=");
    append(&mut line, width);
    append(&mut line, "];");
    line
}

/// Writes a graph of functions and calls. The width of the line of a call is given as a text, by
/// the number of calls.
pub fn write_dot_graph(
    nodes: &NameSet,
    func_edges: &FunctionEdges,
    widths: &SortedMap<u64, String>,
) -> (r: String)
    requires
        widths_given(func_edges@, widths@),
    ensures
        is_dot_text(keys(nodes.seq()), func_edges@, widths@, r@),
{
    let ghost names = keys(nodes.seq());
    let ghost wide = widths@;
    let ghost node_lines = Seq::new(names.len(), |i: int| dot_node(names[i]));
    let mut out =
        "digraph callgraph {\n    rankdir=LR;\n    node [shape=box, style=filled, fillcolor=lightyellow];\n\n".to_owned();
    let ghost head = out@;
    let n = nodes.len();
    let mut i: usize = 0;
    assert(out@ =~= head + lines_up_to(node_lines, 0));
    while i < n
        invariant
            names == keys(nodes.seq()),
            node_lines == Seq::new(names.len(), |i: int| dot_node(names[i])),
            n == names.len(),
            i <= n,
            out@ == head + lines_up_to(node_lines, i as int),
        decreases n - i,
    {
        let line = node_line(nodes.key_at(i).as_str());
        push_line(&mut out, line.as_str(), Ghost(head), Ghost(node_lines), Ghost(i as int));
        i = i + 1;
    }
    append(&mut out, "\n");
    let ranks = rank_calls(func_edges);
    let ghost calls = keys(ranks.seq());
    let ghost call_lines = Seq::new(calls.len(), |i: int| dot_call(calls[i], wide));
    let ghost head = out@;
    let m = ranks.len();
    let mut j: usize = 0;
    assert(out@ =~= head + lines_up_to(call_lines, 0));
    while j < m
        invariant
            wide == widths@,
            widths_given(func_edges@, wide),
            calls == keys(ranks.seq()),
            is_call_order(func_edges@, calls),
            call_lines == Seq::new(calls.len(), |i: int| dot_call(calls[i], wide)),
            m == calls.len(),
            j <= m,
            out@ == head + lines_up_to(call_lines, j as int),
        decreases m - j,
    {
        let rank = ranks.key_at(j);
        proof {
            let call = calls[j as int];
            assert(call == (rank.weight, rank.source@, rank.target@, rank.index));
            assert(calls.contains(call));
            assert(func_edges@.contains_key((call.1, call.2)));
        }
        let width = widths.get(&rank.weight).unwrap();
        let line = call_line(rank, width.as_str(), Ghost(wide));
        push_line(&mut out, line.as_str(), Ghost(head), Ghost(call_lines), Ghost(j as int));
        j = j + 1;
    }
    append(&mut out, "}\n");
    assert(out@ == dot_text(names, calls, wide));
    out
}

/// Writes the graph of all functions that take part in a call.
pub fn write_dot_callgraph(func_edges: &FunctionEdges, widths: &SortedMap<u64, String>) -> (r: String)
    requires
        widths_given(func_edges@, widths@),
    ensures
        exists|names: Seq<Seq<char>>|
            is_node_list(func_edges@, names) && #[trigger] is_dot_text(
                names,
                func_edges@,
                widths@,
                r@,
            ),
{
    let nodes = call_graph_nodes(func_edges);
    write_dot_graph(&nodes, func_edges, widths)
}

/// The calls between functions of a list.
pub open spec fn calls_among(edges: EdgeModel, names: Seq<Seq<char>>) -> EdgeModel {
    edges.restrict(
        Set::new(|call: (Seq<char>, Seq<char>)| names.contains(call.0) && names.contains(call.1)),
    )
}

/// A set of the names of a list.
pub fn name_set(names: &[String]) -> (r: NameSet)
    ensures
        r.ok(),
        forall|name: Seq<char>| #[trigger] r@.contains_key(name) <==> texts(names@).contains(name),
{
    let ghost all = texts(names@);
    let n = names.len();
    let mut out: NameSet = SortedMap::new();
    let mut i: usize = 0;
    while i < n
        invariant
            all == texts(names@),
            n == names@.len(),
            i <= n,
            out.ok(),
            forall|name: Seq<char>| #[trigger]
                out@.contains_key(name) <==> exists|k: int| 0 <= k < i && #[trigger] all[k] == name,
        decreases n - i,
    {
        let ghost before = out@;
        out.insert(names[i].clone(), ());
        proof {
            assert(all[i as int] == names@[i as int]@);
            assert forall|name: Seq<char>| #[trigger] out@.contains_key(name) <==> exists|k: int|
                0 <= k < i + 1 && #[trigger] all[k] == name by {
                assert(before.contains_key(name) <==> exists|k: int|
                    0 <= k < i && #[trigger] all[k] == name);
            }
        }
        i = i + 1;
    }
    proof {
        assert forall|name: Seq<char>| #[trigger] out@.contains_key(name) <==> all.contains(
            name,
        ) by {
            if all.contains(name) {
                let k = all.index_of(name);
                assert(all[k] == name);
            }
        }
    }
    out
}

/// The calls between the given functions.
pub fn select_function_edges(func_edges: &FunctionEdges, functions: &[String]) -> (r: FunctionEdges)
    ensures
        r@ == calls_among(func_edges@, texts(functions@)),
{
    let ghost all = func_edges.seq();
    let ghost names = texts(functions@);
    let selected = name_set(functions);
    let n = func_edges.len();
    let mut out: FunctionEdges = SortedMap::new();
    let mut i: usize = 0;
    while i < n
        invariant
            all == func_edges.seq(),
            names == texts(functions@),
            forall|name: Seq<char>| #[trigger]
                selected@.contains_key(name) <==> names.contains(name),
            n == all.len(),
            i <= n,
            forall|k: (Seq<char>, Seq<char>)| #[trigger]
                out@.contains_key(k) <==> has_key(all.take(i as int), k) && names.contains(k.0)
                    && names.contains(k.1),
            forall|k: (Seq<char>, Seq<char>)| #[trigger]
                out@.contains_key(k) ==> out@[k] == func_edges@[k],
        decreases n - i,
    {
        let call = func_edges.key_at(i);
        let ghost before = out@;
        if selected.contains(&call.0) && selected.contains(&call.1) {
            out.insert((call.0.clone(), call.1.clone()), *func_edges.value_at(i));
        }
        proof {
            assert forall|k: (Seq<char>, Seq<char>)| #[trigger]
                out@.contains_key(k) <==> has_key(all.take(i + 1), k) && names.contains(k.0)
                    && names.contains(k.1) by {
                lemma_has_key_take(all, i as int, k);
                assert(before.contains_key(k) <==> has_key(all.take(i as int), k)
                    && names.contains(k.0) && names.contains(k.1));
            }
        }
        i = i + 1;
    }
    proof {
        assert(all.take(n as int) =~= all);
        assert(out@ =~= calls_among(func_edges@, names));
    }
    out
}

} // verus!
