//! What holds of what is written down: of numbers for functions, of states and names that are kept,
//! and of pictures of calls.

use crate::coverage::{CoverageState, FunctionCoverage};
use crate::coverage_state::{listed_states, next_states};
use crate::documents::{seed_order, with_calls};
use crate::dot::{dot_escaped, dot_text, is_call_order, line_text, lines_up_to};
use crate::ids::{numbered, with_name, with_names, FunctionIds};
use crate::ordered::{keys, Key};
use crate::partition_files::{
    is_task_output, partition_order, seeded, source_text, task_order, task_text, TaskOutput,
};
use crate::pieces::{are_patterns, is_space, is_trimmed, pieces};
use crate::placement::PartitionPlan;
use crate::symbol_cache::{cached_names, listed_symbols};
use crate::tasks::EdgeModel;
use crate::text::{occurs_at, text_contains, text_lt, texts};
use crate::trace::{call_views, SeedTraceSummary};
use crate::tree::TreeModel;
use vstd::prelude::*;

verus! {

/// Names that are added to a list stand there once, behind those that stood there; nothing else
/// changes.
pub proof fn law_names_are_listed_once(
    order: Seq<Seq<char>>,
    names: Seq<Seq<char>>,
    name: Seq<char>,
)
    requires
        order.no_duplicates(),
    ensures
        with_names(order, names).no_duplicates(),
        with_names(order, names).contains(name) <==> order.contains(name) || names.contains(name),
        order.is_prefix_of(with_names(order, names)),
    decreases names.len(),
{
    if names.len() > 0 {
        let less = names.drop_last();
        law_names_are_listed_once(order, less, name);
        let before = with_names(order, less);
        lemma_with_name(before, names.last(), name);
        assert(names[names.len() - 1] == names.last());
        if less.contains(name) {
            let k = less.index_of(name);
            assert(names[k] == name);
        }
        if names.contains(name) && name != names.last() {
            let k = names.index_of(name);
            assert(less[k] == name);
        }
    }
}

proof fn lemma_with_name(order: Seq<Seq<char>>, added: Seq<char>, name: Seq<char>)
    requires
        order.no_duplicates(),
    ensures
        with_name(order, added).no_duplicates(),
        with_name(order, added).contains(name) <==> order.contains(name) || name == added,
        order.is_prefix_of(with_name(order, added)),
{
    let after = with_name(order, added);
    if !order.contains(added) {
        assert(after[order.len() as int] == added);
    }
    if order.contains(name) {
        let k = order.index_of(name);
        assert(after[k] == name);
    }
    if after.contains(name) && name != added {
        let k = after.index_of(name);
        assert(order[k] == name);
    }
}

proof fn lemma_with_calls(
    order: Seq<Seq<char>>,
    calls: Seq<((Seq<char>, Seq<char>), u64)>,
    name: Seq<char>,
)
    requires
        order.no_duplicates(),
    ensures
        with_calls(order, calls).no_duplicates(),
        with_calls(order, calls).contains(name) <==> order.contains(name) || exists|i: int|
            0 <= i < calls.len() && ((#[trigger] calls[i]).0.0 == name || calls[i].0.1 == name),
    decreases calls.len(),
{
    if calls.len() > 0 {
        let less = calls.drop_last();
        lemma_with_calls(order, less, name);
        let before = with_calls(order, less);
        lemma_with_name(before, calls.last().0.0, name);
        lemma_with_name(with_name(before, calls.last().0.0), calls.last().0.1, name);
        assert(calls[calls.len() - 1] == calls.last());
        if exists|i: int|
            0 <= i < less.len() && ((#[trigger] less[i]).0.0 == name || less[i].0.1 == name) {
            let i = choose|i: int|
                0 <= i < less.len() && ((#[trigger] less[i]).0.0 == name || less[i].0.1 == name);
            assert(calls[i] == less[i]);
        }
        if exists|i: int|
            0 <= i < calls.len() && ((#[trigger] calls[i]).0.0 == name || calls[i].0.1 == name) {
            let i = choose|i: int|
                0 <= i < calls.len() && ((#[trigger] calls[i]).0.0 == name || calls[i].0.1 == name);
            if i < less.len() {
                assert(less[i] == calls[i]);
            }
        }
    }
}

/// Whether a seed tells of a function.
pub open spec fn tells_of(seed: SeedTraceSummary, name: Seq<char>) -> bool {
    keys(seed.function_hits.seq()).contains(name) || exists|i: int|
        0 <= i < seed.edge_hits@.len() && ((#[trigger] seed.edge_hits@[i]).0.0@ == name
            || seed.edge_hits@[i].0.1@ == name)
}

proof fn lemma_call_views(seed: SeedTraceSummary, name: Seq<char>)
    ensures
        (exists|i: int|
            0 <= i < call_views(seed.edge_hits@).len() && ((#[trigger] call_views(
                seed.edge_hits@,
            )[i]).0.0 == name || call_views(seed.edge_hits@)[i].0.1 == name)) <==> (exists|i: int|
            0 <= i < seed.edge_hits@.len() && ((#[trigger] seed.edge_hits@[i]).0.0@ == name
                || seed.edge_hits@[i].0.1@ == name)),
{
    let views = call_views(seed.edge_hits@);
    if exists|i: int|
        0 <= i < views.len() && ((#[trigger] views[i]).0.0 == name || views[i].0.1 == name) {
        let i = choose|i: int|
            0 <= i < views.len() && ((#[trigger] views[i]).0.0 == name || views[i].0.1 == name);
        assert(seed.edge_hits@[i].0.0@ == name || seed.edge_hits@[i].0.1@ == name);
    }
    if exists|i: int|
        0 <= i < seed.edge_hits@.len() && ((#[trigger] seed.edge_hits@[i]).0.0@ == name
            || seed.edge_hits@[i].0.1@ == name) {
        let i = choose|i: int|
            0 <= i < seed.edge_hits@.len() && ((#[trigger] seed.edge_hits@[i]).0.0@ == name
                || seed.edge_hits@[i].0.1@ == name);
        assert(views[i].0.0 == name || views[i].0.1 == name);
    }
}

/// The functions that get numbers are those that seeds tell of, each once.
pub proof fn law_functions_of_seeds_are_numbered(seeds: Seq<SeedTraceSummary>, name: Seq<char>)
    ensures
        seed_order(seeds).no_duplicates(),
        seed_order(seeds).contains(name) <==> exists|s: int|
            0 <= s < seeds.len() && tells_of(#[trigger] seeds[s], name),
    decreases seeds.len(),
{
    if seeds.len() > 0 {
        let less = seeds.drop_last();
        let last = seeds.last();
        law_functions_of_seeds_are_numbered(less, name);
        let before = seed_order(less);
        let named = with_names(before, keys(last.function_hits.seq()));
        law_names_are_listed_once(before, keys(last.function_hits.seq()), name);
        lemma_with_calls(named, call_views(last.edge_hits@), name);
        lemma_call_views(last, name);
        assert(seeds[seeds.len() - 1] == last);
        if before.contains(name) {
            let s = choose|s: int| 0 <= s < less.len() && tells_of(#[trigger] less[s], name);
            assert(seeds[s] == less[s]);
        }
        if exists|s: int| 0 <= s < seeds.len() && tells_of(#[trigger] seeds[s], name) {
            let s = choose|s: int| 0 <= s < seeds.len() && tells_of(#[trigger] seeds[s], name);
            if s < less.len() {
                assert(less[s] == seeds[s]);
            }
        }
    }
}

/// The functions of the tasks get numbers in the order of the tasks, then those that are shared.
pub proof fn law_functions_of_tasks_are_numbered(
    tasks: Seq<Vec<String>>,
    shared: Seq<Seq<char>>,
    name: Seq<char>,
)
    ensures
        partition_order(tasks, shared).no_duplicates(),
        partition_order(tasks, shared).contains(name) <==> shared.contains(name) || exists|t: int|
            0 <= t < tasks.len() && texts((#[trigger] tasks[t])@).contains(name),
        task_order(tasks).is_prefix_of(partition_order(tasks, shared)),
{
    lemma_task_order(tasks, name);
    law_names_are_listed_once(task_order(tasks), shared, name);
}

proof fn lemma_task_order(tasks: Seq<Vec<String>>, name: Seq<char>)
    ensures
        task_order(tasks).no_duplicates(),
        task_order(tasks).contains(name) <==> exists|t: int|
            0 <= t < tasks.len() && texts((#[trigger] tasks[t])@).contains(name),
    decreases tasks.len(),
{
    if tasks.len() > 0 {
        let less = tasks.drop_last();
        lemma_task_order(less, name);
        law_names_are_listed_once(task_order(less), texts(tasks.last()@), name);
        assert(tasks[tasks.len() - 1] == tasks.last());
        if task_order(less).contains(name) {
            let t = choose|t: int|
                0 <= t < less.len() && texts((#[trigger] less[t])@).contains(name);
            assert(tasks[t] == less[t]);
        }
        if exists|t: int| 0 <= t < tasks.len() && texts((#[trigger] tasks[t])@).contains(name) {
            let t = choose|t: int|
                0 <= t < tasks.len() && texts((#[trigger] tasks[t])@).contains(name);
            if t < less.len() {
                assert(less[t] == tasks[t]);
            }
        }
    }
}

/// The number of a function is its place in the list, counted from 0.
pub proof fn law_number_is_place(ids: FunctionIds, order: Seq<Seq<char>>, i: int)
    requires
        numbered(ids, order),
        0 <= i < order.len(),
    ensures
        ids@.contains_key(order[i]),
        ids@[order[i]] == i,
        ids.seq().len() == order.len(),
{
    assert(order.contains(order[i]));
    let k = order.index_of(order[i]);
    assert(order[k] == order[i]);
}

/// Of the states that are listed for a function, the last counts; a number that is missing is 0.
pub proof fn law_last_state_counts(list: Seq<TreeModel>, i: int, name: Seq<char>)
    requires
        0 <= i < list.len(),
        list[i].text_at("name"@) == Some(name),
        forall|k: int| i < k < list.len() ==> (#[trigger] list[k]).text_at("name"@) != Some(name),
    ensures
        listed_states(list).contains_key(name),
        list[i].number_at("line_covered"@) matches Some(n) ==> listed_states(
            list,
        )[name].line_covered == n,
        list[i].number_at("line_covered"@) is None ==> listed_states(list)[name].line_covered == 0,
        list[i].number_at("no_gain_cycles"@) matches Some(n) ==> listed_states(
            list,
        )[name].no_gain_cycles == n,
        list[i].number_at("no_gain_cycles"@) is None ==> listed_states(list)[name].no_gain_cycles
            == 0,
    decreases list.len(),
{
    if i < list.len() - 1 {
        let less = list.drop_last();
        assert(list[list.len() - 1].text_at("name"@) != Some(name));
        assert forall|k: int| i < k < less.len() implies (#[trigger] less[k]).text_at("name"@)
            != Some(name) by {
            assert(less[k] == list[k]);
        }
        law_last_state_counts(less, i, name);
    }
}

/// A function that no entry names has no state.
pub proof fn law_unlisted_has_no_state(list: Seq<TreeModel>, name: Seq<char>)
    requires
        forall|k: int| 0 <= k < list.len() ==> (#[trigger] list[k]).text_at("name"@) != Some(name),
    ensures
        !listed_states(list).contains_key(name),
    decreases list.len(),
{
    if list.len() > 0 {
        let less = list.drop_last();
        assert(list[list.len() - 1].text_at("name"@) != Some(name));
        assert forall|k: int| 0 <= k < less.len() implies (#[trigger] less[k]).text_at("name"@)
            != Some(name) by {
            assert(less[k] == list[k]);
        }
        law_unlisted_has_no_state(less, name);
    }
}

/// There is a state for each function that was measured and for no other; it keeps how many lines
/// were executed. A function that gained lines starts anew; one that did not has waited one more
/// time, as far as can be counted.
pub proof fn law_states_follow_coverage(
    coverage: Map<Seq<char>, FunctionCoverage>,
    prev: Map<Seq<char>, CoverageState>,
    name: Seq<char>,
)
    ensures
        next_states(coverage, prev).contains_key(name) <==> coverage.contains_key(name),
        coverage.contains_key(name) ==> {
            let next = next_states(coverage, prev)[name];
            let (lines, waited): (u64, u64) = if prev.contains_key(name) {
                (prev[name].line_covered, prev[name].no_gain_cycles)
            } else {
                (0, 0)
            };
            &&& next.line_covered == coverage[name].line_covered
            &&& coverage[name].line_covered > lines ==> next.no_gain_cycles == 0
            &&& coverage[name].line_covered <= lines && waited < u64::MAX ==> next.no_gain_cycles
                == waited + 1
            &&& coverage[name].line_covered <= lines && waited == u64::MAX ==> next.no_gain_cycles
                == waited
        },
{
}

/// Names that were kept count only for the binary that they were found in, as large and as old.
pub proof fn law_stale_names_are_dropped(doc: TreeModel, size: u64, mtime_ns: u64)
    ensures
        doc.number_at("binary_size"@) != Some(size) ==> cached_names(doc, size, mtime_ns).dom()
            =~= Set::empty(),
        doc.number_at("binary_mtime_ns"@) != Some(mtime_ns) ==> cached_names(
            doc,
            size,
            mtime_ns,
        ).dom() =~= Set::empty(),
        doc.number_at("version"@) != Some(2u64) ==> cached_names(doc, size, mtime_ns).dom()
            =~= Set::empty(),
        doc.number_at("binary_size"@) == Some(size) && doc.number_at("binary_mtime_ns"@) == Some(
            mtime_ns,
        ) && doc.number_at("version"@) == Some(2u64) ==> cached_names(doc, size, mtime_ns)
            == listed_symbols(doc.items_at("symbols"@)),
{
}

/// Of the names that are listed for an address, the last counts.
pub proof fn law_last_symbol_counts(list: Seq<TreeModel>, i: int, pc: u64, name: Seq<char>)
    requires
        0 <= i < list.len(),
        list[i].number_at("pc"@) == Some(pc),
        list[i].text_at("name"@) == Some(name),
        forall|k: int|
            i < k < list.len() ==> (#[trigger] list[k]).number_at("pc"@) != Some(pc)
                || list[k].text_at("name"@) is None,
    ensures
        listed_symbols(list).contains_key(pc),
        listed_symbols(list)[pc] == name,
    decreases list.len(),
{
    if i < list.len() - 1 {
        let less = list.drop_last();
        assert(list[list.len() - 1].number_at("pc"@) != Some(pc) || list[list.len() - 1].text_at(
            "name"@,
        ) is None);
        assert forall|k: int| i < k < less.len() implies (#[trigger] less[k]).number_at("pc"@)
            != Some(pc) || less[k].text_at("name"@) is None by {
            assert(less[k] == list[k]);
        }
        law_last_symbol_counts(less, i, pc, name);
    }
}

/// An address that no entry names has no name.
pub proof fn law_unlisted_has_no_symbol(list: Seq<TreeModel>, pc: u64)
    requires
        forall|k: int|
            0 <= k < list.len() ==> (#[trigger] list[k]).number_at("pc"@) != Some(pc)
                || list[k].text_at("name"@) is None,
    ensures
        !listed_symbols(list).contains_key(pc),
    decreases list.len(),
{
    if list.len() > 0 {
        let less = list.drop_last();
        assert(list[list.len() - 1].number_at("pc"@) != Some(pc) || list[list.len() - 1].text_at(
            "name"@,
        ) is None);
        assert forall|k: int| 0 <= k < less.len() implies (#[trigger] less[k]).number_at("pc"@)
            != Some(pc) || less[k].text_at("name"@) is None by {
            assert(less[k] == list[k]);
        }
        law_unlisted_has_no_symbol(less, pc);
    }
}

/// In a picture a quote gets a backslash in front of it; everything else stays as it is.
pub proof fn law_quotes_are_escaped(a: Seq<char>, c: char)
    ensures
        c == '"' ==> dot_escaped(a.push(c)) == dot_escaped(a) + seq!['\\', '"'],
        c != '"' ==> dot_escaped(a.push(c)) == dot_escaped(a) + seq![c],
        dot_escaped(Seq::empty()) == Seq::<char>::empty(),
{
    assert(a.push(c).drop_last() =~= a);
    assert(dot_escaped(a).push('\\').push('"') =~= dot_escaped(a) + seq!['\\', '"']);
    assert(dot_escaped(a).push(c) =~= dot_escaped(a) + seq![c]);
}

/// Lines stand below each other, each with its end.
pub proof fn law_lines_follow_each_other(lines: Seq<Seq<char>>, line: Seq<char>)
    ensures
        line_text(lines.push(line)) == line_text(lines) + line + "\n"@,
        line_text(Seq::empty()) == Seq::<char>::empty(),
{
    lemma_lines(lines, line, lines.len() as int);
}

proof fn lemma_lines(lines: Seq<Seq<char>>, line: Seq<char>, n: int)
    requires
        0 <= n <= lines.len(),
    ensures
        lines_up_to(lines.push(line), n) == lines_up_to(lines, n),
    decreases n,
{
    if n > 0 {
        lemma_lines(lines, line, n - 1);
    }
}

proof fn lemma_line_is_there(lines: Seq<Seq<char>>, n: int, i: int)
    requires
        0 <= i < n <= lines.len(),
    ensures
        text_contains(lines_up_to(lines, n), lines[i] + "\n"@),
    decreases n,
{
    let before = lines_up_to(lines, n - 1);
    let whole = lines_up_to(lines, n);
    let line = lines[i] + "\n"@;
    if i == n - 1 {
        assert(whole =~= before + line);
        crate::wording::law_parts_are_contained(before, line, Seq::empty());
        assert(before + line + Seq::<char>::empty() =~= whole);
    } else {
        lemma_line_is_there(lines, n - 1, i);
        let at = choose|at: int| #[trigger] occurs_at(before, line, at);
        assert(whole.subrange(at, at + line.len()) =~= before.subrange(at, at + line.len()));
        assert(occurs_at(whole, line, at));
    }
}

/// Every line of a text is there.
pub proof fn law_every_line_is_there(lines: Seq<Seq<char>>, i: int)
    requires
        0 <= i < lines.len(),
    ensures
        text_contains(line_text(lines), lines[i] + "\n"@),
{
    lemma_line_is_there(lines, lines.len() as int, i);
}

/// The picture shows every function, under its name.
pub proof fn law_picture_shows_functions(
    names: Seq<Seq<char>>,
    calls: Seq<(u64, Seq<char>, Seq<char>, usize)>,
    widths: Map<u64, String>,
    i: int,
)
    requires
        0 <= i < names.len(),
    ensures
        text_contains(
            dot_text(names, calls, widths),
            "    \""@ + dot_escaped(names[i]) + "\" [label=\""@ + dot_escaped(names[i]) + "\"];"@
                + "\n"@,
        ),
{
    let lines = Seq::new(names.len(), |i: int| crate::dot::dot_node(names[i]));
    law_every_line_is_there(lines, i);
    let head =
        "digraph callgraph {\n    rankdir=LR;\n    node [shape=box, style=filled, fillcolor=lightyellow];\n\n"@;
    let tail = "\n"@ + line_text(
        Seq::new(calls.len(), |i: int| crate::dot::dot_call(calls[i], widths)),
    ) + "}\n"@;
    let line = lines[i] + "\n"@;
    lemma_contained_inside(head, line_text(lines), tail, line);
    assert(dot_text(names, calls, widths) =~= head + line_text(lines) + tail);
}

/// The picture shows every call, with how often it was made.
pub proof fn law_picture_shows_calls(
    names: Seq<Seq<char>>,
    calls: Seq<(u64, Seq<char>, Seq<char>, usize)>,
    widths: Map<u64, String>,
    i: int,
)
    requires
        0 <= i < calls.len(),
    ensures
        text_contains(
            dot_text(names, calls, widths),
            "    \""@ + dot_escaped(calls[i].1) + "\" -> \""@ + dot_escaped(calls[i].2)
                + "\" [label=\""@ + crate::text::decimal(calls[i].0 as nat) + "\", penwidth="@
                + widths[calls[i].0]@ + "];"@ + "\n"@,
        ),
{
    let lines = Seq::new(calls.len(), |i: int| crate::dot::dot_call(calls[i], widths));
    law_every_line_is_there(lines, i);
    let head =
        "digraph callgraph {\n    rankdir=LR;\n    node [shape=box, style=filled, fillcolor=lightyellow];\n\n"@
        + line_text(Seq::new(names.len(), |i: int| crate::dot::dot_node(names[i]))) + "\n"@;
    let line = lines[i] + "\n"@;
    lemma_contained_inside(head, line_text(lines), "}\n"@, line);
    assert(dot_text(names, calls, widths) =~= head + line_text(lines) + "}\n"@);
}

proof fn lemma_contained_inside(a: Seq<char>, b: Seq<char>, c: Seq<char>, part: Seq<char>)
    requires
        text_contains(b, part),
    ensures
        text_contains(a + b + c, part),
{
    let at = choose|at: int| #[trigger] occurs_at(b, part, at);
    let whole = a + b + c;
    assert(whole.subrange(a.len() + at, a.len() + at + part.len()) =~= b.subrange(
        at,
        at + part.len(),
    ));
    assert(occurs_at(whole, part, a.len() + at));
}

/// Calls that were made more often come first, and every call comes.
pub proof fn law_frequent_calls_come_first(
    edges: EdgeModel,
    order: Seq<(u64, Seq<char>, Seq<char>, usize)>,
    i: int,
    j: int,
    call: (Seq<char>, Seq<char>),
)
    requires
        is_call_order(edges, order),
        0 <= i < j < order.len(),
    ensures
        order[i].0 >= order[j].0,
        order[i].0 == order[j].0 ==> !text_lt(order[j].1, order[i].1),
        edges.contains_key(call) ==> order.contains((edges[call], call.0, call.1, 0)),
        edges.contains_key((order[i].1, order[i].2)),
        edges[(order[i].1, order[i].2)] == order[i].0,
{
    let (a, b) = (order[i].1, order[j].1);
    crate::text::lemma_text_lt_irreflexive(a);
    if text_lt(a, b) && text_lt(b, a) {
        crate::text::lemma_text_lt_transitive(a, b, a);
    }
    assert(order.contains(order[i]));
    if edges.contains_key(call) {
        let wanted = (edges[call], call.0, call.1, 0usize);
        assert((wanted.1, wanted.2) == call);
        assert(order.contains(wanted));
    }
}

/// White space is what Unicode calls so.
pub proof fn law_white_space(c: char)
    ensures
        is_space(c) <==> {
            let n = c as int;
            ||| 9 <= n <= 13
            ||| n == 32
            ||| n == 133
            ||| n == 160
            ||| n == 5760
            ||| 8192 <= n <= 8202
            ||| n == 8232
            ||| n == 8233
            ||| n == 8239
            ||| n == 8287
            ||| n == 12288
        },
{
}

proof fn lemma_pieces_apart(a: Seq<char>, b: Seq<char>, separator: char)
    ensures
        pieces(a.push(separator) + b, separator) == pieces(a, separator) + pieces(b, separator),
        pieces(b, separator).len() > 0,
    decreases b.len(),
{
    if b.len() == 0 {
        assert(a.push(separator) + b =~= a.push(separator));
        assert(a.push(separator).drop_last() =~= a);
        assert(pieces(a, separator).push(Seq::empty()) =~= pieces(a, separator) + pieces(
            b,
            separator,
        ));
    } else {
        let less = b.drop_last();
        lemma_pieces_apart(a, less, separator);
        let whole = a.push(separator) + b;
        assert(whole.drop_last() =~= a.push(separator) + less);
        assert(whole.last() == b.last());
        let before = pieces(a, separator) + pieces(less, separator);
        assert(before.last() == pieces(less, separator).last());
        assert(before.drop_last() =~= pieces(a, separator) + pieces(less, separator).drop_last());
        assert(pieces(whole, separator) =~= pieces(a, separator) + pieces(b, separator));
    }
}

proof fn lemma_one_piece(s: Seq<char>, separator: char)
    requires
        !s.contains(separator),
    ensures
        pieces(s, separator) == seq![s],
    decreases s.len(),
{
    if s.len() > 0 {
        let less = s.drop_last();
        assert(!less.contains(separator)) by {
            if less.contains(separator) {
                let k = less.index_of(separator);
                assert(s[k] == separator);
            }
        }
        assert(s[s.len() - 1] != separator);
        lemma_one_piece(less, separator);
        assert(less.push(s.last()) =~= s);
        assert(pieces(s, separator) =~= seq![s]);
    } else {
        assert(s =~= Seq::empty());
    }
}

/// Patterns are parted by commas, and only by them; white space around them does not count.
pub proof fn law_patterns_are_parted_by_commas(
    first: Seq<char>,
    rest: Seq<char>,
    parts: Seq<Seq<char>>,
)
    requires
        !first.contains(','),
    ensures
        are_patterns(first, parts) <==> parts.len() == 1 && is_trimmed(first, parts[0]),
        are_patterns(first.push(',') + rest, parts) <==> parts.len() > 0 && is_trimmed(
            first,
            parts[0],
        ) && are_patterns(rest, parts.skip(1)),
{
    lemma_one_piece(first, ',');
    lemma_pieces_apart(first, rest, ',');
    let all = pieces(first.push(',') + rest, ',');
    let more = pieces(rest, ',');
    assert(all[0] == first);
    assert(all.skip(1) =~= more);
    if are_patterns(first.push(',') + rest, parts) {
        assert(is_trimmed(all[0], parts[0]));
        assert forall|i: int| 0 <= i < parts.skip(1).len() implies is_trimmed(
            more[i],
            #[trigger] parts.skip(1)[i],
        ) by {
            assert(all[i + 1] == more[i]);
            assert(is_trimmed(all[i + 1], parts[i + 1]));
        }
    }
    if parts.len() > 0 && is_trimmed(first, parts[0]) && are_patterns(rest, parts.skip(1)) {
        assert forall|i: int| 0 <= i < parts.len() implies is_trimmed(all[i], #[trigger] parts[i]) by {
            if i > 0 {
                assert(all[i] == more[i - 1]);
                assert(parts[i] == parts.skip(1)[i - 1]);
            }
        }
    }
    if are_patterns(first, parts) {
        assert(is_trimmed(pieces(first, ',')[0], parts[0]));
    }
}

/// A task names its functions one by one, each with its source in front of it.
pub proof fn law_task_names_functions(
    coverage: Map<Seq<char>, FunctionCoverage>,
    root: Seq<char>,
    names: Seq<Seq<char>>,
    name: Seq<char>,
)
    ensures
        task_text(coverage, root, names.push(name)) == task_text(coverage, root, names)
            + source_text(coverage, root, name) + ":"@ + name + "\n"@,
        task_text(coverage, root, Seq::empty()) == Seq::<char>::empty(),
{
    let line = source_text(coverage, root, name) + ":"@ + name;
    let lines = Seq::new(
        names.len(),
        |i: int| source_text(coverage, root, names[i]) + ":"@ + names[i],
    );
    let more = names.push(name);
    law_lines_follow_each_other(lines, line);
    assert(Seq::new(more.len(), |i: int| source_text(coverage, root, more[i]) + ":"@ + more[i])
        =~= lines.push(line));
    assert(task_text(coverage, root, names.push(name)) =~= task_text(coverage, root, names)
        + source_text(coverage, root, name) + ":"@ + name + "\n"@);
}

/// Tasks are written for the partitions that have seeds, in their order.
pub proof fn law_tasks_with_seeds_are_written(seeds: Seq<Vec<String>>, n: int, p: int)
    requires
        0 <= n <= seeds.len(),
    ensures
        seeded(seeds, n).contains(p) <==> 0 <= p < n && seeds[p]@.len() > 0,
        forall|i: int, j: int|
            0 <= i < j < seeded(seeds, n).len() ==> #[trigger] seeded(seeds, n)[i]
                < #[trigger] seeded(seeds, n)[j],
        forall|i: int| 0 <= i < seeded(seeds, n).len() ==> 0 <= #[trigger] seeded(seeds, n)[i] < n,
    decreases n,
{
    if n > 0 {
        law_tasks_with_seeds_are_written(seeds, n - 1, p);
        let less = seeded(seeds, n - 1);
        let all = seeded(seeds, n);
        if seeds[n - 1]@.len() > 0 {
            assert(all =~= less.push(n - 1));
            assert(all[less.len() as int] == n - 1);
            if less.contains(p) {
                let k = less.index_of(p);
                assert(all[k] == p);
            }
            if all.contains(p) && p != n - 1 {
                let k = all.index_of(p);
                assert(less[k] == p);
            }
        }
    }
}

/// What is written for a task is told by its number, counted from 1.
pub proof fn law_tasks_are_numbered(
    out: TaskOutput,
    p: int,
    plan: PartitionPlan,
    task: Seq<Seq<char>>,
    func_edges: EdgeModel,
    coverage: Map<Seq<char>, FunctionCoverage>,
    root: Seq<char>,
)
    requires
        is_task_output(out, p, plan, task, func_edges, coverage, root),
    ensures
        out.number == p + 1,
        out.seeds@ == line_text(texts(plan.seed_assignments@[p]@)),
        forall|call: (Seq<char>, Seq<char>)| #[trigger]
            out.edges@.contains_key(call) <==> func_edges.contains_key(call) && task.contains(
                call.0,
            ) && task.contains(call.1),
{
}

/// Entries come in ascending order: numbers by their size, pairs by their first part and then by
/// their second.
pub proof fn law_entries_ascend(
    a: u64,
    b: u64,
    c: u32,
    d: u32,
    e: usize,
    f: usize,
    p: (u32, u32),
    q: (u32, u32),
    x: (Seq<char>, Seq<char>),
    y: (Seq<char>, Seq<char>),
)
    ensures
        <u64 as Key>::lt(a, b) <==> a < b,
        <u32 as Key>::lt(c, d) <==> c < d,
        <usize as Key>::lt(e, f) <==> e < f,
        <(u32, u32) as Key>::lt(p, q) <==> p.0 < q.0 || (p.0 == q.0 && p.1 < q.1),
        <String as Key>::lt(x.0, y.0) <==> text_lt(x.0, y.0),
        <(String, String) as Key>::lt(x, y) <==> text_lt(x.0, y.0) || (x.0 == y.0 && text_lt(
            x.1,
            y.1,
        )),
{
}

} // verus!
