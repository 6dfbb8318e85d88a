//! The files that describe the partitions of a call graph.

use crate::coverage::{display_source_path, displayed_path, source_of, FunctionCoverage};
use crate::documents::id_row;
use crate::dot::{calls_among, line_text, lines_up_to, push_line, select_function_edges};
use crate::ids::{
    id_of, lemma_with_names, number_keys, number_names, numbered, with_names, FunctionIds,
};
use crate::json::{append_number, append_quoted, push_row, quoted, rows_up_to};
use crate::layout::listed;
use crate::options::Partitioner;
use crate::ordered::{keys, NameSet, SortedMap};
use crate::partition::{assign_seeds_to_partitions, handed_out, path_lists, plan_ok};
use crate::placement::{algorithm_name, empty_lists, partitioner_name, PartitionPlan};
use crate::tasks::{expand_partition_tasks, is_task, EdgeModel, FunctionEdges};
use crate::text::{append, decimal, texts};
use crate::trace::SeedTraceSummary;
use vstd::prelude::*;

verus! {

/// Where a function stands in the source, as far as that is known.
pub open spec fn source_text(
    coverage: Map<Seq<char>, FunctionCoverage>,
    root: Seq<char>,
    name: Seq<char>,
) -> Seq<char> {
    if coverage.contains_key(name) && source_of(coverage[name]) is Some {
        displayed_path(source_of(coverage[name])->0, root)
    } else {
        "<unknown>"@
    }
}

pub fn function_source(
    coverage_by_function: &SortedMap<String, FunctionCoverage>,
    workspace_root: &str,
    name: &String,
) -> (r: String)
    ensures
        r@ == source_text(coverage_by_function@, workspace_root@, name@),
{
    if let Some(cov) = coverage_by_function.get(name) {
        if let Some(file) = cov.source() {
            return display_source_path(file, workspace_root);
        }
    }
    "<unknown>".to_owned()
}

/// The functions of the tasks, in the order in which they come up.
pub open spec fn task_order(tasks: Seq<Vec<String>>) -> Seq<Seq<char>>
    decreases tasks.len(),
{
    if tasks.len() == 0 {
        Seq::empty()
    } else {
        with_names(task_order(tasks.drop_last()), texts(tasks.last()@))
    }
}

/// The functions of the tasks and the shared ones, in the order in which they are numbered.
pub open spec fn partition_order(tasks: Seq<Vec<String>>, shared: Seq<Seq<char>>) -> Seq<Seq<char>> {
    with_names(task_order(tasks), shared)
}

/// A function, its number and where it stands.
pub open spec fn sourced_row(id: u64, name: Seq<char>, source: Seq<char>) -> Seq<char> {
    "    {\"id\":"@ + decimal(id as nat) + ",\"name\":"@ + quoted(name) + ",\"source\":"@ + quoted(
        source,
    ) + "}"@
}

/// A function of a partition and where it stands.
pub open spec fn member_row(name: Seq<char>, source: Seq<char>) -> Seq<char> {
    "      {\"name\":"@ + quoted(name) + ",\"source\":"@ + quoted(source) + "}"@
}

/// A link of a partition.
pub open spec fn link_row(caller: Seq<char>, callee: Seq<char>) -> Seq<char> {
    "      {\"caller\":"@ + quoted(caller) + ",\"callee\":"@ + quoted(callee) + "}"@
}

/// A seed of a partition.
pub open spec fn seed_row(path: Seq<char>) -> Seq<char> {
    "      "@ + quoted(path)
}

/// What is written of a partition.
pub open spec fn partition_block(
    order: Seq<Seq<char>>,
    plan: PartitionPlan,
    task: Seq<Seq<char>>,
    coverage: Map<Seq<char>, FunctionCoverage>,
    root: Seq<char>,
    p: int,
) -> Seq<char> {
    let names = texts(plan.partitions@[p]@);
    let links = plan.partition_edges@[p]@;
    let seeds = texts(plan.seed_assignments@[p]@);
    "    {\"id\":"@ + decimal((p + 1) as nat) + ",\"load\":"@ + decimal(plan.loads@[p] as nat)
        + ",\"partition_functions\":"@ + listed(
        "[\n"@,
        Seq::new(
            names.len(),
            |i: int| member_row(names[i], source_text(coverage, root, names[i])),
        ),
        "    ]"@,
    ) + ",\"task_function_ids\":"@ + listed(
        "[\n"@,
        Seq::new(task.len(), |i: int| id_row(order.index_of(task[i]))),
        "    ]"@,
    ) + ",\"partition_edges\":"@ + listed(
        "[\n"@,
        Seq::new(links.len(), |i: int| link_row(links[i].0@, links[i].1@)),
        "    ]"@,
    ) + ",\"seeds\":"@ + listed(
        "[\n"@,
        Seq::new(seeds.len(), |i: int| seed_row(seeds[i])),
        "    ]"@,
    ) + "}"@
}

/// The partitions as they are written. `ids` are the functions with their numbers, in the order of
/// their names.
pub open spec fn partitions_text(
    ids: Seq<(Seq<char>, u64)>,
    plan: PartitionPlan,
    tasks: Seq<Vec<String>>,
    shared: Seq<Seq<char>>,
    coverage: Map<Seq<char>, FunctionCoverage>,
    root: Seq<char>,
) -> Seq<char> {
    let order = partition_order(tasks, shared);
    "{\n  \"partitioner\":"@ + quoted(plan.algorithm@) + ",\n  \"functions\":"@ + listed(
        " [\n"@,
        Seq::new(
            ids.len(),
            |i: int| sourced_row(ids[i].1, ids[i].0, source_text(coverage, root, ids[i].0)),
        ),
        "  ]"@,
    ) + ",\n  \"shared_function_ids\":"@ + listed(
        " [\n"@,
        Seq::new(shared.len(), |i: int| shared_row(order.index_of(shared[i]))),
        "  ]"@,
    ) + ",\n  \"partitions\":"@ + listed(
        " [\n"@,
        Seq::new(
            plan.partitions@.len(),
            |p: int| partition_block(order, plan, texts(tasks[p]@), coverage, root, p),
        ),
        "  ]"@,
    ) + "\n}"@ + "\n"@
}

/// Whether a text is the document on the partitions, in which the functions are numbered in the
/// order in which they come up.
pub open spec fn is_partitions_document(
    text: Seq<char>,
    plan: PartitionPlan,
    tasks: Seq<Vec<String>>,
    shared: Seq<Seq<char>>,
    coverage: Map<Seq<char>, FunctionCoverage>,
    root: Seq<char>,
) -> bool {
    exists|ids: FunctionIds|
        ids.ok() && numbered(ids, partition_order(tasks, shared)) && text
            == #[trigger] partitions_text(ids.seq(), plan, tasks, shared, coverage, root)
}

/// The number of a shared function.
pub open spec fn shared_row(id: int) -> Seq<char> {
    "    "@ + decimal(id as nat)
}

fn sourced_line(id: u64, name: &str, source: &str) -> (r: String)
    ensures
        r@ == sourced_row(id, name@, source@),
{
    let mut line = "    {\"id\":".to_owned();
    append_number(&mut line, id);
    append(&mut line, ",\"name\":");
    append_quoted(&mut line, name);
    append(&mut line, ",\"source\":");
    append_quoted(&mut line, source);
    append(&mut line, "}");
    line
}

fn member_line(name: &str, source: &str) -> (r: String)
    ensures
        r@ == member_row(name@, source@),
{
    let mut line = "      {\"name\":".to_owned();
    append_quoted(&mut line, name);
    append(&mut line, ",\"source\":");
    append_quoted(&mut line, source);
    append(&mut line, "}");
    line
}

fn link_line(caller: &str, callee: &str) -> (r: String)
    ensures
        r@ == link_row(caller@, callee@),
{
    let mut line = "      {\"caller\":".to_owned();
    append_quoted(&mut line, caller);
    append(&mut line, ",\"callee\":");
    append_quoted(&mut line, callee);
    append(&mut line, "}");
    line
}

fn append_members(
    out: &mut String,
    names: &Vec<String>,
    coverage_by_function: &SortedMap<String, FunctionCoverage>,
    workspace_root: &str,
)
    ensures
        final(out)@ == old(out)@ + listed(
            "[\n"@,
            Seq::new(
                texts(names@).len(),
                |i: int|
                    member_row(
                        texts(names@)[i],
                        source_text(coverage_by_function@, workspace_root@, texts(names@)[i]),
                    ),
            ),
            "    ]"@,
        ),
{
    let ghost all = texts(names@);
    let ghost lines = Seq::new(
        all.len(),
        |i: int|
            member_row(all[i], source_text(coverage_by_function@, workspace_root@, all[i])),
    );
    let ghost start = out@;
    append(out, "[\n");
    let ghost head = out@;
    let n = names.len();
    let mut i: usize = 0;
    assert(out@ =~= head + rows_up_to(lines, 0));
    while i < n
        invariant
            all == texts(names@),
            lines == Seq::new(
                all.len(),
                |i: int|
                    member_row(all[i], source_text(coverage_by_function@, workspace_root@, all[i])),
            ),
            n == names@.len(),
            i <= n,
            out@ == head + rows_up_to(lines, i as int),
        decreases n - i,
    {
        let source = function_source(coverage_by_function, workspace_root, &names[i]);
        let line = member_line(names[i].as_str(), source.as_str());
        push_row(out, line.as_str(), i + 1 == n, Ghost(head), Ghost(lines), Ghost(i as int));
        i = i + 1;
    }
    append(out, "    ]");
    assert(out@ =~= start + listed("[\n"@, lines, "    ]"@));
}

fn append_task_ids(
    out: &mut String,
    task: &Vec<String>,
    ids: &FunctionIds,
    Ghost(order): Ghost<Seq<Seq<char>>>,
)
    requires
        numbered(*ids, order),
        forall|i: int| 0 <= i < texts(task@).len() ==> order.contains(#[trigger] texts(task@)[i]),
    ensures
        final(out)@ == old(out)@ + listed(
            "[\n"@,
            Seq::new(texts(task@).len(), |i: int| id_row(order.index_of(texts(task@)[i]))),
            "    ]"@,
        ),
{
    let ghost all = texts(task@);
    let ghost lines = Seq::new(all.len(), |i: int| id_row(order.index_of(all[i])));
    let ghost start = out@;
    append(out, "[\n");
    let ghost head = out@;
    let n = task.len();
    let mut i: usize = 0;
    assert(out@ =~= head + rows_up_to(lines, 0));
    while i < n
        invariant
            all == texts(task@),
            lines == Seq::new(all.len(), |i: int| id_row(order.index_of(all[i]))),
            numbered(*ids, order),
            forall|i: int| 0 <= i < all.len() ==> order.contains(#[trigger] all[i]),
            n == task@.len(),
            i <= n,
            out@ == head + rows_up_to(lines, i as int),
        decreases n - i,
    {
        assert(all[i as int] == task@[i as int]@);
        let mut line = "      ".to_owned();
        append_number(&mut line, id_of(ids, &task[i], Ghost(order)));
        push_row(out, line.as_str(), i + 1 == n, Ghost(head), Ghost(lines), Ghost(i as int));
        i = i + 1;
    }
    append(out, "    ]");
    assert(out@ =~= start + listed("[\n"@, lines, "    ]"@));
}

fn append_links(out: &mut String, links: &Vec<(String, String)>)
    ensures
        final(out)@ == old(out)@ + listed(
            "[\n"@,
            Seq::new(links@.len(), |i: int| link_row(links@[i].0@, links@[i].1@)),
            "    ]"@,
        ),
{
    let ghost lines = Seq::new(links@.len(), |i: int| link_row(links@[i].0@, links@[i].1@));
    let ghost start = out@;
    append(out, "[\n");
    let ghost head = out@;
    let n = links.len();
    let mut i: usize = 0;
    assert(out@ =~= head + rows_up_to(lines, 0));
    while i < n
        invariant
            lines == Seq::new(links@.len(), |i: int| link_row(links@[i].0@, links@[i].1@)),
            n == links@.len(),
            i <= n,
            out@ == head + rows_up_to(lines, i as int),
        decreases n - i,
    {
        let line = link_line(links[i].0.as_str(), links[i].1.as_str());
        push_row(out, line.as_str(), i + 1 == n, Ghost(head), Ghost(lines), Ghost(i as int));
        i = i + 1;
    }
    append(out, "    ]");
    assert(out@ =~= start + listed("[\n"@, lines, "    ]"@));
}

fn append_seeds(out: &mut String, seeds: &Vec<String>)
    ensures
        final(out)@ == old(out)@ + listed(
            "[\n"@,
            Seq::new(texts(seeds@).len(), |i: int| seed_row(texts(seeds@)[i])),
            "    ]"@,
        ),
{
    let ghost all = texts(seeds@);
    let ghost lines = Seq::new(all.len(), |i: int| seed_row(all[i]));
    let ghost start = out@;
    append(out, "[\n");
    let ghost head = out@;
    let n = seeds.len();
    let mut i: usize = 0;
    assert(out@ =~= head + rows_up_to(lines, 0));
    while i < n
        invariant
            all == texts(seeds@),
            lines == Seq::new(all.len(), |i: int| seed_row(all[i])),
            n == seeds@.len(),
            i <= n,
            out@ == head + rows_up_to(lines, i as int),
        decreases n - i,
    {
        let mut line = "      ".to_owned();
        append_quoted(&mut line, seeds[i].as_str());
        push_row(out, line.as_str(), i + 1 == n, Ghost(head), Ghost(lines), Ghost(i as int));
        i = i + 1;
    }
    append(out, "    ]");
    assert(out@ =~= start + listed("[\n"@, lines, "    ]"@));
}

fn partition_entry(
    plan: &PartitionPlan,
    p: usize,
    task: &Vec<String>,
    ids: &FunctionIds,
    coverage_by_function: &SortedMap<String, FunctionCoverage>,
    workspace_root: &str,
    Ghost(order): Ghost<Seq<Seq<char>>>,
) -> (r: String)
    requires
        plan_ok(*plan),
        p < plan.partitions@.len(),
        numbered(*ids, order),
        forall|i: int| 0 <= i < texts(task@).len() ==> order.contains(#[trigger] texts(task@)[i]),
    ensures
        r@ == partition_block(
            order,
            *plan,
            texts(task@),
            coverage_by_function@,
            workspace_root@,
            p as int,
        ),
{
    let count = plan.partitions.len();
    let mut out = "    {\"id\":".to_owned();
    append_number(&mut out, (p + 1) as u64);
    append(&mut out, ",\"load\":");
    append_number(&mut out, plan.loads[p]);
    append(&mut out, ",\"partition_functions\":");
    append_members(&mut out, &plan.partitions[p], coverage_by_function, workspace_root);
    append(&mut out, ",\"task_function_ids\":");
    append_task_ids(&mut out, task, ids, Ghost(order));
    append(&mut out, ",\"partition_edges\":");
    append_links(&mut out, &plan.partition_edges[p]);
    append(&mut out, ",\"seeds\":");
    append_seeds(&mut out, &plan.seed_assignments[p]);
    append(&mut out, "}");
    proof {
        let names = texts(plan.partitions@[p as int]@);
        let task = texts(task@);
        let links = plan.partition_edges@[p as int]@;
        let seeds = texts(plan.seed_assignments@[p as int]@);
        assert(Seq::new(
            texts(plan.partitions@[p as int]@).len(),
            |i: int|
                member_row(
                    texts(plan.partitions@[p as int]@)[i],
                    source_text(
                        coverage_by_function@,
                        workspace_root@,
                        texts(plan.partitions@[p as int]@)[i],
                    ),
                ),
        ) =~= Seq::new(
            names.len(),
            |i: int|
                member_row(names[i], source_text(coverage_by_function@, workspace_root@, names[i])),
        ));
    }
    out
}

/// Every function of a task has come up.
pub(crate) proof fn lemma_task_order(tasks: Seq<Vec<String>>, shared: Seq<Seq<char>>, t: int)
    requires
        0 <= t < tasks.len(),
    ensures
        forall|i: int|
            0 <= i < texts(tasks[t]@).len() ==> partition_order(tasks, shared).contains(
                #[trigger] texts(tasks[t]@)[i],
            ),
{
    let order = task_order(tasks);
    lemma_task_order_distinct(tasks);
    assert forall|i: int| 0 <= i < texts(tasks[t]@).len() implies partition_order(
        tasks,
        shared,
    ).contains(#[trigger] texts(tasks[t]@)[i]) by {
        lemma_task_listed(tasks, t, i);
        lemma_with_names(order, shared, texts(tasks[t]@)[i]);
    }
}

/// Every shared function has come up.
pub(crate) proof fn lemma_shared_order(tasks: Seq<Vec<String>>, shared: Seq<Seq<char>>, i: int)
    requires
        0 <= i < shared.len(),
    ensures
        partition_order(tasks, shared).contains(shared[i]),
{
    lemma_task_order_distinct(tasks);
    assert(shared.contains(shared[i]));
    lemma_with_names(task_order(tasks), shared, shared[i]);
}

proof fn lemma_task_order_distinct(tasks: Seq<Vec<String>>)
    ensures
        task_order(tasks).no_duplicates(),
    decreases tasks.len(),
{
    if tasks.len() > 0 {
        lemma_task_order_distinct(tasks.drop_last());
        lemma_with_names(task_order(tasks.drop_last()), texts(tasks.last()@), Seq::empty());
    }
}

proof fn lemma_task_listed(tasks: Seq<Vec<String>>, t: int, i: int)
    requires
        0 <= t < tasks.len(),
        0 <= i < texts(tasks[t]@).len(),
    ensures
        task_order(tasks).contains(texts(tasks[t]@)[i]),
    decreases tasks.len(),
{
    let name = texts(tasks[t]@)[i];
    let before = task_order(tasks.drop_last());
    lemma_task_order_distinct(tasks.drop_last());
    lemma_with_names(before, texts(tasks.last()@), name);
    if t == tasks.len() - 1 {
        assert(texts(tasks.last()@).contains(name));
    } else {
        lemma_task_listed(tasks.drop_last(), t, i);
    }
}

fn number_tasks(tasks: &[Vec<String>], shared: &NameSet) -> (r: FunctionIds)
    ensures
        numbered(r, partition_order(tasks@, keys(shared.seq()))),
{
    let mut ids: FunctionIds = SortedMap::new();
    let n = tasks.len();
    let mut i: usize = 0;
    assert(tasks@.take(0).len() == 0);
    while i < n
        invariant
            n == tasks@.len(),
            i <= n,
            numbered(ids, task_order(tasks@.take(i as int))),
        decreases n - i,
    {
        assert(tasks@.take(i + 1).drop_last() =~= tasks@.take(i as int));
        number_names(&mut ids, tasks[i].as_slice(), Ghost(task_order(tasks@.take(i as int))));
        i = i + 1;
    }
    assert(tasks@.take(n as int) =~= tasks@);
    number_keys(&mut ids, shared, Ghost(task_order(tasks@)));
    ids
}

/// Writes the partitions.
#[verifier::rlimit(30)]
pub fn write_partitions_json(
    plan: &PartitionPlan,
    expanded_tasks: &[Vec<String>],
    shared: &NameSet,
    coverage_by_function: &SortedMap<String, FunctionCoverage>,
    workspace_root: &str,
) -> (r: String)
    requires
        plan_ok(*plan),
        expanded_tasks@.len() == plan.partitions@.len(),
    ensures
        is_partitions_document(
            r@,
            *plan,
            expanded_tasks@,
            keys(shared.seq()),
            coverage_by_function@,
            workspace_root@,
        ),
{
    let ghost tasks = expanded_tasks@;
    let ghost names = keys(shared.seq());
    let ghost order = partition_order(tasks, names);
    let ghost coverage = coverage_by_function@;
    let ghost root = workspace_root@;
    let ids = number_tasks(expanded_tasks, shared);
    let ghost all = ids.seq();
    let ghost function_rows = Seq::new(
        all.len(),
        |i: int| sourced_row(all[i].1, all[i].0, source_text(coverage, root, all[i].0)),
    );
    let mut out = "{\n  \"partitioner\":".to_owned();
    append_quoted(&mut out, plan.algorithm);
    append(&mut out, ",\n  \"functions\":");
    let ghost start = out@;
    append(&mut out, " [\n");
    let ghost head = out@;
    let n = ids.len();
    let mut i: usize = 0;
    assert(out@ =~= head + rows_up_to(function_rows, 0));
    while i < n
        invariant
            coverage == coverage_by_function@,
            root == workspace_root@,
            all == ids.seq(),
            function_rows == Seq::new(
                all.len(),
                |i: int| sourced_row(all[i].1, all[i].0, source_text(coverage, root, all[i].0)),
            ),
            n == all.len(),
            i <= n,
            out@ == head + rows_up_to(function_rows, i as int),
        decreases n - i,
    {
        let name = ids.key_at(i);
        let source = function_source(coverage_by_function, workspace_root, name);
        let line = sourced_line(*ids.value_at(i), name.as_str(), source.as_str());
        push_row(
            &mut out,
            line.as_str(),
            i + 1 == n,
            Ghost(head),
            Ghost(function_rows),
            Ghost(i as int),
        );
        i = i + 1;
    }
    append(&mut out, "  ]");
    assert(out@ =~= start + listed(" [\n"@, function_rows, "  ]"@));
    append(&mut out, ",\n  \"shared_function_ids\":");
    append_shared_ids(&mut out, shared, &ids, Ghost(order), Ghost(tasks));
    append(&mut out, ",\n  \"partitions\":");
    let ghost start = out@;
    append(&mut out, " [\n");
    let ghost blocks = Seq::new(
        plan.partitions@.len(),
        |p: int| partition_block(order, *plan, texts(tasks[p]@), coverage, root, p),
    );
    let ghost head = out@;
    let m = plan.partitions.len();
    let mut p: usize = 0;
    assert(out@ =~= head + rows_up_to(blocks, 0));
    while p < m
        invariant
            plan_ok(*plan),
            tasks == expanded_tasks@,
            names == keys(shared.seq()),
            order == partition_order(tasks, names),
            coverage == coverage_by_function@,
            root == workspace_root@,
            numbered(ids, order),
            tasks.len() == plan.partitions@.len(),
            blocks == Seq::new(
                plan.partitions@.len(),
                |p: int| partition_block(order, *plan, texts(tasks[p]@), coverage, root, p),
            ),
            m == plan.partitions@.len(),
            p <= m,
            out@ == head + rows_up_to(blocks, p as int),
        decreases m - p,
    {
        proof {
            lemma_task_order(tasks, names, p as int);
        }
        let block = partition_entry(
            plan,
            p,
            &expanded_tasks[p],
            &ids,
            coverage_by_function,
            workspace_root,
            Ghost(order),
        );
        push_row(&mut out, block.as_str(), p + 1 == m, Ghost(head), Ghost(blocks), Ghost(p as int));
        p = p + 1;
    }
    append(&mut out, "  ]");
    assert(out@ =~= start + listed(" [\n"@, blocks, "  ]"@));
    append(&mut out, "\n}");
    append(&mut out, "\n");
    assert(out@ == partitions_text(ids.seq(), *plan, tasks, names, coverage, root));
    out
}

fn append_shared_ids(
    out: &mut String,
    shared: &NameSet,
    ids: &FunctionIds,
    Ghost(order): Ghost<Seq<Seq<char>>>,
    Ghost(tasks): Ghost<Seq<Vec<String>>>,
)
    requires
        numbered(*ids, order),
        order == partition_order(tasks, keys(shared.seq())),
    ensures
        final(out)@ == old(out)@ + listed(
            " [\n"@,
            Seq::new(
                keys(shared.seq()).len(),
                |i: int| shared_row(order.index_of(keys(shared.seq())[i])),
            ),
            "  ]"@,
        ),
{
    let ghost list = keys(shared.seq());
    let ghost lines = Seq::new(list.len(), |i: int| shared_row(order.index_of(list[i])));
    let ghost start = out@;
    append(out, " [\n");
    let ghost head = out@;
    let n = shared.len();
    let mut i: usize = 0;
    proof {
        lemma_task_order_distinct(tasks);
    }
    assert(out@ =~= head + rows_up_to(lines, 0));
    while i < n
        invariant
            list == keys(shared.seq()),
            lines == Seq::new(list.len(), |i: int| shared_row(order.index_of(list[i]))),
            numbered(*ids, order),
            order == partition_order(tasks, list),
            task_order(tasks).no_duplicates(),
            n == list.len(),
            i <= n,
            out@ == head + rows_up_to(lines, i as int),
        decreases n - i,
    {
        let name = shared.key_at(i);
        proof {
            assert(list[i as int] == name@);
            assert(list.contains(name@));
            lemma_with_names(task_order(tasks), list, name@);
        }
        let mut line = "    ".to_owned();
        append_number(&mut line, id_of(ids, name, Ghost(order)));
        push_row(out, line.as_str(), i + 1 == n, Ghost(head), Ghost(lines), Ghost(i as int));
        i = i + 1;
    }
    append(out, "  ]");
    assert(out@ =~= start + listed(" [\n"@, lines, "  ]"@));
}

/// What is written for the task of a partition.
pub struct TaskOutput {
    /// The number of the partition, from 1 on.
    pub number: usize,
    /// Which functions to instrument, one on a line: where each stands, and its name.
    pub task: String,
    /// The seeds, one on a line.
    pub seeds: String,
    /// The calls between the functions of the task.
    pub edges: FunctionEdges,
}

/// The functions of a task as they are written.
pub open spec fn task_text(
    coverage: Map<Seq<char>, FunctionCoverage>,
    root: Seq<char>,
    names: Seq<Seq<char>>,
) -> Seq<char> {
    line_text(
        Seq::new(names.len(), |i: int| source_text(coverage, root, names[i]) + ":"@ + names[i]),
    )
}

fn write_task(
    coverage_by_function: &SortedMap<String, FunctionCoverage>,
    workspace_root: &str,
    names: &Vec<String>,
) -> (r: String)
    ensures
        r@ == task_text(coverage_by_function@, workspace_root@, texts(names@)),
{
    let ghost all = texts(names@);
    let ghost lines = Seq::new(
        all.len(),
        |i: int| source_text(coverage_by_function@, workspace_root@, all[i]) + ":"@ + all[i],
    );
    let mut out = String::new();
    let n = names.len();
    let mut i: usize = 0;
    assert(out@ =~= Seq::<char>::empty() + lines_up_to(lines, 0));
    while i < n
        invariant
            all == texts(names@),
            lines == Seq::new(
                all.len(),
                |i: int|
                    source_text(coverage_by_function@, workspace_root@, all[i]) + ":"@ + all[i],
            ),
            n == names@.len(),
            i <= n,
            out@ == Seq::<char>::empty() + lines_up_to(lines, i as int),
        decreases n - i,
    {
        let mut line = function_source(coverage_by_function, workspace_root, &names[i]);
        append(&mut line, ":");
        append(&mut line, names[i].as_str());
        push_line(&mut out, line.as_str(), Ghost(Seq::empty()), Ghost(lines), Ghost(i as int));
        i = i + 1;
    }
    assert(out@ =~= lines_up_to(lines, n as int));
    out
}

fn write_lines(list: &Vec<String>) -> (r: String)
    ensures
        r@ == line_text(texts(list@)),
{
    let ghost lines = texts(list@);
    let mut out = String::new();
    let n = list.len();
    let mut i: usize = 0;
    assert(out@ =~= Seq::<char>::empty() + lines_up_to(lines, 0));
    while i < n
        invariant
            lines == texts(list@),
            n == list@.len(),
            i <= n,
            out@ == Seq::<char>::empty() + lines_up_to(lines, i as int),
        decreases n - i,
    {
        push_line(
            &mut out,
            list[i].as_str(),
            Ghost(Seq::empty()),
            Ghost(lines),
            Ghost(i as int),
        );
        i = i + 1;
    }
    assert(out@ =~= lines_up_to(lines, n as int));
    out
}

/// The partitions, among the first `n`, that have a seed.
pub open spec fn seeded(seeds: Seq<Vec<String>>, n: int) -> Seq<int>
    decreases n,
{
    if n <= 0 {
        Seq::empty()
    } else if seeds[n - 1]@.len() == 0 {
        seeded(seeds, n - 1)
    } else {
        seeded(seeds, n - 1).push(n - 1)
    }
}

/// What is written for a partition.
pub open spec fn is_task_output(
    out: TaskOutput,
    p: int,
    plan: PartitionPlan,
    task: Seq<Seq<char>>,
    func_edges: EdgeModel,
    coverage: Map<Seq<char>, FunctionCoverage>,
    root: Seq<char>,
) -> bool {
    &&& out.number == p + 1
    &&& out.task@ == task_text(coverage, root, task)
    &&& out.seeds@ == line_text(texts(plan.seed_assignments@[p]@))
    &&& out.edges@ == calls_among(func_edges, task)
}

/// What is written for the partitions that have a seed.
pub open spec fn are_task_outputs(
    out: Seq<TaskOutput>,
    plan: PartitionPlan,
    tasks: Seq<Vec<String>>,
    func_edges: EdgeModel,
    coverage: Map<Seq<char>, FunctionCoverage>,
    root: Seq<char>,
) -> bool {
    let written = seeded(plan.seed_assignments@, plan.seed_assignments@.len() as int);
    &&& out.len() == written.len()
    &&& forall|i: int|
        0 <= i < out.len() ==> is_task_output(
            #[trigger] out[i],
            written[i],
            plan,
            texts(tasks[written[i]]@),
            func_edges,
            coverage,
            root,
        )
}

/// What is written for the tasks. A partition without a seed has no task.
pub fn task_outputs(
    plan: &PartitionPlan,
    expanded_tasks: &[Vec<String>],
    func_edges: &FunctionEdges,
    coverage_by_function: &SortedMap<String, FunctionCoverage>,
    workspace_root: &str,
) -> (r: Vec<TaskOutput>)
    requires
        plan_ok(*plan),
        expanded_tasks@.len() == plan.partitions@.len(),
    ensures
        are_task_outputs(
            r@,
            *plan,
            expanded_tasks@,
            func_edges@,
            coverage_by_function@,
            workspace_root@,
        ),
{
    let ghost seeds = plan.seed_assignments@;
    let n = plan.seed_assignments.len();
    let mut out: Vec<TaskOutput> = Vec::new();
    let mut p: usize = 0;
    while p < n
        invariant
            plan_ok(*plan),
            expanded_tasks@.len() == plan.partitions@.len(),
            seeds == plan.seed_assignments@,
            n == seeds.len(),
            p <= n,
            out@.len() == seeded(seeds, p as int).len(),
            forall|i: int|
                0 <= i < out@.len() ==> is_task_output(
                    #[trigger] out@[i],
                    seeded(seeds, p as int)[i],
                    *plan,
                    texts(expanded_tasks@[seeded(seeds, p as int)[i]]@),
                    func_edges@,
                    coverage_by_function@,
                    workspace_root@,
                ),
        decreases n - p,
    {
        let ghost out0 = out@;
        if plan.seed_assignments[p].len() > 0 {
            let functions = &expanded_tasks[p];
            let task = write_task(coverage_by_function, workspace_root, functions);
            let seeds = write_lines(&plan.seed_assignments[p]);
            let edges = select_function_edges(func_edges, functions.as_slice());
            out.push(TaskOutput { number: p + 1, task, seeds, edges });
        }
        proof {
            let before = seeded(seeds, p as int);
            let after = seeded(seeds, p + 1);
            assert forall|i: int| 0 <= i < out@.len() implies is_task_output(
                #[trigger] out@[i],
                after[i],
                *plan,
                texts(expanded_tasks@[after[i]]@),
                func_edges@,
                coverage_by_function@,
                workspace_root@,
            ) by {
                if i < out0.len() {
                    assert(out@[i] == out0[i]);
                    assert(after[i] == before[i]);
                }
            }
        }
        p = p + 1;
    }
    out
}

/// How many partitions to make: no more than there are functions, and at least one if any are
/// wanted.
pub open spec fn partition_count_for(requested: nat, functions: nat) -> nat {
    let most = if functions == 0 {
        1
    } else {
        functions
    };
    if requested < most {
        requested
    } else {
        most
    }
}

pub fn choose_partition_count(requested: usize, functions: usize) -> (r: usize)
    ensures
        r == partition_count_for(requested as nat, functions as nat),
{
    let most: usize = if functions == 0 {
        1
    } else {
        functions
    };
    if requested < most {
        requested
    } else {
        most
    }
}

/// The plan where there is no function to place.
pub fn empty_plan(partitioner: Partitioner, partition_count: usize) -> (r: PartitionPlan)
    ensures
        r.algorithm@ == algorithm_name(partitioner),
        plan_ok(r),
        r.partitions@.len() == (if partition_count == 0 {
            1
        } else {
            partition_count as int
        }),
        forall|p: int| 0 <= p < r.partitions@.len() ==> (#[trigger] r.partitions@[p])@.len() == 0,
        forall|p: int| 0 <= p < r.loads@.len() ==> (#[trigger] r.loads@[p]) == 0,
        forall|p: int|
            0 <= p < r.seed_assignments@.len() ==> (#[trigger] r.seed_assignments@[p])@.len() == 0,
        forall|p: int|
            0 <= p < r.partition_edges@.len() ==> (#[trigger] r.partition_edges@[p])@.len() == 0,
{
    let count: usize = if partition_count == 0 {
        1
    } else {
        partition_count
    };
    PartitionPlan {
        algorithm: partitioner_name(partitioner),
        partitions: empty_lists::<String>(count),
        loads: vec![0; count],
        seed_assignments: empty_lists::<String>(count),
        partition_edges: empty_lists::<(String, String)>(count),
    }
}

/// All that is written for a plan.
pub struct PartitionOutputs {
    /// The functions of the task of each partition.
    pub tasks: Vec<Vec<String>>,
    /// What is written for the tasks.
    pub written: Vec<TaskOutput>,
    /// The document on the partitions.
    pub document: String,
}

/// Hands out the seeds, extends the partitions to tasks, and writes both down.
pub fn partition_outputs(
    plan: &mut PartitionPlan,
    seed_summaries: &[SeedTraceSummary],
    scores: &[Vec<u64>],
    func_edges: &FunctionEdges,
    coverage_by_function: &SortedMap<String, FunctionCoverage>,
    shared: &NameSet,
    workspace_root: &str,
) -> (r: PartitionOutputs)
    requires
        plan_ok(*old(plan)),
        old(plan).partitions@.len() > 0,
        scores@.len() == seed_summaries@.len(),
        forall|s: int|
            0 <= s < scores@.len() ==> (#[trigger] scores@[s])@.len() == old(plan).partitions@.len(),
    ensures
        plan_ok(*final(plan)),
        final(plan).algorithm == old(plan).algorithm,
        final(plan).partitions == old(plan).partitions,
        final(plan).loads == old(plan).loads,
        final(plan).partition_edges == old(plan).partition_edges,
        path_lists(final(plan).seed_assignments@) == handed_out(
            path_lists(old(plan).seed_assignments@),
            seed_summaries@,
            scores@,
            seed_summaries@.len() as int,
        ),
        r.tasks@.len() == final(plan).partitions@.len(),
        forall|p: int|
            0 <= p < r.tasks@.len() ==> is_task(
                func_edges@,
                coverage_by_function@,
                workspace_root@,
                texts(old(plan).partitions@[p]@),
                shared@,
                texts((#[trigger] r.tasks@[p])@),
            ),
        are_task_outputs(
            r.written@,
            *final(plan),
            r.tasks@,
            func_edges@,
            coverage_by_function@,
            workspace_root@,
        ),
        is_partitions_document(
            r.document@,
            *final(plan),
            r.tasks@,
            keys(shared.seq()),
            coverage_by_function@,
            workspace_root@,
        ),
{
    assign_seeds_to_partitions(plan, seed_summaries, scores);
    let tasks = expand_partition_tasks(
        plan.partitions.as_slice(),
        func_edges,
        coverage_by_function,
        workspace_root,
        shared,
    );
    let written = task_outputs(
        plan,
        tasks.as_slice(),
        func_edges,
        coverage_by_function,
        workspace_root,
    );
    let document = write_partitions_json(
        plan,
        tasks.as_slice(),
        shared,
        coverage_by_function,
        workspace_root,
    );
    PartitionOutputs { tasks, written, document }
}

/// There are at most as many partitions as were wanted, and at most as many as there are functions,
/// but for one that is there in any case.
pub proof fn law_no_more_partitions_than_wanted(requested: nat, functions: nat)
    ensures
        partition_count_for(requested, functions) <= requested,
        functions > 0 ==> partition_count_for(requested, functions) <= functions,
        requested > 0 ==> partition_count_for(requested, functions) > 0,
{
}

} // verus!
