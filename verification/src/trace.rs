//! What the replay of the corpus recorded.

use crate::ordered::{ascending, entries_map, has_key, lemma_entries_unique, SortedMap};
use crate::paths::{file_name, file_name_of};
use crate::tally::{
    add_count, add_first, firsts, is_tally, lemma_has_key_push, lemma_tally_add, lemma_tally_push,
    lemma_tally_take, tally, tally_fits,
};
use crate::tasks::FunctionEdges;
use crate::text::{
    append, chars_of, decimal, decimal_text, digit, law_number_reads_back, lemma_padded_value,
    number_text, text_eq, zero_pad, zero_padded,
};
use crate::tree::{item_models, json_document, parse_json, Tree, TreeModel};
use vstd::prelude::*;

verus! {

/// A seed that is to be replayed.
pub struct SeedReplayJob {
    pub seed_path: String,
    /// What the files that the replay writes are named after.
    pub artifact_stem: String,
}

/// How often control passed from one place of the binary to another.
pub type GuardEdges = SortedMap<(u32, u32), u64>;

/// The address of each place.
pub type GuardTable = SortedMap<u32, u64>;

/// What the replay of a seed recorded.
pub struct SeedTrace {
    pub seed_path: String,
    pub artifact_stem: String,
    pub edges: GuardEdges,
    pub pc_table: GuardTable,
}

/// What one seed reached, by function.
pub struct SeedTraceSummary {
    pub seed_path: String,
    pub artifact_stem: String,
    pub function_hits: SortedMap<String, u64>,
    pub edge_hits: Vec<((String, String), u64)>,
}

pub open spec fn is_plain(c: char) -> bool {
    ||| 'a' <= c <= 'z'
    ||| 'A' <= c <= 'Z'
    ||| '0' <= c <= '9'
    ||| c == '-'
    ||| c == '_'
}

/// The text with an underscore for every character that is not a letter, a digit, `-` or `_`.
pub open spec fn sanitized(s: Seq<char>) -> Seq<char> {
    Seq::new(
        s.len(),
        |i: int|
            if is_plain(s[i]) {
                s[i]
            } else {
                '_'
            },
    )
}

/// What the files of a seed are named after: its number and its name.
pub open spec fn artifact_stem(index: nat, seed_path: Seq<char>) -> Seq<char> {
    "seed-"@ + zero_padded(decimal(index), 5) + "-"@ + sanitized(
        match file_name_of(seed_path) {
            Some(name) => name,
            None => "seed"@,
        },
    )
}

fn sanitize(s: &str) -> (r: String)
    ensures
        r@ == sanitized(s@),
{
    let c = chars_of(s);
    let n = c.len();
    let mut out = String::new();
    let mut i: usize = 0;
    while i < n
        invariant
            c@ == s@,
            n == c@.len(),
            i <= n,
            out@ == sanitized(s@).take(i as int),
        decreases n - i,
    {
        let ch = c[i];
        if ('a' <= ch && ch <= 'z') || ('A' <= ch && ch <= 'Z') || ('0' <= ch && ch <= '9') || ch
            == '-' || ch == '_' {
            out.push(ch);
        } else {
            out.push('_');
        }
        i = i + 1;
        assert(out@ =~= sanitized(s@).take(i as int));
    }
    assert(out@ =~= sanitized(s@));
    out
}

pub fn seed_artifact_stem(index: usize, seed_path: &str) -> (r: String)
    ensures
        r@ == artifact_stem(index as nat, seed_path@),
{
    let name = match file_name(seed_path) {
        Some(name) => sanitize(name.as_str()),
        None => sanitize("seed"),
    };
    let mut out = "seed-".to_owned();
    let number = decimal_text(index as u64);
    let padded = zero_pad(number.as_str(), 5);
    append(&mut out, padded.as_str());
    append(&mut out, "-");
    append(&mut out, name.as_str());
    out
}

/// The jobs for these seeds, in order.
pub fn seed_jobs(seed_paths: Vec<String>) -> (r: Vec<SeedReplayJob>)
    ensures
        r@.len() == seed_paths@.len(),
        forall|i: int|
            0 <= i < r@.len() ==> (#[trigger] r@[i]).seed_path@ == seed_paths@[i]@
                && r@[i].artifact_stem@ == artifact_stem(i as nat, seed_paths@[i]@),
{
    let n = seed_paths.len();
    let mut out: Vec<SeedReplayJob> = Vec::new();
    let mut i: usize = 0;
    while i < n
        invariant
            n == seed_paths@.len(),
            i <= n,
            out@.len() == i,
            forall|k: int|
                0 <= k < i ==> (#[trigger] out@[k]).seed_path@ == seed_paths@[k]@
                    && out@[k].artifact_stem@ == artifact_stem(k as nat, seed_paths@[k]@),
        decreases n - i,
    {
        let stem = seed_artifact_stem(i, seed_paths[i].as_str());
        out.push(SeedReplayJob { seed_path: seed_paths[i].clone(), artifact_stem: stem });
        i = i + 1;
    }
    out
}

/// Files of different seeds have different names.
pub proof fn law_stems_differ(i: nat, j: nat, a: Seq<char>, b: Seq<char>)
    requires
        i != j,
    ensures
        artifact_stem(i, a) != artifact_stem(j, b),
{
    let x = zero_padded(decimal(i), 5);
    let y = zero_padded(decimal(j), 5);
    let head = "seed-"@.len() as int;
    let (s, t) = (artifact_stem(i, a), artifact_stem(j, b));
    assert forall|k: int| 0 <= k < x.len() implies #[trigger] s[head + k] == x[k] by {}
    assert forall|k: int| 0 <= k < y.len() implies #[trigger] t[head + k] == y[k] by {}
    reveal_strlit("-");
    assert(s[head + x.len()] == '-');
    assert(t[head + y.len()] == '-');
    lemma_no_dash(i, 10);
    lemma_no_dash(j, 10);
    if x.len() < y.len() {
        assert(y[x.len() as int] != '-');
        assert(t[head + x.len()] == y[x.len() as int]);
    } else if y.len() < x.len() {
        assert(x[y.len() as int] != '-');
        assert(s[head + y.len()] == x[y.len() as int]);
    } else {
        lemma_padded_value(decimal(i), 5, 10);
        lemma_padded_value(decimal(j), 5, 10);
        law_number_reads_back(i, 10);
        law_number_reads_back(j, 10);
        if forall|k: int| 0 <= k < x.len() ==> x[k] == y[k] {
            assert(x =~= y);
        }
        let k = choose|k: int| 0 <= k < x.len() && x[k] != y[k];
        assert(s[head + k] == x[k]);
        assert(t[head + k] == y[k]);
    }
}

/// A number that is written out has no dash in it.
proof fn lemma_no_dash(n: nat, base: nat)
    requires
        2 <= base <= 16,
    ensures
        forall|k: int|
            0 <= k < number_text(n, base).len() ==> #[trigger] number_text(
                n,
                base,
            )[k] != '-',
    decreases n,
{
    if n >= base {
        vstd::arithmetic::div_mod::lemma_div_decreases(n as int, base as int);
        lemma_no_dash(n / base, base);
        let before = number_text(n / base, base);
        let all = number_text(n, base);
        assert(all == before.push(digit(n % base)));
        assert forall|k: int| 0 <= k < all.len() implies #[trigger] all[k] != '-' by {
            if k < before.len() {
                assert(all[k] == before[k]);
            }
        }
    }
}

/// A number of 32 bits.
pub open spec fn small(n: Option<u64>) -> Option<u32> {
    match n {
        Some(n) if n <= u32::MAX => Some(n as u32),
        _ => None,
    }
}

fn as_small(n: Option<u64>) -> (r: Option<u32>)
    ensures
        r == small(n),
{
    match n {
        Some(n) if n <= u32::MAX as u64 => Some(n as u32),
        _ => None,
    }
}

/// A transition in an edge file, if it is one.
pub open spec fn edge_item(t: TreeModel) -> Option<((u32, u32), u64)> {
    match (small(t.number_at("prev"@)), small(t.number_at("cur"@)), t.number_at("count"@)) {
        (Some(prev), Some(cur), Some(count)) => Some(((prev, cur), count)),
        _ => None,
    }
}

/// The transitions in an edge file.
pub open spec fn edge_items(list: Seq<TreeModel>) -> Seq<((u32, u32), u64)>
    decreases list.len(),
{
    if list.len() == 0 {
        Seq::empty()
    } else {
        match edge_item(list.last()) {
            Some(item) => edge_items(list.drop_last()).push(item),
            None => edge_items(list.drop_last()),
        }
    }
}

/// A place and its address in an edge file, if it is one.
pub open spec fn pc_item(t: TreeModel) -> Option<(u32, u64)> {
    match (small(t.number_at("guard_id"@)), t.number_at("pc"@)) {
        (Some(guard), Some(pc)) => Some((guard, pc)),
        _ => None,
    }
}

/// The places and their addresses in an edge file.
pub open spec fn pc_items(list: Seq<TreeModel>) -> Seq<(u32, u64)>
    decreases list.len(),
{
    if list.len() == 0 {
        Seq::empty()
    } else {
        match pc_item(list.last()) {
            Some(item) => pc_items(list.drop_last()).push(item),
            None => pc_items(list.drop_last()),
        }
    }
}

fn read_edge(t: &Tree) -> (r: Option<((u32, u32), u64)>)
    ensures
        r == edge_item(t@),
{
    match (as_small(t.number_at("prev")), as_small(t.number_at("cur")), t.number_at("count")) {
        (Some(prev), Some(cur), Some(count)) => Some(((prev, cur), count)),
        _ => None,
    }
}

fn read_pc(t: &Tree) -> (r: Option<(u32, u64)>)
    ensures
        r == pc_item(t@),
{
    match (as_small(t.number_at("guard_id")), t.number_at("pc")) {
        (Some(guard), Some(pc)) => Some((guard, pc)),
        _ => None,
    }
}

fn collect_edges(list: &[Tree]) -> (r: Option<GuardEdges>)
    ensures
        r is Some <==> tally_fits(edge_items(item_models(list@))),
        r is Some ==> is_tally(r->0@, edge_items(item_models(list@))),
{
    let ghost all = item_models(list@);
    let ghost items = edge_items(all);
    let mut edges: GuardEdges = SortedMap::new();
    let n = list.len();
    let mut i: usize = 0;
    assert(all.take(0).len() == 0);
    while i < n
        invariant
            all == item_models(list@),
            items == edge_items(all),
            n == list@.len(),
            i <= n,
            is_tally(edges@, edge_items(all.take(i as int))),
            forall|k: (u32, u32)| #[trigger]
                tally(edge_items(all.take(i as int)), k) <= u64::MAX,
        decreases n - i,
    {
        let ghost before = edge_items(all.take(i as int));
        assert(all.take(i + 1).drop_last() =~= all.take(i as int));
        assert(all[i as int] == list@[i as int]@);
        if let Some((edge, count)) = read_edge(&list[i]) {
            proof {
                lemma_edge_items_grow(all, i + 1, edge);
                lemma_tally_push(before, (edge, count), edge);
            }
            if !add_count(&mut edges, edge, count, Ghost(before)) {
                return None;
            }
            proof {
                assert forall|k: (u32, u32)| #[trigger]
                    tally(before.push((edge, count)), k) <= u64::MAX by {
                    lemma_tally_push(before, (edge, count), k);
                    assert(tally(before, k) <= u64::MAX);
                }
            }
        }
        i = i + 1;
    }
    assert(all.take(n as int) =~= all);
    Some(edges)
}

/// More of the list does not make the sums smaller.
proof fn lemma_edge_items_grow(list: Seq<TreeModel>, n: int, k: (u32, u32))
    requires
        0 <= n <= list.len(),
    ensures
        tally(edge_items(list.take(n)), k) <= tally(edge_items(list), k),
    decreases list.len(),
{
    if n == list.len() {
        assert(list.take(n) =~= list);
    } else {
        lemma_edge_items_grow(list.drop_last(), n, k);
        assert(list.drop_last().take(n) =~= list.take(n));
        if let Some(item) = edge_item(list.last()) {
            lemma_tally_push(edge_items(list.drop_last()), item, k);
        }
    }
}

fn collect_pcs(list: &[Tree]) -> (r: GuardTable)
    ensures
        r@ == firsts(pc_items(item_models(list@))),
{
    let ghost all = item_models(list@);
    let mut table: GuardTable = SortedMap::new();
    let n = list.len();
    let mut i: usize = 0;
    assert(all.take(0).len() == 0);
    while i < n
        invariant
            all == item_models(list@),
            n == list@.len(),
            i <= n,
            table@ == firsts(pc_items(all.take(i as int))),
        decreases n - i,
    {
        assert(all.take(i + 1).drop_last() =~= all.take(i as int));
        assert(all[i as int] == list@[i as int]@);
        if let Some((guard, pc)) = read_pc(&list[i]) {
            add_first(&mut table, guard, pc, Ghost(pc_items(all.take(i as int))));
        }
        i = i + 1;
    }
    assert(all.take(n as int) =~= all);
    table
}

/// Why an edge file could not be read.
#[derive(Clone, Copy, Debug, PartialEq, Eq, Structural)]
pub enum EdgeFileError {
    /// It is no JSON document.
    NotJson,
    /// A transition happened more often than can be counted.
    TooManyHits,
}

/// Whether the transitions in an edge file can be counted.
pub open spec fn edge_file_fits(doc: TreeModel) -> bool {
    tally_fits(edge_items(doc.items_at("edges"@)))
}

/// The transitions and the places in an edge file, if the transitions can be counted.
pub fn edges_of_document(doc: &Tree) -> (r: Option<(GuardEdges, GuardTable)>)
    ensures
        r is Some <==> edge_file_fits(doc@),
        r matches Some((edges, pcs)) ==> {
            &&& is_tally(edges@, edge_items(doc@.items_at("edges"@)))
            &&& pcs@ == firsts(pc_items(doc@.items_at("pcs"@)))
        },
{
    let edges: GuardEdges = match doc.items_at("edges") {
        Some(list) => match collect_edges(list) {
            Some(edges) => edges,
            None => {
                return None;
            },
        },
        None => {
            assert(edge_items(doc@.items_at("edges"@)) =~= Seq::empty());
            SortedMap::new()
        },
    };
    let pcs: GuardTable = match doc.items_at("pcs") {
        Some(list) => collect_pcs(list),
        None => {
            assert(pc_items(doc@.items_at("pcs"@)) =~= Seq::empty());
            SortedMap::new()
        },
    };
    Some((edges, pcs))
}

/// Reads an edge file.
pub fn parse_edge_file(bytes: &[u8]) -> (r: Result<(GuardEdges, GuardTable), EdgeFileError>)
    ensures
        r == Err::<(GuardEdges, GuardTable), EdgeFileError>(EdgeFileError::NotJson)
            <==> json_document(bytes@) is None,
        r == Err::<(GuardEdges, GuardTable), EdgeFileError>(EdgeFileError::TooManyHits)
            <==> json_document(bytes@) is Some && !edge_file_fits(json_document(bytes@)->0),
        r matches Ok((edges, pcs)) ==> {
            let doc = json_document(bytes@)->0;
            &&& is_tally(edges@, edge_items(doc.items_at("edges"@)))
            &&& pcs@ == firsts(pc_items(doc.items_at("pcs"@)))
        },
{
    match parse_json(bytes) {
        Some(doc) => match edges_of_document(&doc) {
            Some(found) => Ok(found),
            None => Err(EdgeFileError::TooManyHits),
        },
        None => Err(EdgeFileError::NotJson),
    }
}

/// The transitions of all traces.
pub open spec fn all_edges(traces: Seq<SeedTrace>) -> Seq<((u32, u32), u64)>
    decreases traces.len(),
{
    if traces.len() == 0 {
        Seq::empty()
    } else {
        all_edges(traces.drop_last()) + traces.last().edges.seq()
    }
}

/// The places of all traces.
pub open spec fn all_pcs(traces: Seq<SeedTrace>) -> Seq<(u32, u64)>
    decreases traces.len(),
{
    if traces.len() == 0 {
        Seq::empty()
    } else {
        all_pcs(traces.drop_last()) + traces.last().pc_table.seq()
    }
}

proof fn lemma_all_edges_grow(traces: Seq<SeedTrace>, n: int, k: (u32, u32))
    requires
        0 <= n <= traces.len(),
    ensures
        tally(all_edges(traces.take(n)), k) <= tally(all_edges(traces), k),
    decreases traces.len(),
{
    if n == traces.len() {
        assert(traces.take(n) =~= traces);
    } else {
        lemma_all_edges_grow(traces.drop_last(), n, k);
        assert(traces.drop_last().take(n) =~= traces.take(n));
        lemma_tally_add(all_edges(traces.drop_last()), traces.last().edges.seq(), k);
    }
}

fn try_merge(seed_traces: &[SeedTrace]) -> (r: Option<(GuardEdges, GuardTable)>)
    ensures
        r is Some <==> tally_fits(all_edges(seed_traces@)),
        r matches Some((edges, pcs)) ==> {
            &&& is_tally(edges@, all_edges(seed_traces@))
            &&& pcs@ == firsts(all_pcs(seed_traces@))
        },
{
    let ghost traces = seed_traces@;
    let mut edges: GuardEdges = SortedMap::new();
    let mut pcs: GuardTable = SortedMap::new();
    let n = seed_traces.len();
    let mut i: usize = 0;
    assert(traces.take(0).len() == 0);
    while i < n
        invariant
            traces == seed_traces@,
            n == traces.len(),
            i <= n,
            is_tally(edges@, all_edges(traces.take(i as int))),
            forall|k: (u32, u32)| #[trigger]
                tally(all_edges(traces.take(i as int)), k) <= u64::MAX,
            pcs@ == firsts(all_pcs(traces.take(i as int))),
        decreases n - i,
    {
        let trace = &seed_traces[i];
        let ghost before = all_edges(traces.take(i as int));
        let ghost here = trace.edges.seq();
        assert(traces.take(i + 1).drop_last() =~= traces.take(i as int));
        let m = trace.edges.len();
        let mut j: usize = 0;
        assert(before + here.take(0) =~= before);
        while j < m
            invariant
                traces == seed_traces@,
                i < traces.len(),
                *trace == traces[i as int],
                here == trace.edges.seq(),
                before == all_edges(traces.take(i as int)),
                all_edges(traces.take(i + 1)) == before + here,
                m == here.len(),
                j <= m,
                is_tally(edges@, before + here.take(j as int)),
                forall|k: (u32, u32)| #[trigger]
                    tally(before + here.take(j as int), k) <= u64::MAX,
            decreases m - j,
        {
            let edge = *trace.edges.key_at(j);
            let count = *trace.edges.value_at(j);
            let ghost items = before + here.take(j as int);
            let ghost more = before + here.take(j + 1);
            assert(items.push((edge, count)) =~= more);
            proof {
                lemma_tally_push(items, (edge, count), edge);
                assert((before + here).take(more.len() as int) =~= more);
                lemma_tally_take(before + here, more.len() as int, edge);
                lemma_all_edges_grow(traces, i + 1, edge);
            }
            if !add_count(&mut edges, edge, count, Ghost(items)) {
                return None;
            }
            proof {
                assert forall|k: (u32, u32)| #[trigger] tally(more, k) <= u64::MAX by {
                    lemma_tally_push(items, (edge, count), k);
                    assert(tally(items, k) <= u64::MAX);
                }
            }
            j = j + 1;
        }
        assert(here.take(m as int) =~= here);
        let ghost pcs_before = all_pcs(traces.take(i as int));
        let ghost table = trace.pc_table.seq();
        let p = trace.pc_table.len();
        let mut j: usize = 0;
        assert(pcs_before + table.take(0) =~= pcs_before);
        while j < p
            invariant
                table == trace.pc_table.seq(),
                p == table.len(),
                j <= p,
                pcs@ == firsts(pcs_before + table.take(j as int)),
            decreases p - j,
        {
            let guard = *trace.pc_table.key_at(j);
            let pc = *trace.pc_table.value_at(j);
            add_first(&mut pcs, guard, pc, Ghost(pcs_before + table.take(j as int)));
            assert((pcs_before + table.take(j as int)).push((guard, pc)) =~= pcs_before + table.take(
                j + 1,
            ));
            j = j + 1;
        }
        assert(table.take(p as int) =~= table);
        i = i + 1;
    }
    assert(traces.take(n as int) =~= traces);
    Some((edges, pcs))
}

/// The transitions and the places of all traces together.
pub fn merge_seed_traces(seed_traces: &[SeedTrace]) -> (r: (GuardEdges, GuardTable))
    requires
        tally_fits(all_edges(seed_traces@)),
    ensures
        is_tally(r.0@, all_edges(seed_traces@)),
        r.1@ == firsts(all_pcs(seed_traces@)),
{
    try_merge(seed_traces).unwrap()
}

/// Whether the transitions of all traces together can be counted.
pub fn seed_traces_fit(seed_traces: &[SeedTrace]) -> (r: bool)
    ensures
        r == tally_fits(all_edges(seed_traces@)),
{
    try_merge(seed_traces).is_some()
}

/// The function that a place belongs to; a made-up name where it is not known.
pub open spec fn function_at(table: Map<u32, u64>, names: Map<u64, String>, guard: u32) -> Seq<char> {
    if table.contains_key(guard) && names.contains_key(table[guard]) {
        names[table[guard]]@
    } else {
        "guard_"@ + decimal(guard as nat)
    }
}

fn resolve(table: &GuardTable, names: &SortedMap<u64, String>, guard: u32) -> (r: String)
    ensures
        r@ == function_at(table@, names@, guard),
{
    if let Some(pc) = table.get(&guard) {
        if let Some(name) = names.get(pc) {
            return name.clone();
        }
    }
    let mut out = "guard_".to_owned();
    let number = decimal_text(guard as u64);
    append(&mut out, number.as_str());
    out
}

/// The transitions from one function to another, in a list of transitions between places.
pub open spec fn call_items(
    edges: Seq<((u32, u32), u64)>,
    table: Map<u32, u64>,
    names: Map<u64, String>,
) -> Seq<((Seq<char>, Seq<char>), u64)>
    decreases edges.len(),
{
    if edges.len() == 0 {
        Seq::empty()
    } else {
        let e = edges.last();
        let before = call_items(edges.drop_last(), table, names);
        let caller = function_at(table, names, e.0.0);
        let callee = function_at(table, names, e.0.1);
        if caller == callee {
            before
        } else {
            before.push(((caller, callee), e.1))
        }
    }
}

proof fn lemma_call_items_grow(
    edges: Seq<((u32, u32), u64)>,
    table: Map<u32, u64>,
    names: Map<u64, String>,
    n: int,
    k: (Seq<char>, Seq<char>),
)
    requires
        0 <= n <= edges.len(),
    ensures
        tally(call_items(edges.take(n), table, names), k) <= tally(
            call_items(edges, table, names),
            k,
        ),
    decreases edges.len(),
{
    if n == edges.len() {
        assert(edges.take(n) =~= edges);
    } else {
        lemma_call_items_grow(edges.drop_last(), table, names, n, k);
        assert(edges.drop_last().take(n) =~= edges.take(n));
        let e = edges.last();
        let caller = function_at(table, names, e.0.0);
        let callee = function_at(table, names, e.0.1);
        lemma_tally_push(
            call_items(edges.drop_last(), table, names),
            ((caller, callee), e.1),
            k,
        );
    }
}

fn try_aggregate(
    edges: &GuardEdges,
    pc_table: &GuardTable,
    pc_to_func: &SortedMap<u64, String>,
) -> (r: Option<FunctionEdges>)
    ensures
        r is Some <==> tally_fits(call_items(edges.seq(), pc_table@, pc_to_func@)),
        r matches Some(calls) ==> is_tally(
            calls@,
            call_items(edges.seq(), pc_table@, pc_to_func@),
        ),
{
    let ghost all = edges.seq();
    let ghost (table, names) = (pc_table@, pc_to_func@);
    let mut calls: FunctionEdges = SortedMap::new();
    let n = edges.len();
    let mut i: usize = 0;
    assert(all.take(0).len() == 0);
    while i < n
        invariant
            all == edges.seq(),
            (table, names) == (pc_table@, pc_to_func@),
            n == all.len(),
            i <= n,
            is_tally(calls@, call_items(all.take(i as int), table, names)),
            forall|k: (Seq<char>, Seq<char>)| #[trigger]
                tally(call_items(all.take(i as int), table, names), k) <= u64::MAX,
        decreases n - i,
    {
        let edge = *edges.key_at(i);
        let count = *edges.value_at(i);
        let ghost before = call_items(all.take(i as int), table, names);
        assert(all.take(i + 1).drop_last() =~= all.take(i as int));
        let caller = resolve(pc_table, pc_to_func, edge.0);
        let callee = resolve(pc_table, pc_to_func, edge.1);
        if !text_eq(caller.as_str(), callee.as_str()) {
            let ghost k = (caller@, callee@);
            proof {
                lemma_tally_push(before, (k, count), k);
                lemma_call_items_grow(all, table, names, i + 1, k);
            }
            if !add_count(&mut calls, (caller, callee), count, Ghost(before)) {
                return None;
            }
            proof {
                assert forall|l: (Seq<char>, Seq<char>)| #[trigger]
                    tally(before.push((k, count)), l) <= u64::MAX by {
                    lemma_tally_push(before, (k, count), l);
                    assert(tally(before, l) <= u64::MAX);
                }
            }
        }
        i = i + 1;
    }
    assert(all.take(n as int) =~= all);
    Some(calls)
}

/// How often each function called another one, from the transitions between places.
pub fn aggregate_function_edges(
    edges: &GuardEdges,
    pc_table: &GuardTable,
    pc_to_func: &SortedMap<u64, String>,
) -> (r: FunctionEdges)
    requires
        tally_fits(call_items(edges.seq(), pc_table@, pc_to_func@)),
    ensures
        is_tally(r@, call_items(edges.seq(), pc_table@, pc_to_func@)),
{
    try_aggregate(edges, pc_table, pc_to_func).unwrap()
}

/// Whether the calls can be counted.
pub fn function_edges_fit(
    edges: &GuardEdges,
    pc_table: &GuardTable,
    pc_to_func: &SortedMap<u64, String>,
) -> (r: bool)
    ensures
        r == tally_fits(call_items(edges.seq(), pc_table@, pc_to_func@)),
{
    try_aggregate(edges, pc_table, pc_to_func).is_some()
}

/// No function is taken to call itself: transitions within a function are no calls.
pub proof fn law_no_function_calls_itself(
    edges: Seq<((u32, u32), u64)>,
    table: Map<u32, u64>,
    names: Map<u64, String>,
    calls: Map<(Seq<char>, Seq<char>), u64>,
    name: Seq<char>,
)
    requires
        is_tally(calls, call_items(edges, table, names)),
    ensures
        !calls.contains_key((name, name)),
{
    lemma_no_self_call(edges, table, names, name);
}

proof fn lemma_no_self_call(
    edges: Seq<((u32, u32), u64)>,
    table: Map<u32, u64>,
    names: Map<u64, String>,
    name: Seq<char>,
)
    ensures
        !has_key(call_items(edges, table, names), (name, name)),
    decreases edges.len(),
{
    if edges.len() > 0 {
        lemma_no_self_call(edges.drop_last(), table, names, name);
        let before = call_items(edges.drop_last(), table, names);
        let e = edges.last();
        lemma_has_key_push(
            before,
            ((function_at(table, names, e.0.0), function_at(table, names, e.0.1)), e.1),
            (name, name),
        );
    }
}

/// For each call, the caller and the callee.
pub open spec fn hit_items(calls: Seq<((Seq<char>, Seq<char>), u64)>) -> Seq<(Seq<char>, u64)>
    decreases calls.len(),
{
    if calls.len() == 0 {
        Seq::empty()
    } else {
        let c = calls.last();
        hit_items(calls.drop_last()).push((c.0.0, c.1)).push((c.0.1, c.1))
    }
}

/// Calls as a list of names and counts.
pub open spec fn call_views(calls: Seq<((String, String), u64)>) -> Seq<
    ((Seq<char>, Seq<char>), u64),
> {
    Seq::new(calls.len(), |i: int| ((calls[i].0.0@, calls[i].0.1@), calls[i].1))
}

/// `list` holds the sums of the calls in `items`, in ascending order of the names.
pub open spec fn is_call_list(
    list: Seq<((Seq<char>, Seq<char>), u64)>,
    items: Seq<((Seq<char>, Seq<char>), u64)>,
) -> bool {
    &&& ascending::<(String, String), u64>(list)
    &&& is_tally(entries_map(list), items)
}

/// Whether the calls of a trace, and what they say of each function, can be counted.
pub open spec fn summary_fits(items: Seq<((Seq<char>, Seq<char>), u64)>) -> bool {
    &&& tally_fits(items)
    &&& forall|list: Seq<((Seq<char>, Seq<char>), u64)>|
        is_call_list(list, items) ==> tally_fits(#[trigger] hit_items(list))
}

/// The calls that a trace recorded.
pub open spec fn trace_calls(trace: SeedTrace, names: Map<u64, String>) -> Seq<
    ((Seq<char>, Seq<char>), u64),
> {
    call_items(trace.edges.seq(), trace.pc_table@, names)
}

/// What a trace says of functions.
pub open spec fn is_summary(
    trace: SeedTrace,
    names: Map<u64, String>,
    summary: SeedTraceSummary,
) -> bool {
    &&& summary.seed_path@ == trace.seed_path@
    &&& summary.artifact_stem@ == trace.artifact_stem@
    &&& is_call_list(call_views(summary.edge_hits@), trace_calls(trace, names))
    &&& is_tally(summary.function_hits@, hit_items(call_views(summary.edge_hits@)))
}

/// There is one list of the sums of calls.
proof fn lemma_call_list_unique(
    a: Seq<((Seq<char>, Seq<char>), u64)>,
    b: Seq<((Seq<char>, Seq<char>), u64)>,
    items: Seq<((Seq<char>, Seq<char>), u64)>,
)
    requires
        is_call_list(a, items),
        is_call_list(b, items),
    ensures
        a == b,
{
    let (m, n) = (entries_map(a), entries_map(b));
    assert forall|k: (Seq<char>, Seq<char>)| m.contains_key(k) <==> n.contains_key(k) by {
        assert(m.contains_key(k) <==> has_key(items, k));
        assert(n.contains_key(k) <==> has_key(items, k));
    }
    assert forall|k: (Seq<char>, Seq<char>)| m.contains_key(k) implies m[k] == n[k] by {
        assert(n.contains_key(k) <==> has_key(items, k));
    }
    assert(m =~= n);
    lemma_entries_unique::<(String, String), u64>(a, b);
}

fn list_calls(calls: &FunctionEdges) -> (r: Vec<((String, String), u64)>)
    ensures
        call_views(r@) == calls.seq(),
{
    let ghost all = calls.seq();
    let n = calls.len();
    let mut out: Vec<((String, String), u64)> = Vec::new();
    let mut i: usize = 0;
    while i < n
        invariant
            all == calls.seq(),
            n == all.len(),
            i <= n,
            call_views(out@) == all.take(i as int),
        decreases n - i,
    {
        let call = calls.key_at(i);
        let ghost out0 = out@;
        out.push(((call.0.clone(), call.1.clone()), *calls.value_at(i)));
        assert(call_views(out@) =~= call_views(out0).push(all[i as int]));
        assert(all.take(i + 1) =~= all.take(i as int).push(all[i as int]));
        i = i + 1;
    }
    assert(all.take(n as int) =~= all);
    out
}

proof fn lemma_hit_items_grow(calls: Seq<((Seq<char>, Seq<char>), u64)>, n: int, k: Seq<char>)
    requires
        0 <= n <= calls.len(),
    ensures
        tally(hit_items(calls.take(n)), k) <= tally(hit_items(calls), k),
    decreases calls.len(),
{
    if n == calls.len() {
        assert(calls.take(n) =~= calls);
    } else {
        lemma_hit_items_grow(calls.drop_last(), n, k);
        assert(calls.drop_last().take(n) =~= calls.take(n));
        let c = calls.last();
        let before = hit_items(calls.drop_last());
        lemma_tally_push(before, (c.0.0, c.1), k);
        lemma_tally_push(before.push((c.0.0, c.1)), (c.0.1, c.1), k);
    }
}

/// How often each function took part in a call, if that can be counted.
fn count_hits(calls: &Vec<((String, String), u64)>) -> (r: Option<SortedMap<String, u64>>)
    ensures
        r is Some <==> tally_fits(hit_items(call_views(calls@))),
        r matches Some(hits) ==> is_tally(hits@, hit_items(call_views(calls@))),
{
    let ghost all = call_views(calls@);
    let mut hits: SortedMap<String, u64> = SortedMap::new();
    let n = calls.len();
    let mut i: usize = 0;
    assert(all.take(0).len() == 0);
    while i < n
        invariant
            all == call_views(calls@),
            n == calls@.len(),
            i <= n,
            is_tally(hits@, hit_items(all.take(i as int))),
            forall|k: Seq<char>| #[trigger] tally(hit_items(all.take(i as int)), k) <= u64::MAX,
        decreases n - i,
    {
        let call = &calls[i];
        let count = call.1;
        let ghost (a, b) = (call.0.0@, call.0.1@);
        let ghost before = hit_items(all.take(i as int));
        let ghost one = before.push((a, count));
        let ghost two = one.push((b, count));
        assert(all.take(i + 1).drop_last() =~= all.take(i as int));
        assert(hit_items(all.take(i + 1)) == two);
        proof {
            lemma_tally_push(before, (a, count), a);
            lemma_tally_push(one, (b, count), a);
            lemma_tally_push(one, (b, count), b);
            lemma_hit_items_grow(all, i + 1, a);
            lemma_hit_items_grow(all, i + 1, b);
        }
        if !add_count(&mut hits, call.0.0.clone(), count, Ghost(before)) {
            return None;
        }
        if !add_count(&mut hits, call.0.1.clone(), count, Ghost(one)) {
            return None;
        }
        proof {
            assert forall|k: Seq<char>| #[trigger] tally(two, k) <= u64::MAX by {
                lemma_tally_push(before, (a, count), k);
                lemma_tally_push(one, (b, count), k);
                assert(tally(before, k) <= u64::MAX);
            }
        }
        i = i + 1;
    }
    assert(all.take(n as int) =~= all);
    Some(hits)
}

fn try_summarize(trace: &SeedTrace, pc_to_func: &SortedMap<u64, String>) -> (r: Option<
    SeedTraceSummary,
>)
    ensures
        r is Some <==> summary_fits(trace_calls(*trace, pc_to_func@)),
        r matches Some(summary) ==> is_summary(*trace, pc_to_func@, summary),
{
    let ghost items = trace_calls(*trace, pc_to_func@);
    match try_aggregate(&trace.edges, &trace.pc_table, pc_to_func) {
        Some(calls) => {
            let _ = calls.len();
            let edge_hits = list_calls(&calls);
            let ghost found = call_views(edge_hits@);
            assert(is_call_list(found, items));
            proof {
                assert forall|list: Seq<((Seq<char>, Seq<char>), u64)>|
                    #![trigger hit_items(list)]
                    is_call_list(list, items) implies list == found by {
                    lemma_call_list_unique(list, found, items);
                }
            }
            match count_hits(&edge_hits) {
                Some(function_hits) => Some(
                    SeedTraceSummary {
                        seed_path: trace.seed_path.clone(),
                        artifact_stem: trace.artifact_stem.clone(),
                        function_hits,
                        edge_hits,
                    },
                ),
                None => None,
            }
        },
        None => None,
    }
}

/// Whether the calls of every trace can be counted.
pub open spec fn summaries_fit(traces: Seq<SeedTrace>, names: Map<u64, String>) -> bool {
    forall|i: int| 0 <= i < traces.len() ==> summary_fits(#[trigger] trace_calls(traces[i], names))
}

fn try_summarize_all(seed_traces: &[SeedTrace], pc_to_func: &SortedMap<u64, String>) -> (r: Option<
    Vec<SeedTraceSummary>,
>)
    ensures
        r is Some <==> summaries_fit(seed_traces@, pc_to_func@),
        r matches Some(out) ==> {
            &&& out@.len() == seed_traces@.len()
            &&& forall|i: int|
                0 <= i < out@.len() ==> is_summary(
                    seed_traces@[i],
                    pc_to_func@,
                    #[trigger] out@[i],
                )
        },
{
    let n = seed_traces.len();
    let mut out: Vec<SeedTraceSummary> = Vec::new();
    let mut i: usize = 0;
    while i < n
        invariant
            n == seed_traces@.len(),
            i <= n,
            out@.len() == i,
            forall|k: int|
                0 <= k < i ==> summary_fits(#[trigger] trace_calls(seed_traces@[k], pc_to_func@)),
            forall|k: int|
                0 <= k < i ==> is_summary(seed_traces@[k], pc_to_func@, #[trigger] out@[k]),
        decreases n - i,
    {
        match try_summarize(&seed_traces[i], pc_to_func) {
            Some(summary) => {
                out.push(summary);
            },
            None => {
                assert(!summary_fits(trace_calls(seed_traces@[i as int], pc_to_func@)));
                return None;
            },
        }
        i = i + 1;
    }
    Some(out)
}

/// What the traces say of functions.
pub fn summarize_seed_traces(
    seed_traces: &[SeedTrace],
    pc_to_func: &SortedMap<u64, String>,
) -> (r: Vec<SeedTraceSummary>)
    requires
        summaries_fit(seed_traces@, pc_to_func@),
    ensures
        r@.len() == seed_traces@.len(),
        forall|i: int|
            0 <= i < r@.len() ==> is_summary(seed_traces@[i], pc_to_func@, #[trigger] r@[i]),
{
    try_summarize_all(seed_traces, pc_to_func).unwrap()
}

/// Whether the calls of every trace can be counted.
pub fn seed_summaries_fit(
    seed_traces: &[SeedTrace],
    pc_to_func: &SortedMap<u64, String>,
) -> (r: bool)
    ensures
        r == summaries_fit(seed_traces@, pc_to_func@),
{
    try_summarize_all(seed_traces, pc_to_func).is_some()
}

} // verus!
