//! Coverage of functions, and which functions belong to the project.

use crate::ordered::{ascending, has_key, lemma_has_key_take, NameSet, SortedMap};
use crate::paths::{is_absolute, is_absolute_path, path_rest, path_starts_with, spans, strip_prefix};
use crate::text::{lemma_text_lt_irreflexive, starts_with, text_eq, text_lt, text_starts_with};
use crate::trace::SeedTraceSummary;
use vstd::prelude::*;

verus! {

/// How much of a function was executed.
#[derive(Debug)]
pub struct FunctionCoverage {
    pub count: u64,
    pub region_total: u64,
    pub region_covered: u64,
    pub line_total: u64,
    pub line_covered: u64,
    pub file: Option<String>,
}

impl Clone for FunctionCoverage {
    fn clone(&self) -> (r: Self)
        ensures
            r == *self,
    {
        FunctionCoverage {
            count: self.count,
            region_total: self.region_total,
            region_covered: self.region_covered,
            line_total: self.line_total,
            line_covered: self.line_covered,
            file: match &self.file {
                Some(file) => Some(file.clone()),
                None => None,
            },
        }
    }
}

/// The coverage of a function of which nothing is known.
pub open spec fn no_coverage() -> FunctionCoverage {
    FunctionCoverage {
        count: 0,
        region_total: 0,
        region_covered: 0,
        line_total: 0,
        line_covered: 0,
        file: None,
    }
}

impl Default for FunctionCoverage {
    fn default() -> (r: Self)
        ensures
            r == no_coverage(),
    {
        FunctionCoverage {
            count: 0,
            region_total: 0,
            region_covered: 0,
            line_total: 0,
            line_covered: 0,
            file: None,
        }
    }
}

/// What is remembered of a function from one run to the next.
#[derive(Clone, Copy, Debug, PartialEq, Eq, Structural)]
pub struct CoverageState {
    pub line_covered: u64,
    pub no_gain_cycles: u64,
}

pub open spec fn text_option(s: Option<&str>) -> Option<Seq<char>> {
    match s {
        Some(s) => Some(s@),
        None => None,
    }
}

/// The source file of a function, where it is known.
pub open spec fn source_of(cov: FunctionCoverage) -> Option<Seq<char>> {
    match cov.file {
        Some(file) => Some(file@),
        None => None,
    }
}

impl FunctionCoverage {
    /// The source file, where it is known.
    pub fn source(&self) -> (r: Option<&str>)
        ensures
            text_option(r) == source_of(*self),
    {
        match &self.file {
            Some(file) => Some(file.as_str()),
            None => None,
        }
    }
}

/// A relative path belongs to the project; an absolute one does if it lies under the root.
pub open spec fn partitionable(file: Option<Seq<char>>, root: Seq<char>) -> bool {
    match file {
        None => false,
        Some(file) => !is_absolute_path(file) || path_starts_with(file, root),
    }
}

pub fn is_partitionable_source(file: Option<&str>, workspace_root: &str) -> (r: bool)
    ensures
        r == partitionable(text_option(file), workspace_root@),
{
    match file {
        None => false,
        Some(file) => {
            !is_absolute(file) || crate::paths::starts_with(file, workspace_root)
        },
    }
}

/// The path relative to the root, where it lies under the root.
pub open spec fn displayed_path(file: Seq<char>, root: Seq<char>) -> Seq<char> {
    if is_absolute_path(file) && path_starts_with(file, root) {
        path_rest(file, spans(root).len() as int)
    } else {
        file
    }
}

pub fn display_source_path(file: &str, workspace_root: &str) -> (r: String)
    ensures
        r@ == displayed_path(file@, workspace_root@),
{
    if is_absolute(file) {
        if let Some(stripped) = strip_prefix(file, workspace_root) {
            return stripped;
        }
    }
    file.to_owned()
}

/// Entry points and fuzzing harness code serve every partition.
pub open spec fn shared_source(file: Option<Seq<char>>, root: Seq<char>) -> bool {
    match file {
        None => false,
        Some(file) => {
            let shown = displayed_path(file, root);
            shown == "src/main.rs"@ || text_starts_with(shown, "fuzz/"@) || text_starts_with(
                shown,
                "fuzz_targets/"@,
            )
        },
    }
}

pub fn is_shared_source(file: Option<&str>, workspace_root: &str) -> (r: bool)
    ensures
        r == shared_source(text_option(file), workspace_root@),
{
    match file {
        None => false,
        Some(file) => {
            let displayed = display_source_path(file, workspace_root);
            text_eq(displayed.as_str(), "src/main.rs") || starts_with(
                displayed.as_str(),
                "fuzz/",
            ) || starts_with(displayed.as_str(), "fuzz_targets/")
        },
    }
}

/// Whether the function is one of the project's own.
pub open spec fn is_owned(
    coverage: Map<Seq<char>, FunctionCoverage>,
    root: Seq<char>,
    name: Seq<char>,
) -> bool {
    coverage.contains_key(name) && partitionable(source_of(coverage[name]), root)
}

/// The functions of the project itself.
pub fn owned_functions(
    coverage_by_function: &SortedMap<String, FunctionCoverage>,
    workspace_root: &str,
) -> (r: NameSet)
    ensures
        forall|name: Seq<char>|
            #![trigger r@.contains_key(name)]
            r@.contains_key(name) <==> is_owned(coverage_by_function@, workspace_root@, name),
{
    let mut out: NameSet = SortedMap::new();
    let n = coverage_by_function.len();
    let ghost all = coverage_by_function.seq();
    let mut i: usize = 0;
    while i < n
        invariant
            n == all.len(),
            all == coverage_by_function.seq(),
            i <= n,
            forall|name: Seq<char>|
                #![trigger out@.contains_key(name)]
                out@.contains_key(name) <==> has_key(all.take(i as int), name) && is_owned(
                    coverage_by_function@,
                    workspace_root@,
                    name,
                ),
        decreases n - i,
    {
        let name = coverage_by_function.key_at(i);
        let cov = coverage_by_function.value_at(i);
        let ghost before = out@;
        if is_partitionable_source(cov.source(), workspace_root) {
            out.insert(name.clone(), ());
        }
        proof {
            assert forall|k: Seq<char>|
                #![trigger out@.contains_key(k)]
                out@.contains_key(k) <==> has_key(all.take(i + 1), k) && is_owned(
                    coverage_by_function@,
                    workspace_root@,
                    k,
                ) by {
                lemma_has_key_take(all, i as int, k);
                assert(before.contains_key(k) <==> has_key(all.take(i as int), k) && is_owned(
                    coverage_by_function@,
                    workspace_root@,
                    k,
                ));
            }
        }
        i = i + 1;
    }
    assert(all.take(n as int) =~= all);
    out
}

/// How many of the seeds reach the function.
pub open spec fn seed_hits(seeds: Seq<SeedTraceSummary>, name: Seq<char>) -> nat
    decreases seeds.len(),
{
    if seeds.len() == 0 {
        0
    } else {
        seed_hits(seeds.drop_last(), name) + (if seeds.last().function_hits@.contains_key(name) {
            1nat
        } else {
            0nat
        })
    }
}

pub proof fn lemma_seed_hits_bound(seeds: Seq<SeedTraceSummary>, name: Seq<char>)
    ensures
        seed_hits(seeds, name) <= seeds.len(),
    decreases seeds.len(),
{
    if seeds.len() > 0 {
        lemma_seed_hits_bound(seeds.drop_last(), name);
    }
}

/// For every function that a seed reaches, how many seeds do.
pub fn function_seed_hits(seed_summaries: &[SeedTraceSummary]) -> (r: SortedMap<String, u64>)
    ensures
        forall|name: Seq<char>|
            #![trigger r@.contains_key(name)]
            r@.contains_key(name) <==> seed_hits(seed_summaries@, name) > 0,
        forall|name: Seq<char>|
            #[trigger] r@.contains_key(name) ==> r@[name] == seed_hits(seed_summaries@, name),
{
    let mut hits: SortedMap<String, u64> = SortedMap::new();
    let ghost seeds = seed_summaries@;
    let mut i: usize = 0;
    while i < seed_summaries.len()
        invariant
            seeds == seed_summaries@,
            i <= seeds.len(),
            forall|name: Seq<char>|
                #![trigger hits@.contains_key(name)]
                hits@.contains_key(name) <==> seed_hits(seeds.take(i as int), name) > 0,
            forall|name: Seq<char>|
                #[trigger] hits@.contains_key(name) ==> hits@[name] == seed_hits(
                    seeds.take(i as int),
                    name,
                ),
        decreases seeds.len() - i,
    {
        let summary = &seed_summaries[i];
        let n = summary.function_hits.len();
        let ghost all = summary.function_hits.seq();
        let ghost earlier = seeds.take(i as int);
        let ghost base = hits@;
        assert(all.take(0) =~= Seq::empty());
        let mut j: usize = 0;
        while j < n
            invariant
                n == all.len(),
                all == summary.function_hits.seq(),
                ascending::<String, u64>(all),
                j <= n,
                earlier.len() == i,
                i < seeds.len(),
                seeds.len() <= usize::MAX,
                forall|name: Seq<char>|
                    #![trigger hits@.contains_key(name)]
                    hits@.contains_key(name) <==> seed_hits(earlier, name) > 0 || has_key(
                        all.take(j as int),
                        name,
                    ),
                forall|name: Seq<char>|
                    #[trigger] hits@.contains_key(name) ==> hits@[name] == seed_hits(earlier, name)
                        + (if has_key(all.take(j as int), name) {
                        1nat
                    } else {
                        0nat
                    }),
            decreases n - j,
        {
            let name = summary.function_hits.key_at(j);
            let ghost before = hits@;
            let ghost part = all.take(j as int);
            proof {
                lemma_seed_hits_bound(earlier, name@);
                if has_key(part, name@) {
                    let k = choose|k: int| 0 <= k < part.len() && (#[trigger] part[k]).0 == name@;
                    lemma_text_lt_irreflexive(name@);
                    assert(text_lt(all[k].0, all[j as int].0));
                }
            }
            let count: u64 = match hits.get(name) {
                Some(c) => *c,
                None => 0,
            };
            hits.insert(name.clone(), count + 1);
            proof {
                assert forall|k: Seq<char>|
                    #![trigger hits@.contains_key(k)]
                    (hits@.contains_key(k) <==> seed_hits(earlier, k) > 0 || has_key(
                        all.take(j + 1),
                        k,
                    )) && (hits@.contains_key(k) ==> hits@[k] == seed_hits(earlier, k) + (
                    if has_key(all.take(j + 1), k) {
                        1nat
                    } else {
                        0nat
                    })) by {
                    lemma_has_key_take(all, j as int, k);
                    assert(before.contains_key(k) <==> seed_hits(earlier, k) > 0 || has_key(
                        part,
                        k,
                    ));
                }
            }
            j = j + 1;
        }
        proof {
            let next = seeds.take(i + 1);
            assert(next.drop_last() =~= earlier);
            assert(all.take(n as int) =~= all);
            assert forall|k: Seq<char>|
                #![trigger hits@.contains_key(k)]
                (hits@.contains_key(k) <==> seed_hits(next, k) > 0) && (hits@.contains_key(k)
                    ==> hits@[k] == seed_hits(next, k)) by {
                assert(next.last().function_hits@.contains_key(k) <==> has_key(all, k));
            }
        }
        i = i + 1;
    }
    assert(seeds.take(seeds.len() as int) =~= seeds);
    hits
}

/// Four fifths of the seeds reach the function, or it is harness code.
pub open spec fn is_shared(
    seeds: Seq<SeedTraceSummary>,
    coverage: Map<Seq<char>, FunctionCoverage>,
    root: Seq<char>,
    name: Seq<char>,
) -> bool {
    let seed_count = if seeds.len() == 0 {
        1
    } else {
        seeds.len()
    };
    is_owned(coverage, root, name) && (shared_source(source_of(coverage[name]), root) || (seed_hits(
        seeds,
        name,
    ) > 0 && 5 * seed_hits(seeds, name) >= 4 * seed_count))
}

/// The functions of the project that every partition is given.
pub fn shared_functions(
    seed_summaries: &[SeedTraceSummary],
    coverage_by_function: &SortedMap<String, FunctionCoverage>,
    workspace_root: &str,
) -> (r: NameSet)
    ensures
        forall|name: Seq<char>|
            #![trigger r@.contains_key(name)]
            r@.contains_key(name) <==> is_shared(
                seed_summaries@,
                coverage_by_function@,
                workspace_root@,
                name,
            ),
{
    let owned = owned_functions(coverage_by_function, workspace_root);
    let hits = function_seed_hits(seed_summaries);
    let seed_count: u128 = if seed_summaries.len() == 0 {
        1
    } else {
        seed_summaries.len() as u128
    };
    let mut out: NameSet = SortedMap::new();
    let n = coverage_by_function.len();
    let ghost all = coverage_by_function.seq();
    let mut i: usize = 0;
    while i < n
        invariant
            n == all.len(),
            all == coverage_by_function.seq(),
            i <= n,
            seed_count == (if seed_summaries@.len() == 0 {
                1
            } else {
                seed_summaries@.len()
            }),
            seed_count <= usize::MAX,
            forall|name: Seq<char>|
                #![trigger owned@.contains_key(name)]
                owned@.contains_key(name) <==> is_owned(
                    coverage_by_function@,
                    workspace_root@,
                    name,
                ),
            forall|name: Seq<char>|
                #![trigger hits@.contains_key(name)]
                hits@.contains_key(name) <==> seed_hits(seed_summaries@, name) > 0,
            forall|name: Seq<char>|
                #[trigger] hits@.contains_key(name) ==> hits@[name] == seed_hits(
                    seed_summaries@,
                    name,
                ),
            forall|name: Seq<char>|
                #![trigger out@.contains_key(name)]
                out@.contains_key(name) <==> has_key(all.take(i as int), name) && is_shared(
                    seed_summaries@,
                    coverage_by_function@,
                    workspace_root@,
                    name,
                ),
        decreases n - i,
    {
        let name = coverage_by_function.key_at(i);
        let cov = coverage_by_function.value_at(i);
        let ghost before = out@;
        if owned.contains(name) {
            let by_source = is_shared_source(cov.source(), workspace_root);
            let by_frequency = match hits.get(name) {
                Some(h) => 5 * (*h as u128) >= 4 * seed_count,
                None => false,
            };
            if by_source || by_frequency {
                out.insert(name.clone(), ());
            }
        }
        proof {
            assert forall|k: Seq<char>|
                #![trigger out@.contains_key(k)]
                out@.contains_key(k) <==> has_key(all.take(i + 1), k) && is_shared(
                    seed_summaries@,
                    coverage_by_function@,
                    workspace_root@,
                    k,
                ) by {
                lemma_has_key_take(all, i as int, k);
                assert(before.contains_key(k) <==> has_key(all.take(i as int), k) && is_shared(
                    seed_summaries@,
                    coverage_by_function@,
                    workspace_root@,
                    k,
                ));
            }
        }
        i = i + 1;
    }
    assert(all.take(n as int) =~= all);
    out
}

/// Those of the seeds that reach a function.
pub open spec fn reaching(seeds: Seq<SeedTraceSummary>, name: Seq<char>) -> Seq<SeedTraceSummary> {
    seeds.filter(|seed: SeedTraceSummary| seed.function_hits@.contains_key(name))
}

/// The seeds that reach a function are counted, each once.
pub proof fn law_hits_count_seeds(seeds: Seq<SeedTraceSummary>, name: Seq<char>)
    ensures
        seed_hits(seeds, name) == reaching(seeds, name).len(),
        seed_hits(seeds, name) <= seeds.len(),
    decreases seeds.len(),
{
    reveal(Seq::filter);
    if seeds.len() > 0 {
        law_hits_count_seeds(seeds.drop_last(), name);
    }
}

/// Whether a function that is not harness code is shared depends on the share of the seeds that
/// reach it: at least four do for each that does not.
pub proof fn law_shared_by_most_seeds(
    seeds: Seq<SeedTraceSummary>,
    coverage: Map<Seq<char>, FunctionCoverage>,
    root: Seq<char>,
    name: Seq<char>,
)
    requires
        seeds.len() > 0,
        is_owned(coverage, root, name),
        !shared_source(source_of(coverage[name]), root),
    ensures
        is_shared(seeds, coverage, root, name) <==> reaching(seeds, name).len() >= 4 * (seeds.len()
            - reaching(seeds, name).len()),
{
    law_hits_count_seeds(seeds, name);
}

/// No function but harness code is shared where there is no seed.
pub proof fn law_nothing_is_shared_by_no_seed(
    coverage: Map<Seq<char>, FunctionCoverage>,
    root: Seq<char>,
    name: Seq<char>,
)
    requires
        !shared_source(source_of(coverage[name]), root),
    ensures
        !is_shared(Seq::empty(), coverage, root, name),
{
}

/// Seeds, one time after the other.
pub open spec fn repeated<T>(s: Seq<T>, times: nat) -> Seq<T>
    decreases times,
{
    if times == 0 {
        Seq::empty()
    } else {
        repeated(s, (times - 1) as nat) + s
    }
}

proof fn lemma_hits_add(a: Seq<SeedTraceSummary>, b: Seq<SeedTraceSummary>, name: Seq<char>)
    ensures
        seed_hits(a + b, name) == seed_hits(a, name) + seed_hits(b, name),
    decreases b.len(),
{
    if b.len() == 0 {
        assert(a + b =~= a);
    } else {
        assert((a + b).drop_last() =~= a + b.drop_last());
        lemma_hits_add(a, b.drop_last(), name);
    }
}

proof fn lemma_repeated_hits(seeds: Seq<SeedTraceSummary>, times: nat, name: Seq<char>)
    ensures
        repeated(seeds, times).len() == times * seeds.len(),
        seed_hits(repeated(seeds, times), name) == times * seed_hits(seeds, name),
    decreases times,
{
    if times > 0 {
        let less = (times - 1) as nat;
        lemma_repeated_hits(seeds, less, name);
        lemma_hits_add(repeated(seeds, less), seeds, name);
        let (n, h) = (seeds.len(), seed_hits(seeds, name));
        assert(times * n == less * n + n) by (nonlinear_arith)
            requires
                times == less + 1,
        ;
        assert(times * h == less * h + h) by (nonlinear_arith)
            requires
                times == less + 1,
        ;
    } else {
        assert(times * seeds.len() == 0 && times * seed_hits(seeds, name) == 0) by (nonlinear_arith)
            requires
                times == 0,
        ;
    }
}

/// It does not matter for what is shared if every seed is there several times.
pub proof fn law_shared_ignores_repetition(
    seeds: Seq<SeedTraceSummary>,
    times: nat,
    coverage: Map<Seq<char>, FunctionCoverage>,
    root: Seq<char>,
    name: Seq<char>,
)
    requires
        times > 0,
    ensures
        is_shared(repeated(seeds, times), coverage, root, name) <==> is_shared(
            seeds,
            coverage,
            root,
            name,
        ),
{
    let (n, h) = (seeds.len() as int, seed_hits(seeds, name) as int);
    lemma_repeated_hits(seeds, times, name);
    lemma_seed_hits_bound(seeds, name);
    if n == 0 {
        assert(times * n == 0) by (nonlinear_arith)
            requires
                n == 0,
        ;
        assert(repeated(seeds, times) =~= seeds);
    } else {
        assert(times * n > 0) by (nonlinear_arith)
            requires
                times > 0,
                n > 0,
        ;
        assert((times * h > 0) == (h > 0)) by (nonlinear_arith)
            requires
                times > 0,
                h >= 0,
        ;
        assert((5 * (times * h) >= 4 * (times * n)) == (5 * h >= 4 * n)) by (nonlinear_arith)
            requires
                times > 0,
        ;
    }
}

/// A function stays shared when a seed comes that reaches it, and one that is not shared stays so
/// when a seed comes that does not reach it.
pub proof fn law_shared_follows_seeds(
    seeds: Seq<SeedTraceSummary>,
    seed: SeedTraceSummary,
    coverage: Map<Seq<char>, FunctionCoverage>,
    root: Seq<char>,
    name: Seq<char>,
)
    requires
        seeds.len() > 0,
    ensures
        seed.function_hits@.contains_key(name) && is_shared(seeds, coverage, root, name)
            ==> is_shared(seeds.push(seed), coverage, root, name),
        !seed.function_hits@.contains_key(name) && !is_shared(seeds, coverage, root, name)
            ==> !is_shared(seeds.push(seed), coverage, root, name),
{
    assert(seeds.push(seed).drop_last() =~= seeds);
}

/// Only functions of the project are shared, and the source of each is known.
pub proof fn law_shared_is_owned(
    seeds: Seq<SeedTraceSummary>,
    coverage: Map<Seq<char>, FunctionCoverage>,
    root: Seq<char>,
    name: Seq<char>,
)
    requires
        is_shared(seeds, coverage, root, name),
    ensures
        coverage.contains_key(name),
        coverage[name].file is Some,
        is_absolute_path(coverage[name].file->0@) ==> path_starts_with(
            coverage[name].file->0@,
            root,
        ),
{
}

/// Every function with a relative path, or a path below the root, is one of the project; no other is.
pub proof fn law_project_is_below_root(file: Seq<char>, root: Seq<char>)
    ensures
        !is_absolute_path(file) ==> partitionable(Some(file), root),
        is_absolute_path(file) ==> (partitionable(Some(file), root) <==> path_starts_with(
            file,
            root,
        )),
        !partitionable(None, root),
{
}

/// The main file, and all files in the two directories of the harness, are harness code; of the
/// other relative paths none is.
pub proof fn law_harness_is_shared(rest: Seq<char>, file: Seq<char>, root: Seq<char>)
    requires
        !is_absolute_path(file),
    ensures
        shared_source(Some("src/main.rs"@), root),
        shared_source(Some("fuzz/"@ + rest), root),
        shared_source(Some("fuzz_targets/"@ + rest), root),
        shared_source(Some(file), root) ==> file == "src/main.rs"@ || (file.len() >= 5 && file.take(5)
            == "fuzz/"@) || (file.len() >= 13 && file.take(13) == "fuzz_targets/"@),
        !shared_source(None, root),
{
    reveal_strlit("src/main.rs");
    reveal_strlit("fuzz/");
    reveal_strlit("fuzz_targets/");
    let (a, b) = ("fuzz/"@ + rest, "fuzz_targets/"@ + rest);
    assert(a.subrange(0, 5) =~= "fuzz/"@);
    assert(b.subrange(0, 13) =~= "fuzz_targets/"@);
    assert(!is_absolute_path(a) && !is_absolute_path(b) && !is_absolute_path("src/main.rs"@));
    if shared_source(Some(file), root) {
        if text_starts_with(file, "fuzz/"@) {
            assert(file.take(5) =~= file.subrange(0, 5));
        }
        if text_starts_with(file, "fuzz_targets/"@) {
            assert(file.take(13) =~= file.subrange(0, 13));
        }
    }
}

} // verus!
