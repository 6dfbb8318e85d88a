//! Reading the coverage of functions from an export of llvm-cov.

use crate::coverage::{source_of, FunctionCoverage};
use crate::ordered::SortedMap;
use crate::symbols::{demangle_name, demangled};
use crate::text::text_eq;
use crate::tree::{item_models, json_document, parse_json, table_model, Tree, TreeModel};
use vstd::prelude::*;

verus! {

/// The coverage of a function, with its file as a text.
#[verifier::ext_equal]
pub struct CoverageModel {
    pub count: u64,
    pub region_total: u64,
    pub region_covered: u64,
    pub line_total: u64,
    pub line_covered: u64,
    pub file: Option<Seq<char>>,
}

pub open spec fn coverage_model(c: FunctionCoverage) -> CoverageModel {
    CoverageModel {
        count: c.count,
        region_total: c.region_total,
        region_covered: c.region_covered,
        line_total: c.line_total,
        line_covered: c.line_covered,
        file: source_of(c),
    }
}

pub open spec fn number_or(n: Option<u64>, other: u64) -> u64 {
    match n {
        Some(n) => n,
        None => other,
    }
}

/// A region: the line it begins in, the line it ends in, and how often it was executed.
pub open spec fn region_of(t: TreeModel) -> Option<(u64, u64, u64)> {
    match t.items() {
        Some(items) => if items.len() < 5 {
            None
        } else {
            let start = number_or(items[0].number(), 0);
            let end = number_or(items[2].number(), start);
            Some((start, if end < start { start } else { end }, number_or(items[4].number(), 0)))
        },
        None => None,
    }
}

/// How many of the regions were executed at least `least` times.
pub open spec fn region_count(regions: Seq<TreeModel>, least: u64) -> nat
    decreases regions.len(),
{
    if regions.len() == 0 {
        0
    } else {
        region_count(regions.drop_last(), least) + (match region_of(regions.last()) {
            Some(r) if r.2 >= least => 1nat,
            _ => 0nat,
        })
    }
}

/// The lines of the regions that were executed at least `least` times.
pub open spec fn region_lines(regions: Seq<TreeModel>, least: u64) -> Set<u64> {
    Set::new(
        |line: u64|
            exists|i: int|
                0 <= i < regions.len() && #[trigger] spans_line(regions[i], least, line),
    )
}

/// Whether a region that was executed at least `least` times has that line.
pub open spec fn spans_line(region: TreeModel, least: u64, line: u64) -> bool {
    match region_of(region) {
        Some(r) => r.2 >= least && 0 < r.0 <= line <= r.1,
        None => false,
    }
}

/// The first file of a function.
pub open spec fn first_file(function: TreeModel) -> Option<Seq<char>> {
    let files = function.items_at("filenames"@);
    if files.len() == 0 {
        None
    } else {
        files[0].text()
    }
}

/// What an export says of a function.
pub open spec fn is_measure(function: TreeModel, m: CoverageModel) -> bool {
    let regions = function.items_at("regions"@);
    &&& m.count == number_or(function.number_at("count"@), 0)
    &&& m.region_total == region_count(regions, 0)
    &&& m.region_covered == region_count(regions, 1)
    &&& m.line_total == region_lines(regions, 0).len()
    &&& m.line_covered == region_lines(regions, 1).len()
    &&& m.file == first_file(function)
}

/// The name of a function, in the form in which functions are named everywhere.
pub open spec fn exported_name(function: TreeModel) -> Seq<char> {
    demangled(match function.text_at("name"@) {
        Some(name) => name,
        None => ""@,
    })
}

pub open spec fn greater(a: u64, b: u64) -> u64 {
    if a < b {
        b
    } else {
        a
    }
}

/// What is known of a function for which there are two measures.
pub open spec fn merged(a: CoverageModel, b: CoverageModel) -> CoverageModel {
    CoverageModel {
        count: greater(a.count, b.count),
        region_total: greater(a.region_total, b.region_total),
        region_covered: greater(a.region_covered, b.region_covered),
        line_total: greater(a.line_total, b.line_total),
        line_covered: greater(a.line_covered, b.line_covered),
        file: match a.file {
            Some(file) => Some(file),
            None => b.file,
        },
    }
}

pub open spec fn unmeasured() -> CoverageModel {
    CoverageModel {
        count: 0,
        region_total: 0,
        region_covered: 0,
        line_total: 0,
        line_covered: 0,
        file: None,
    }
}

/// The measure of a function.
pub open spec fn measure(function: TreeModel) -> CoverageModel {
    choose|m: CoverageModel| is_measure(function, m)
}

/// What the functions of an export say, by name. Functions without a name are left out.
pub open spec fn measured(functions: Seq<TreeModel>) -> Map<Seq<char>, CoverageModel>
    decreases functions.len(),
{
    if functions.len() == 0 {
        Map::empty()
    } else {
        let before = measured(functions.drop_last());
        let name = exported_name(functions.last());
        if name.len() == 0 {
            before
        } else {
            let known = if before.contains_key(name) {
                before[name]
            } else {
                unmeasured()
            };
            before.insert(name, merged(known, measure(functions.last())))
        }
    }
}

/// Whether each of the functions has a measure.
pub open spec fn all_measured(functions: Seq<TreeModel>) -> bool {
    forall|i: int|
        0 <= i < functions.len() ==> is_measure(#[trigger] functions[i], measure(functions[i]))
}

/// The functions of all parts of an export.
pub open spec fn exported_functions(parts: Seq<TreeModel>) -> Seq<TreeModel>
    decreases parts.len(),
{
    if parts.len() == 0 {
        Seq::empty()
    } else {
        exported_functions(parts.drop_last()) + parts.last().items_at("functions"@)
    }
}

/// Whether the map says what is given, by name.
pub open spec fn shows(
    coverage: Map<Seq<char>, FunctionCoverage>,
    model: Map<Seq<char>, CoverageModel>,
) -> bool {
    &&& forall|n: Seq<char>| #[trigger] coverage.contains_key(n) <==> model.contains_key(n)
    &&& forall|n: Seq<char>| #[trigger]
        coverage.contains_key(n) ==> coverage_model(coverage[n]) == model[n]
}

/// The name of a function as it stands in the source, without the hash of its crate.
pub fn normalize_coverage_function_name(raw_name: &str) -> (r: String)
    ensures
        r@ == demangled(raw_name@),
{
    demangle_name(raw_name)
}

fn number_or_else(n: Option<u64>, other: u64) -> (r: u64)
    ensures
        r == number_or(n, other),
{
    match n {
        Some(n) => n,
        None => other,
    }
}

fn read_region(region: &Tree) -> (r: Option<(u64, u64, u64)>)
    ensures
        r == region_of(region@),
{
    match region.as_list() {
        Some(items) => {
            if items.len() < 5 {
                return None;
            }
            assert(item_models(items@)[0] == items@[0]@);
            assert(item_models(items@)[2] == items@[2]@);
            assert(item_models(items@)[4] == items@[4]@);
            let start = number_or_else(items[0].as_u64(), 0);
            let end = number_or_else(items[2].as_u64(), start);
            let count = number_or_else(items[4].as_u64(), 0);
            Some((start, if end < start {
                start
            } else {
                end
            }, count))
        },
        None => None,
    }
}

/// A set of lines.
type LineSet = SortedMap<u64, ()>;

/// Whether the set holds these lines, and its size is their number.
spec fn holds_lines(set: LineSet, lines: Set<u64>) -> bool {
    &&& lines.finite()
    &&& set.seq().len() == lines.len()
    &&& forall|l: u64| #[trigger] set@.contains_key(l) <==> lines.contains(l)
}

fn add_lines(set: &mut LineSet, first: u64, last: u64, Ghost(lines): Ghost<Set<u64>>)
    requires
        first <= last,
        holds_lines(*old(set), lines),
    ensures
        holds_lines(
            *final(set),
            Set::new(|l: u64| lines.contains(l) || first <= l <= last),
        ),
{
    let mut line: u64 = first;
    let ghost mut now = lines;
    loop
        invariant
            first <= line <= last,
            holds_lines(*set, now),
            forall|l: u64| #[trigger] now.contains(l) <==> lines.contains(l) || first <= l < line,
        decreases last - line,
    {
        let ghost before = set@;
        set.insert(line, ());
        proof {
            let next = now.insert(line);
            assert forall|l: u64| #[trigger] set@.contains_key(l) <==> next.contains(l) by {
                assert(before.contains_key(l) <==> now.contains(l));
            }
            now = next;
        }
        if line == last {
            assert(now =~= Set::new(|l: u64| lines.contains(l) || first <= l <= last));
            return ;
        }
        line = line + 1;
    }
}

/// The size of the regions of a function: how many there are, how many were executed, how many
/// lines they have, and how many of these were executed.
fn measure_regions(regions: &[Tree]) -> (r: (u64, u64, u64, u64))
    ensures
        r.0 == region_count(item_models(regions@), 0),
        r.1 == region_count(item_models(regions@), 1),
        r.2 == region_lines(item_models(regions@), 0).len(),
        r.3 == region_lines(item_models(regions@), 1).len(),
{
    let ghost all = item_models(regions@);
    let n = regions.len();
    let mut total: u64 = 0;
    let mut covered: u64 = 0;
    let mut total_lines: LineSet = SortedMap::new();
    let mut covered_lines: LineSet = SortedMap::new();
    let mut i: usize = 0;
    proof {
        assert(region_lines(all.take(0), 0) =~= Set::empty());
        assert(region_lines(all.take(0), 1) =~= Set::empty());
    }
    while i < n
        invariant
            all == item_models(regions@),
            n == regions@.len(),
            i <= n,
            total <= i,
            covered <= i,
            total == region_count(all.take(i as int), 0),
            covered == region_count(all.take(i as int), 1),
            holds_lines(total_lines, region_lines(all.take(i as int), 0)),
            holds_lines(covered_lines, region_lines(all.take(i as int), 1)),
        decreases n - i,
    {
        let ghost less = all.take(i as int);
        let ghost more = all.take(i + 1);
        assert(more.drop_last() =~= less);
        assert(all[i as int] == regions@[i as int]@);
        let region = read_region(&regions[i]);
        proof {
            lemma_more_lines(all, i as int, 0);
            lemma_more_lines(all, i as int, 1);
        }
        i = i + 1;
        if let Some((start, end, count)) = region {
            total = total + 1;
            if count > 0 {
                covered = covered + 1;
            }
            if start > 0 {
                add_lines(&mut total_lines, start, end, Ghost(region_lines(less, 0)));
                proof {
                    assert(region_lines(more, 0) =~= Set::new(
                        |l: u64| region_lines(less, 0).contains(l) || start <= l <= end,
                    ));
                }
                if count > 0 {
                    add_lines(&mut covered_lines, start, end, Ghost(region_lines(less, 1)));
                    proof {
                        assert(region_lines(more, 1) =~= Set::new(
                            |l: u64| region_lines(less, 1).contains(l) || start <= l <= end,
                        ));
                    }
                } else {
                    assert(region_lines(more, 1) =~= region_lines(less, 1));
                }
            } else {
                assert(region_lines(more, 0) =~= region_lines(less, 0));
                assert(region_lines(more, 1) =~= region_lines(less, 1));
            }
        } else {
            assert(region_lines(more, 0) =~= region_lines(less, 0));
            assert(region_lines(more, 1) =~= region_lines(less, 1));
        }
    }
    assert(all.take(n as int) =~= all);
    (total, covered, total_lines.len() as u64, covered_lines.len() as u64)
}

proof fn lemma_more_lines(all: Seq<TreeModel>, i: int, least: u64)
    requires
        0 <= i < all.len(),
    ensures
        forall|l: u64| #[trigger]
            region_lines(all.take(i + 1), least).contains(l) <==> region_lines(
                all.take(i),
                least,
            ).contains(l) || spans_line(all[i], least, l),
{
    let less = all.take(i);
    let more = all.take(i + 1);
    assert forall|l: u64| #[trigger]
        region_lines(more, least).contains(l) <==> region_lines(less, least).contains(l)
            || spans_line(all[i], least, l) by {
        if region_lines(more, least).contains(l) {
            let k = choose|k: int|
                0 <= k < more.len() && #[trigger] spans_line(more[k], least, l);
            if k < i {
                assert(spans_line(less[k], least, l));
            }
        }
        if region_lines(less, least).contains(l) {
            let k = choose|k: int|
                0 <= k < less.len() && #[trigger] spans_line(less[k], least, l);
            assert(spans_line(more[k], least, l));
        }
        if spans_line(all[i], least, l) {
            assert(spans_line(more[i], least, l));
        }
    }
}

/// What an export says of a function.
fn measure_function(function: &Tree) -> (r: FunctionCoverage)
    ensures
        is_measure(function@, coverage_model(r)),
{
    let count = number_or_else(function.number_at("count"), 0);
    let file: Option<String> = match function.items_at("filenames") {
        Some(files) => if files.len() > 0 {
            assert(item_models(files@)[0] == files@[0]@);
            match files[0].as_str() {
                Some(file) => Some(file.to_owned()),
                None => None,
            }
        } else {
            None
        },
        None => None,
    };
    let (region_total, region_covered, line_total, line_covered) = match function.items_at(
        "regions",
    ) {
        Some(regions) => measure_regions(regions),
        None => {
            proof {
                let none = function@.items_at("regions"@);
                assert(region_lines(none, 0) =~= Set::empty());
                assert(region_lines(none, 1) =~= Set::empty());
            }
            (0, 0, 0, 0)
        },
    };
    FunctionCoverage { count, region_total, region_covered, line_total, line_covered, file }
}

fn max_of(a: u64, b: u64) -> (r: u64)
    ensures
        r == greater(a, b),
{
    if a < b {
        b
    } else {
        a
    }
}

/// Adds what an export says of one more function.
fn add_function(
    coverage: &mut SortedMap<String, FunctionCoverage>,
    function: &Tree,
    Ghost(functions): Ghost<Seq<TreeModel>>,
)
    requires
        shows(old(coverage)@, measured(functions)),
    ensures
        shows(final(coverage)@, measured(functions.push(function@))),
        is_measure(function@, measure(function@)),
{
    proof {
        lemma_regions_fit(*function);
        lemma_measure_exists(function@);
    }
    let ghost more = functions.push(function@);
    assert(more.drop_last() =~= functions);
    let ghost before = coverage@;
    let name = match function.text_at("name") {
        Some(raw) => normalize_coverage_function_name(raw),
        None => normalize_coverage_function_name(""),
    };
    assert(name@ == exported_name(function@));
    if text_eq(name.as_str(), "") {
        proof {
            reveal_strlit("");
        }
        return ;
    }
    assert(name@.len() > 0) by {
        reveal_strlit("");
        if name@.len() == 0 {
            assert(name@ =~= ""@);
        }
    }
    let found = measure_function(function);
    proof {
        lemma_measure_unique(function@, coverage_model(found));
    }
    let entry = match coverage.get(&name) {
        Some(known) => FunctionCoverage {
            count: max_of(known.count, found.count),
            region_total: max_of(known.region_total, found.region_total),
            region_covered: max_of(known.region_covered, found.region_covered),
            line_total: max_of(known.line_total, found.line_total),
            line_covered: max_of(known.line_covered, found.line_covered),
            file: match &known.file {
                Some(file) => Some(file.clone()),
                None => found.file,
            },
        },
        None => found,
    };
    assert(before.contains_key(name@) <==> measured(functions).contains_key(name@));
    let ghost key = name@;
    coverage.insert(name, entry);
    proof {
        let model = measured(more);
        let known = measured(functions);
        assert(coverage_model(coverage@[key]) == model[key]);
        assert forall|n: Seq<char>| #[trigger] coverage@.contains_key(n) <==> model.contains_key(
            n,
        ) by {
            assert(before.contains_key(n) <==> known.contains_key(n));
        }
        assert forall|n: Seq<char>| #[trigger] coverage@.contains_key(n) implies coverage_model(
            coverage@[n],
        ) == model[n] by {
            assert(before.contains_key(n) <==> known.contains_key(n));
        }
    }
}

proof fn lemma_entries_fit(entries: Seq<(String, Tree)>, n: nat, key: Seq<char>)
    ensures
        table_model(entries, n).contains_key(key) ==> (table_model(entries, n)[key].items() matches Some(
            items,
        ) ==> items.len() <= u64::MAX),
    decreases n,
{
    if 0 < n <= entries.len() {
        lemma_entries_fit(entries, (n - 1) as nat, key);
        let last = entries[n - 1].1;
        if last is List {
            assert(last@.items()->0.len() == last->List_0.len());
        }
    }
}

/// A list is never longer than a number of 64 bits can say.
proof fn lemma_regions_fit(function: Tree)
    ensures
        function@.items_at("regions"@).len() <= u64::MAX,
{
    if function is Table {
        let entries = function->Table_0@;
        lemma_entries_fit(entries, entries.len(), "regions"@);
    }
}

proof fn lemma_region_count(regions: Seq<TreeModel>, least: u64)
    ensures
        region_count(regions, least) <= regions.len(),
    decreases regions.len(),
{
    if regions.len() > 0 {
        lemma_region_count(regions.drop_last(), least);
    }
}

/// No more lines are there than a number of 64 bits can say.
proof fn lemma_line_count(regions: Seq<TreeModel>, least: u64)
    ensures
        region_lines(regions, least).len() <= u64::MAX,
{
    let lines = region_lines(regions, least);
    let range = Set::new(|l: u64| 1 <= l <= u64::MAX);
    lemma_range_finite(1, u64::MAX);
    assert(lines.subset_of(range));
    vstd::set_lib::lemma_len_subset(lines, range);
}

/// There is a measure of every function.
proof fn lemma_measure_exists(function: TreeModel)
    requires
        function.items_at("regions"@).len() <= u64::MAX,
    ensures
        is_measure(function, measure(function)),
{
    let regions = function.items_at("regions"@);
    lemma_region_count(regions, 0);
    lemma_region_count(regions, 1);
    lemma_line_count(regions, 0);
    lemma_line_count(regions, 1);
    let m = CoverageModel {
        count: number_or(function.number_at("count"@), 0),
        region_total: region_count(regions, 0) as u64,
        region_covered: region_count(regions, 1) as u64,
        line_total: region_lines(regions, 0).len() as u64,
        line_covered: region_lines(regions, 1).len() as u64,
        file: first_file(function),
    };
    assert(is_measure(function, m));
}

/// There is one measure of a function.
proof fn lemma_measure_unique(function: TreeModel, m: CoverageModel)
    requires
        is_measure(function, m),
    ensures
        measure(function) == m,
{
    let other = measure(function);
    assert(is_measure(function, other));
    assert(other =~= m);
}

/// The coverage of the functions of an export.
pub fn coverage_of_export(export: &Tree) -> (r: SortedMap<String, FunctionCoverage>)
    ensures
        shows(r@, measured(exported_functions(export@.items_at("data"@)))),
        all_measured(exported_functions(export@.items_at("data"@))),
{
    let mut coverage: SortedMap<String, FunctionCoverage> = SortedMap::new();
    let ghost parts = export@.items_at("data"@);
    if let Some(data) = export.items_at("data") {
        let n = data.len();
        let mut i: usize = 0;
        assert(parts.take(0).len() == 0);
        while i < n
            invariant
                parts == item_models(data@),
                n == data@.len(),
                i <= n,
                shows(coverage@, measured(exported_functions(parts.take(i as int)))),
                all_measured(exported_functions(parts.take(i as int))),
            decreases n - i,
        {
            let ghost before = exported_functions(parts.take(i as int));
            assert(parts.take(i + 1).drop_last() =~= parts.take(i as int));
            assert(parts[i as int] == data@[i as int]@);
            let ghost here = parts[i as int].items_at("functions"@);
            if let Some(functions) = data[i].items_at("functions") {
                let m = functions.len();
                let mut j: usize = 0;
                assert(before + here.take(0) =~= before);
                while j < m
                    invariant
                        here == item_models(functions@),
                        m == functions@.len(),
                        j <= m,
                        shows(coverage@, measured(before + here.take(j as int))),
                        all_measured(before + here.take(j as int)),
                    decreases m - j,
                {
                    assert(here[j as int] == functions@[j as int]@);
                    add_function(
                        &mut coverage,
                        &functions[j],
                        Ghost(before + here.take(j as int)),
                    );
                    assert((before + here.take(j as int)).push(here[j as int]) =~= before
                        + here.take(j + 1));
                    j = j + 1;
                }
                assert(here.take(m as int) =~= here);
            } else {
                assert(before + here =~= before);
            }
            i = i + 1;
        }
        assert(parts.take(n as int) =~= parts);
    } else {
        assert(parts =~= Seq::empty());
    }
    coverage
}

/// Why an export could not be read.
#[derive(Clone, Copy, Debug, PartialEq, Eq, Structural)]
pub enum ExportError {
    /// It is no JSON document.
    NotJson,
}

impl ExportError {
    pub fn message(self) -> (r: &'static str)
        ensures
            r@ == "failed to parse llvm-cov JSON"@,
    {
        "failed to parse llvm-cov JSON"
    }
}

/// The coverage of functions, from what `llvm-cov export` writes.
pub fn parse_llvm_cov_export(bytes: &[u8]) -> (r: Result<
    SortedMap<String, FunctionCoverage>,
    ExportError,
>)
    ensures
        r is Err <==> json_document(bytes@) is None,
        r is Ok ==> shows(
            r->Ok_0@,
            measured(exported_functions(json_document(bytes@)->0.items_at("data"@))),
        ),
        r is Ok ==> all_measured(exported_functions(json_document(bytes@)->0.items_at("data"@))),
{
    match parse_json(bytes) {
        Some(export) => Ok(coverage_of_export(&export)),
        None => Err(ExportError::NotJson),
    }
}

/// Whether no more is covered than there is.
pub open spec fn is_within(m: CoverageModel) -> bool {
    m.region_covered <= m.region_total && m.line_covered <= m.line_total
}

proof fn lemma_fewer_regions(regions: Seq<TreeModel>)
    ensures
        region_count(regions, 1) <= region_count(regions, 0),
    decreases regions.len(),
{
    if regions.len() > 0 {
        lemma_fewer_regions(regions.drop_last());
    }
}

proof fn lemma_range_finite(first: u64, last: u64)
    ensures
        Set::new(|l: u64| first <= l <= last).finite(),
        first <= last ==> Set::new(|l: u64| first <= l <= last).len() == last - first + 1,
    decreases last - first + 1,
{
    let range = Set::new(|l: u64| first <= l <= last);
    if first > last {
        assert(range =~= Set::empty());
    } else if first == last {
        assert(range =~= Set::empty().insert(last));
    } else {
        let shorter = (last - 1) as u64;
        lemma_range_finite(first, shorter);
        assert(range =~= Set::new(|l: u64| first <= l <= shorter).insert(last));
    }
}

proof fn lemma_lines_finite(regions: Seq<TreeModel>, least: u64)
    ensures
        region_lines(regions, least).finite(),
    decreases regions.len(),
{
    let lines = region_lines(regions, least);
    if regions.len() == 0 {
        assert(lines =~= Set::empty());
    } else {
        let n = regions.len() - 1;
        lemma_lines_finite(regions.take(n), least);
        lemma_more_lines(regions, n, least);
        assert(regions.take(n + 1) =~= regions);
        match region_of(regions[n]) {
            Some(r) => {
                lemma_range_finite(r.0, r.1);
                let range = Set::new(|l: u64| r.0 <= l <= r.1);
                assert(lines.subset_of(region_lines(regions.take(n), least).union(range)));
                vstd::set_lib::lemma_set_subset_finite(
                    region_lines(regions.take(n), least).union(range),
                    lines,
                );
            },
            None => {
                assert(lines =~= region_lines(regions.take(n), least));
            },
        }
    }
}

/// Of no function more regions or lines are covered than there are.
pub proof fn law_covered_is_within_total(function: TreeModel, m: CoverageModel)
    requires
        is_measure(function, m),
    ensures
        is_within(m),
{
    let regions = function.items_at("regions"@);
    lemma_fewer_regions(regions);
    lemma_lines_finite(regions, 0);
    assert forall|l: u64| region_lines(regions, 1).contains(l) implies region_lines(
        regions,
        0,
    ).contains(l) by {
        let i = choose|i: int| 0 <= i < regions.len() && #[trigger] spans_line(regions[i], 1, l);
        assert(spans_line(regions[i], 0, l));
    }
    vstd::set_lib::lemma_len_subset(region_lines(regions, 1), region_lines(regions, 0));
}

/// Of no function of an export more regions or lines are covered than there are, whatever the parts
/// of the export say of it.
pub proof fn law_coverage_is_within_total(functions: Seq<TreeModel>, name: Seq<char>)
    requires
        all_measured(functions),
        measured(functions).contains_key(name),
    ensures
        is_within(measured(functions)[name]),
    decreases functions.len(),
{
    if functions.len() > 0 {
        let last = functions.last();
        assert(is_measure(functions[functions.len() - 1], measure(last)));
        law_covered_is_within_total(last, measure(last));
        let before = functions.drop_last();
        assert forall|i: int| 0 <= i < before.len() implies is_measure(
            #[trigger] before[i],
            measure(before[i]),
        ) by {
            assert(before[i] == functions[i]);
        }
        if measured(before).contains_key(name) {
            law_coverage_is_within_total(before, name);
        }
    }
}

/// Whether one of the functions of an export has that name.
pub open spec fn is_exported(functions: Seq<TreeModel>, name: Seq<char>) -> bool {
    exists|i: int| 0 <= i < functions.len() && exported_name(#[trigger] functions[i]) == name
}

/// A function is known if and only if an entry of the export has its name, and it has one.
pub proof fn law_every_named_function_is_known(functions: Seq<TreeModel>, name: Seq<char>)
    ensures
        measured(functions).contains_key(name) <==> name.len() > 0 && is_exported(functions, name),
    decreases functions.len(),
{
    if functions.len() > 0 {
        let less = functions.drop_last();
        law_every_named_function_is_known(less, name);
        if is_exported(less, name) {
            let i = choose|i: int| 0 <= i < less.len() && exported_name(#[trigger] less[i]) == name;
            assert(exported_name(functions[i]) == name);
        }
        if is_exported(functions, name) {
            let i = choose|i: int|
                0 <= i < functions.len() && exported_name(#[trigger] functions[i]) == name;
            if i < less.len() {
                assert(exported_name(less[i]) == name);
            }
        }
        if exported_name(functions.last()) == name {
            assert(exported_name(functions[functions.len() - 1]) == name);
        }
    }
}

/// Whether no number of `a` is greater than that of `b`.
pub open spec fn is_no_more(a: CoverageModel, b: CoverageModel) -> bool {
    &&& a.count <= b.count
    &&& a.region_total <= b.region_total
    &&& a.region_covered <= b.region_covered
    &&& a.line_total <= b.line_total
    &&& a.line_covered <= b.line_covered
}

/// Of a function with several entries in an export the greatest numbers count: none is less than
/// that of any entry, and each is that of some entry.
pub proof fn law_greatest_entry_counts(functions: Seq<TreeModel>, name: Seq<char>)
    requires
        measured(functions).contains_key(name),
    ensures
        ({
            let m = measured(functions)[name];
            &&& forall|i: int|
                0 <= i < functions.len() && exported_name(#[trigger] functions[i]) == name
                    ==> is_no_more(measure(functions[i]), m)
            &&& exists|i: int|
                0 <= i < functions.len() && exported_name(#[trigger] functions[i]) == name
                    && measure(functions[i]).count == m.count
            &&& exists|i: int|
                0 <= i < functions.len() && exported_name(#[trigger] functions[i]) == name
                    && measure(functions[i]).region_total == m.region_total
            &&& exists|i: int|
                0 <= i < functions.len() && exported_name(#[trigger] functions[i]) == name
                    && measure(functions[i]).region_covered == m.region_covered
            &&& exists|i: int|
                0 <= i < functions.len() && exported_name(#[trigger] functions[i]) == name
                    && measure(functions[i]).line_total == m.line_total
            &&& exists|i: int|
                0 <= i < functions.len() && exported_name(#[trigger] functions[i]) == name
                    && measure(functions[i]).line_covered == m.line_covered
        }),
    decreases functions.len(),
{
    if functions.len() > 0 {
        let last = functions.len() - 1;
        let less = functions.drop_last();
        let m = measured(functions)[name];
        law_every_named_function_is_known(functions, name);
        if measured(less).contains_key(name) {
            law_greatest_entry_counts(less, name);
            let k = measured(less)[name];
            let a = choose|i: int|
                0 <= i < less.len() && exported_name(#[trigger] less[i]) == name && measure(
                    less[i],
                ).count == k.count;
            let b = choose|i: int|
                0 <= i < less.len() && exported_name(#[trigger] less[i]) == name && measure(
                    less[i],
                ).region_total == k.region_total;
            let c = choose|i: int|
                0 <= i < less.len() && exported_name(#[trigger] less[i]) == name && measure(
                    less[i],
                ).region_covered == k.region_covered;
            let d = choose|i: int|
                0 <= i < less.len() && exported_name(#[trigger] less[i]) == name && measure(
                    less[i],
                ).line_total == k.line_total;
            let e = choose|i: int|
                0 <= i < less.len() && exported_name(#[trigger] less[i]) == name && measure(
                    less[i],
                ).line_covered == k.line_covered;
            assert(functions[a] == less[a] && functions[b] == less[b] && functions[c] == less[c]);
            assert(functions[d] == less[d] && functions[e] == less[e]);
        }
        assert forall|i: int|
            0 <= i < functions.len() && exported_name(
                #[trigger] functions[i],
            ) == name implies is_no_more(measure(functions[i]), m) by {
            if i < last {
                assert(less[i] == functions[i]);
                assert(is_exported(less, name));
                law_every_named_function_is_known(less, name);
                assert(is_no_more(measure(less[i]), measured(less)[name]));
            }
        }
        if exported_name(functions[last]) != name {
            assert(m == measured(less)[name]);
        }
    }
}

proof fn lemma_no_less(a: Seq<TreeModel>, b: Seq<TreeModel>, name: Seq<char>)
    requires
        forall|f: TreeModel| #[trigger] a.contains(f) ==> b.contains(f),
        measured(a).contains_key(name),
    ensures
        measured(b).contains_key(name),
        is_no_more(measured(a)[name], measured(b)[name]),
{
    law_every_named_function_is_known(a, name);
    law_every_named_function_is_known(b, name);
    assert forall|i: int| 0 <= i < a.len() && exported_name(#[trigger] a[i]) == name implies exists|
        j: int,
    |
        0 <= j < b.len() && #[trigger] b[j] == a[i] by {
        assert(a.contains(a[i]));
    }
    let i = choose|i: int| 0 <= i < a.len() && exported_name(#[trigger] a[i]) == name;
    let j = choose|j: int| 0 <= j < b.len() && #[trigger] b[j] == a[i];
    assert(exported_name(b[j]) == name);
    law_greatest_entry_counts(a, name);
    law_greatest_entry_counts(b, name);
}

/// Neither the order of the entries of an export nor how often an entry stands there matters to the
/// numbers of a function.
pub proof fn law_order_of_entries_is_free(a: Seq<TreeModel>, b: Seq<TreeModel>, name: Seq<char>)
    requires
        forall|f: TreeModel| #[trigger] a.contains(f) <==> b.contains(f),
    ensures
        measured(a).contains_key(name) <==> measured(b).contains_key(name),
        measured(a).contains_key(name) ==> {
            &&& measured(a)[name].count == measured(b)[name].count
            &&& measured(a)[name].region_total == measured(b)[name].region_total
            &&& measured(a)[name].region_covered == measured(b)[name].region_covered
            &&& measured(a)[name].line_total == measured(b)[name].line_total
            &&& measured(a)[name].line_covered == measured(b)[name].line_covered
        },
{
    if measured(a).contains_key(name) {
        lemma_no_less(a, b, name);
    }
    if measured(b).contains_key(name) {
        lemma_no_less(b, a, name);
    }
}

/// Of the files of a function with several entries the first that is known counts.
pub proof fn law_first_file_counts(functions: Seq<TreeModel>, name: Seq<char>, i: int)
    requires
        all_measured(functions),
        0 <= i < functions.len(),
        exported_name(functions[i]) == name,
        name.len() > 0,
        first_file(functions[i]) is Some,
        forall|k: int|
            0 <= k < i && exported_name(#[trigger] functions[k]) == name ==> first_file(
                functions[k],
            ) is None,
    ensures
        measured(functions).contains_key(name),
        measured(functions)[name].file == first_file(functions[i]),
    decreases functions.len(),
{
    let less = functions.drop_last();
    let last = functions.len() - 1;
    assert(is_measure(functions[last], measure(functions[last])));
    if i < last {
        assert(all_measured(less)) by {
            assert forall|k: int| 0 <= k < less.len() implies is_measure(
                #[trigger] less[k],
                measure(less[k]),
            ) by {
                assert(less[k] == functions[k]);
            }
        }
        assert forall|k: int| 0 <= k < i && exported_name(#[trigger] less[k]) == name implies
            first_file(less[k]) is None by {
            assert(less[k] == functions[k]);
        }
        law_first_file_counts(less, name, i);
    } else if measured(less).contains_key(name) {
        lemma_no_file(less, name);
    }
}

proof fn lemma_no_file(functions: Seq<TreeModel>, name: Seq<char>)
    requires
        forall|k: int|
            0 <= k < functions.len() && exported_name(#[trigger] functions[k]) == name
                ==> is_measure(functions[k], measure(functions[k])) && first_file(functions[k])
                is None,
        measured(functions).contains_key(name),
    ensures
        measured(functions)[name].file is None,
    decreases functions.len(),
{
    if functions.len() > 0 {
        let less = functions.drop_last();
        assert(functions[functions.len() - 1] == functions.last());
        assert forall|k: int|
            0 <= k < less.len() && exported_name(#[trigger] less[k]) == name implies is_measure(
            less[k],
            measure(less[k]),
        ) && first_file(less[k]) is None by {
            assert(less[k] == functions[k]);
        }
        if measured(less).contains_key(name) {
            lemma_no_file(less, name);
        }
    }
}

/// Whether an entry is a region: a list of at least five values.
pub open spec fn is_region(t: TreeModel) -> bool {
    t.items() is Some && t.items()->0.len() >= 5
}

/// Whether an entry is a region that was executed: its fifth value is a number, and not 0.
pub open spec fn is_executed_region(t: TreeModel) -> bool {
    is_region(t) && t.items()->0[4].number() is Some && t.items()->0[4].number()->0 > 0
}

/// Whether a region has a line: it begins in the line that its first value says, and ends in the line
/// that its third value says, or in that in which it begins.
pub open spec fn has_line(t: TreeModel, line: u64) -> bool {
    let items = t.items()->0;
    &&& is_region(t)
    &&& items[0].number() matches Some(start) && 0 < start <= line && (line == start || (
    items[2].number() matches Some(end) && line <= end))
}

proof fn lemma_region_filter(regions: Seq<TreeModel>)
    ensures
        region_count(regions, 0) == regions.filter(|t: TreeModel| is_region(t)).len(),
        region_count(regions, 1) == regions.filter(|t: TreeModel| is_executed_region(t)).len(),
    decreases regions.len(),
{
    reveal(Seq::filter);
    if regions.len() > 0 {
        lemma_region_filter(regions.drop_last());
    }
}

/// The numbers of a function are what its entry lists: its regions and those that were executed,
/// each counted once, and the lines of these, each counted once.
pub proof fn law_measure_counts_regions(function: TreeModel, m: CoverageModel)
    requires
        is_measure(function, m),
    ensures
        ({
            let regions = function.items_at("regions"@);
            &&& m.count == (match function.number_at("count"@) {
                Some(n) => n,
                None => 0,
            })
            &&& m.region_total == regions.filter(|t: TreeModel| is_region(t)).len()
            &&& m.region_covered == regions.filter(|t: TreeModel| is_executed_region(t)).len()
            &&& m.line_total == Set::new(
                |line: u64| exists|i: int| 0 <= i < regions.len() && has_line(#[trigger] regions[i], line),
            ).len()
            &&& m.line_covered == Set::new(
                |line: u64|
                    exists|i: int|
                        0 <= i < regions.len() && is_executed_region(#[trigger] regions[i])
                            && has_line(regions[i], line),
            ).len()
        }),
{
    let regions = function.items_at("regions"@);
    lemma_region_filter(regions);
    let all = Set::new(
        |line: u64| exists|i: int| 0 <= i < regions.len() && has_line(#[trigger] regions[i], line),
    );
    let some = Set::new(
        |line: u64|
            exists|i: int|
                0 <= i < regions.len() && is_executed_region(#[trigger] regions[i]) && has_line(
                    regions[i],
                    line,
                ),
    );
    assert forall|line: u64| #[trigger] region_lines(regions, 0).contains(line) <==> all.contains(
        line,
    ) by {
        if region_lines(regions, 0).contains(line) {
            let i = choose|i: int|
                0 <= i < regions.len() && #[trigger] spans_line(regions[i], 0, line);
            assert(has_line(regions[i], line));
        }
        if all.contains(line) {
            let i = choose|i: int| 0 <= i < regions.len() && has_line(#[trigger] regions[i], line);
            assert(spans_line(regions[i], 0, line));
        }
    }
    assert(region_lines(regions, 0) =~= all);
    assert forall|line: u64| #[trigger] region_lines(regions, 1).contains(line) <==> some.contains(
        line,
    ) by {
        if region_lines(regions, 1).contains(line) {
            let i = choose|i: int|
                0 <= i < regions.len() && #[trigger] spans_line(regions[i], 1, line);
            assert(has_line(regions[i], line));
            assert(is_executed_region(regions[i]));
        }
        if some.contains(line) {
            let i = choose|i: int|
                0 <= i < regions.len() && is_executed_region(#[trigger] regions[i]) && has_line(
                    regions[i],
                    line,
                );
            assert(spans_line(regions[i], 1, line));
        }
    }
    assert(region_lines(regions, 1) =~= some);
}

/// Every function of every part of an export is there.
pub proof fn law_every_part_counts(parts: Seq<TreeModel>, p: int, i: int)
    requires
        0 <= p < parts.len(),
        0 <= i < parts[p].items_at("functions"@).len(),
    ensures
        exported_functions(parts).contains(parts[p].items_at("functions"@)[i]),
    decreases parts.len(),
{
    let f = parts[p].items_at("functions"@)[i];
    let less = exported_functions(parts.drop_last());
    let more = parts.last().items_at("functions"@);
    if p == parts.len() - 1 {
        assert((less + more)[less.len() + i] == f);
    } else {
        law_every_part_counts(parts.drop_last(), p, i);
        let k = less.index_of(f);
        assert((less + more)[k] == f);
    }
}

/// A function goes by its name in readable form; one without a name has that of none. Its file is the
/// first that its entry names.
pub proof fn law_entry_names_function(function: TreeModel, name: Seq<char>, files: Seq<TreeModel>)
    ensures
        function.text_at("name"@) == Some(name) ==> exported_name(function) == demangled(name),
        function.text_at("name"@) is None ==> exported_name(function) == demangled(""@),
        function.items_at("filenames"@) == files && files.len() > 0 ==> first_file(function)
            == files[0].text(),
        function.items_at("filenames"@).len() == 0 ==> first_file(function) is None,
{
}

} // verus!
