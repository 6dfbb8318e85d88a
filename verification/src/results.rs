//! What holds of the results of single functions, and how those of several go together.

use crate::command::{cargo_model, rustflags, CommandLine, Compiler, Environment};
use crate::coverage::{
    function_seed_hits, is_owned, law_hits_count_seeds, law_shared_by_most_seeds, law_shared_ignores_repetition, reaching, repeated,
    shared_functions, shared_source, source_of, FunctionCoverage,
};
use crate::flags::{
    law_no_sanitizer_is_asked_for, law_sanitizer_is_asked_for, law_sanitizers_differ,
};
use crate::llvm_cov::{
    coverage_model, coverage_of_export, exported_functions, exported_name, is_executed_region,
    is_exported, is_measure, is_no_more, is_region, law_every_named_function_is_known,
    law_greatest_entry_counts, law_measure_counts_regions, measure, measured,
};
use crate::manifest::bin_names;
use crate::mutfuzz::disassemble::{
    code_ranges, find_jumps, function_name, is_included, jump_opcode_name, section_views,
    symbol_views, with_symbols, DisassemblyResult, SectionInfo, SymbolInfo,
};
use crate::mutfuzz::found::{
    code_at, condition_names, is_function_at, is_jump_at, is_jump_in, is_lowered,
    law_every_condition_has_a_name, law_every_jump_is_found, law_nothing_else_has_a_name,
    law_only_jumps_are_found,
};
use crate::mutfuzz::mutate::{
    create_mutant, is_mutation, is_near_jump, is_short_cond_jump, law_mutant_keeps_size, near_flip,
    patched, patched_all, short_flip, MutationRecord, Visited,
};
use crate::mutfuzz::orchestrator::{
    check_platform, get_fuzz_bin_path, is_overdue, mutant_command, normal_command,
};
use crate::options::{BuildMode, BuildOptions, MutFuzz, Partitioner, Sanitizer};
use crate::partition_files::empty_plan;
use crate::ordered::{NameSet, SortedMap};
use crate::paths::{extended, joined, path_ends_with};
use crate::pieces::{is_trimmed, law_trimmed_is_unique};
use crate::placement::{partition_for_hash, PartitionPlan};
use crate::project::{find_binary, is_package, latest_artifact, FuzzProject, ProjectError};
use crate::replay::{
    callgraph_model, coverage_cmd_with_dir, coverage_cmd_with_files, edge_file, export_command, llvm_cov_tool,
    llvm_tool, merge_command, replay_command, replay_workers, toolchain_bin,
};
use crate::sums::{law_tally_is_the_sum, sum_of};
use crate::tally::firsts;
use crate::tasks::{call_lists, lists, FunctionEdges, NameLists};
use crate::text::{decimal, text_contains, text_lt, texts};
use crate::trace::{
    artifact_stem, edge_items, law_stems_differ, parse_edge_file, pc_items, seed_jobs,
    EdgeFileError, GuardEdges, GuardTable, SeedReplayJob, SeedTraceSummary,
};
use crate::tree::{json_document, Tree, TreeModel};
use rand::rngs::StdRng;
use vstd::prelude::*;

verus! {

/// There is always one to replay seeds; there are no more than asked for and no more than seeds, and
/// no fewer than both allow.
pub proof fn law_replay_workers(jobs: u16, seeds: usize, r: usize)
    requires
        call_ensures(replay_workers, (jobs, seeds), r),
    ensures
        r >= 1,
        jobs > 0 ==> r <= jobs,
        seeds > 0 ==> r <= seeds,
        jobs > 0 && seeds > 0 ==> r == jobs || r == seeds,
        jobs == 0 || seeds == 0 ==> r == 1,
{
}

/// A run is overdue once ten seconds have passed since its time was over, and not before.
pub proof fn law_run_is_overdue(elapsed_ns: u128, max_time: u64, r: bool)
    requires
        max_time + 10 <= u64::MAX,
        call_ensures(is_overdue, (elapsed_ns, max_time), r),
    ensures
        elapsed_ns > 1_000_000_000 * max_time + 10_000_000_000 ==> r,
        elapsed_ns <= 1_000_000_000 * max_time + 10_000_000_000 ==> !r,
{
}

/// The fuzzer gets what was given to it, then the corpus, and a number of jobs if that is not one.
pub proof fn law_fuzz_command(
    project: &FuzzProject,
    build: &BuildOptions,
    target: &str,
    corpus: &[String],
    args: &[String],
    jobs: u16,
    compiler: &Compiler,
    env: &Environment,
    r: CommandLine,
)
    requires
        call_ensures(
            FuzzProject::fuzz_command,
            (project, build, target, corpus, args, jobs, compiler, env),
            r,
        ),
    ensures
        ({
            let run = project.run_model(*build, target@, *compiler, *env);
            let dirs = if corpus@.len() == 0 {
                seq![joined(joined(project.dir(), "corpus"@), target@)]
            } else {
                texts(corpus@)
            };
            let all = run.args + texts(args@) + dirs;
            &&& r@.program == run.program
            &&& r@.env == run.env
            &&& jobs == 1 ==> r@.args == all
            &&& jobs != 1 ==> r@.args == all.push("-fork="@ + decimal(jobs as nat))
        }),
{
    let run = project.run_model(*build, target@, *compiler, *env);
    let dirs = if corpus@.len() == 0 {
        seq![joined(joined(project.dir(), "corpus"@), target@)]
    } else {
        texts(corpus@)
    };
    let all = run.args + texts(args@) + dirs;
    if jobs == 1 {
        assert(r@.args =~= all);
    } else {
        assert(r@.args =~= all.push("-fork="@ + decimal(jobs as nat)));
    }
}

/// To make a test case smaller, the fuzzer gets how often to try, the test case, and what was given.
pub proof fn law_tmin_command(
    project: &FuzzProject,
    build: &BuildOptions,
    target: &str,
    runs: u32,
    test_case: &str,
    args: &[String],
    compiler: &Compiler,
    env: &Environment,
    r: CommandLine,
)
    requires
        call_ensures(
            FuzzProject::tmin_command,
            (project, build, target, runs, test_case, args, compiler, env),
            r,
        ),
    ensures
        ({
            let run = project.run_model(*build, target@, *compiler, *env);
            &&& r@.program == run.program
            &&& r@.env == run.env
            &&& r@.args == run.args + seq![
                "-minimize_crash=1"@,
                "-runs="@ + decimal(runs as nat),
                test_case@,
            ] + texts(args@)
        }),
{
    let run = project.run_model(*build, target@, *compiler, *env);
    assert(r@.args =~= run.args + seq![
        "-minimize_crash=1"@,
        "-runs="@ + decimal(runs as nat),
        test_case@,
    ] + texts(args@));
}

/// To make a corpus smaller, the fuzzer gets what was given, where to put the new corpus, and the old.
pub proof fn law_cmin_command(
    project: &FuzzProject,
    build: &BuildOptions,
    target: &str,
    args: &[String],
    new_corpus: &str,
    corpus: &str,
    compiler: &Compiler,
    env: &Environment,
    r: CommandLine,
)
    requires
        call_ensures(
            FuzzProject::cmin_command,
            (project, build, target, args, new_corpus, corpus, compiler, env),
            r,
        ),
    ensures
        ({
            let run = project.run_model(*build, target@, *compiler, *env);
            &&& r@.program == run.program
            &&& r@.env == run.env
            &&& r@.args == run.args + texts(args@) + seq!["-merge=1"@, new_corpus@, corpus@]
        }),
{
    let run = project.run_model(*build, target@, *compiler, *env);
    assert(r@.args =~= run.args + texts(args@) + seq!["-merge=1"@, new_corpus@, corpus@]);
}

/// To show a test case, the target is told where to write, and gets the test case.
pub proof fn law_debug_command(
    project: &FuzzProject,
    build: &BuildOptions,
    target: &str,
    output: &str,
    artifact: &str,
    compiler: &Compiler,
    env: &Environment,
    r: CommandLine,
)
    requires
        call_ensures(
            FuzzProject::debug_command,
            (project, build, target, output, artifact, compiler, env),
            r,
        ),
    ensures
        ({
            let run = project.run_model(*build, target@, *compiler, *env);
            &&& r@.program == run.program
            &&& r@.env == run.env.push(("RUST_LIBFUZZER_DEBUG_PATH"@, output@))
            &&& r@.args == run.args.push(artifact@)
        }),
{
    let run = project.run_model(*build, target@, *compiler, *env);
    assert(r@.args =~= run.args.push(artifact@));
}

/// A build is one of the target that is named, or of all; a check is the same, but for its name.
pub proof fn law_build_command(
    project: &FuzzProject,
    mode: BuildMode,
    build: &BuildOptions,
    target: &str,
    target_dir: &Option<String>,
    compiler: &Compiler,
    env: &Environment,
    one: CommandLine,
    all: CommandLine,
)
    requires
        call_ensures(
            FuzzProject::build_command,
            (project, mode, build, Some(target), target_dir, compiler, env),
            one,
        ),
        call_ensures(
            FuzzProject::build_command,
            (project, mode, build, None, target_dir, compiler, env),
            all,
        ),
    ensures
        ({
            let name = if mode == BuildMode::Check {
                "check"@
            } else {
                "build"@
            };
            let cargo = cargo_model(
                name,
                joined(project.dir(), "Cargo.toml"@),
                *build,
                *compiler,
                *env,
            );
            let dir = match *target_dir {
                Some(dir) => seq!["--target-dir"@, dir@],
                None => Seq::empty(),
            };
            &&& one@.program == "cargo"@ && all@.program == "cargo"@
            &&& one@.env == all@.env && one@.env == cargo.env
            &&& one@.args == cargo.args + seq!["--bin"@, target@] + dir
            &&& all@.args == cargo.args + seq!["--bins"@] + dir
        }),
{
}

/// A mutant is fuzzed as the binary is, but never with more than one job.
pub proof fn law_mutants_are_fuzzed_alone(
    binary: &str,
    artifacts: &str,
    corpus: &str,
    opts: &MutFuzz,
    max_time: u64,
    env: &Environment,
    mutant: CommandLine,
    normal: CommandLine,
)
    requires
        call_ensures(mutant_command, (binary, artifacts, corpus, opts, max_time, env), mutant),
        call_ensures(normal_command, (binary, artifacts, corpus, opts, max_time, env), normal),
    ensures
        mutant@.program == binary@,
        mutant@.program == normal@.program,
        mutant@.env == normal@.env,
        ({
            let first = seq![
                "-artifact_prefix="@ + artifacts@,
                "-max_total_time="@ + decimal(max_time as nat),
                corpus@,
            ];
            &&& mutant@.args == first + texts(opts.args@)
            &&& opts.jobs <= 1 ==> normal@.args == mutant@.args
            &&& opts.jobs > 1 ==> normal@.args == first.push("-fork="@ + decimal(opts.jobs as nat))
                + texts(opts.args@)
        }),
{
    let first = seq![
        "-artifact_prefix="@ + artifacts@,
        "-max_total_time="@ + decimal(max_time as nat),
        corpus@,
    ];
    assert(mutant@.args =~= first + texts(opts.args@));
    if opts.jobs > 1 {
        assert(normal@.args =~= first.push("-fork="@ + decimal(opts.jobs as nat)) + texts(
            opts.args@,
        ));
    } else {
        assert(normal@.args =~= mutant@.args);
    }
}

/// The binary that is mutated is the one that the build makes.
pub proof fn law_built_binary_is_mutated(
    fuzz_dir: &str,
    build: &BuildOptions,
    target: &str,
    dir: &str,
    mutated: String,
    built: String,
)
    requires
        call_ensures(get_fuzz_bin_path, (fuzz_dir, build, target), mutated),
        call_ensures(find_binary, (dir, build, target), built),
        dir@ == (match build.target_dir {
            Some(given) => given@,
            None => joined(fuzz_dir@, "target"@),
        }),
    ensures
        mutated@ == built@,
        mutated@ == joined(
            joined(
                joined(dir@, build.triple@),
                if build.dev {
                    "debug"@
                } else {
                    "release"@
                },
            ),
            target@,
        ),
{
}

/// A seed is replayed so that its edges come where they are looked for.
pub proof fn law_edges_are_found_where_written(
    binary: &str,
    edges_dir: &str,
    profraw_dir: &str,
    stem: &str,
    seed: &str,
    args: &[String],
    cmd: CommandLine,
    file: String,
)
    requires
        call_ensures(replay_command, (binary, edges_dir, profraw_dir, stem, seed, args), cmd),
        call_ensures(edge_file, (edges_dir, stem), file),
    ensures
        cmd@.program == binary@,
        cmd@.env.len() == 2,
        cmd@.env[0] == ("CALLGRAPH_EDGES_FILE"@, file@),
        cmd@.env[1] == ("LLVM_PROFILE_FILE"@, joined(profraw_dir@, stem@ + ".profraw"@)),
        file@ == joined(edges_dir@, stem@ + ".json"@),
        cmd@.args == seq![seed@, "--"@] + texts(args@),
{
    assert(cmd@.args =~= seq![seed@, "--"@] + texts(args@));
}

/// Coverage of files is measured with all of them, each batch in a profile of its own; that of a
/// directory by merging it.
pub proof fn law_coverage_commands(
    binary: &str,
    coverage_dir: &str,
    args: &[String],
    files: &[String],
    merged: &str,
    corpus: &str,
    batch: usize,
    of_files: CommandLine,
    of_dir: CommandLine,
)
    requires
        call_ensures(coverage_cmd_with_files, (binary, coverage_dir, args, files, batch), of_files),
        call_ensures(
            coverage_cmd_with_dir,
            (binary, coverage_dir, args, merged, corpus, batch),
            of_dir,
        ),
    ensures
        of_files@.program == binary@ && of_dir@.program == binary@,
        of_files@.env == of_dir@.env,
        of_files@.env == seq![
            (
                "LLVM_PROFILE_FILE"@,
                joined(coverage_dir@, "batch-"@ + decimal(batch as nat) + ".profraw"@),
            ),
        ],
        of_files@.args == texts(args@) + texts(files@),
        of_dir@.args == seq!["-merge=1"@, merged@, corpus@] + texts(args@),
{
    let env = seq![
        (
            "LLVM_PROFILE_FILE"@,
            joined(coverage_dir@, "batch-"@ + decimal(batch as nat) + ".profraw"@),
        ),
    ];
    assert(of_files@.env =~= env);
    assert(of_dir@.env =~= env);
    assert(of_files@.args =~= texts(args@) + texts(files@));
    assert(of_dir@.args =~= seq!["-merge=1"@, merged@, corpus@] + texts(args@));
}

/// What the one tool merges, the other one exports.
pub proof fn law_merged_profile_is_exported(
    profdata_tool: &str,
    raw: &str,
    merged: &str,
    cov_tool: &str,
    binary: &str,
    merge: CommandLine,
    export: CommandLine,
)
    requires
        call_ensures(merge_command, (profdata_tool, raw, merged), merge),
        call_ensures(export_command, (cov_tool, binary, merged), export),
    ensures
        merge@.program == profdata_tool@,
        merge@.args == seq!["merge"@, "-sparse"@, raw@, "-o"@, merged@],
        export@.program == cov_tool@,
        export@.args == seq!["export"@, binary@, "-instr-profile="@ + merged@],
        merge@.env.len() == 0 && export@.env.len() == 0,
{
    assert(merge@.args =~= seq!["merge"@, "-sparse"@, raw@, "-o"@, merged@]);
    assert(export@.args =~= seq!["export"@, binary@, "-instr-profile="@ + merged@]);
}

/// A directory that is given for tools counts; without one, that of the toolchain does, and if that
/// has no such tool, what the system finds.
pub proof fn law_given_tools_count(
    dir: &str,
    toolchain: &str,
    has_it: bool,
    suffix: &str,
    given: String,
    found: String,
    merger: String,
)
    requires
        call_ensures(llvm_cov_tool, (Some(dir), toolchain, has_it, suffix), given),
        call_ensures(llvm_cov_tool, (None, toolchain, has_it, suffix), found),
        call_ensures(llvm_tool, (None, toolchain, "llvm-cov", suffix), merger),
    ensures
        given@ == joined(dir@, "llvm-cov"@ + suffix@),
        has_it ==> found@ == joined(toolchain@, "llvm-cov"@ + suffix@) && merger@ == found@,
        !has_it ==> found@ == "llvm-cov"@ + suffix@,
{
}

/// A jump with the opposite condition has the other condition of the pair; there is none for what is
/// no condition.
pub proof fn law_conditions_come_in_pairs(byte: u8, short: Option<u8>, near: Option<u8>, is_short: bool)
    requires
        call_ensures(short_flip, (byte,), short),
        call_ensures(near_flip, (byte,), near),
        call_ensures(is_short_cond_jump, (byte,), is_short),
    ensures
        is_short <==> byte / 16 == 7,
        short is Some <==> byte / 16 == 7,
        near is Some <==> byte / 16 == 8,
        short matches Some(other) ==> other != byte && other / 2 == byte / 2,
        near matches Some(other) ==> other != byte && other / 2 == byte / 2,
{
}

/// A near jump begins with one byte, and has another one.
pub proof fn law_near_jumps(hex: &[u8], r: bool)
    requires
        call_ensures(is_near_jump, (hex,), r),
    ensures
        r <==> hex@.len() > 1 && hex@[0] == 15,
{
}

/// A platform is refused if and only if it is another one, and is named then.
pub proof fn law_platform_is_refused(triple: &str, r: Result<(), String>)
    requires
        call_ensures(check_platform, (triple,), r),
    ensures
        r is Ok <==> text_contains(triple@, "x86_64"@),
        r matches Err(message) ==> text_contains(message@, triple@),
{
    if let Err(message) = r {
        let head = "mutfuzz only supports x86_64 targets (got triple: "@;
        let tail = "). Binary mutation of conditional jumps is architecture-specific."@;
        crate::wording::law_parts_are_contained(head, triple@, tail);
        assert(message@ == head + triple@ + tail);
    }
}

/// Of the files that came, the one that came last is taken, and of several such the last.
pub proof fn law_latest_artifact(artifacts: &[(String, u128)], r: Option<usize>, k: int)
    requires
        call_ensures(latest_artifact, (artifacts,), r),
        0 <= k < artifacts@.len(),
    ensures
        r matches Some(i) && i < artifacts@.len() && artifacts@[k].1 <= artifacts@[i as int].1 && (
        artifacts@[k].1 == artifacts@[i as int].1 ==> k <= i),
{
}

/// A plan without functions has the partitions that are asked for, and one at least.
pub proof fn law_empty_plan(partitioner: Partitioner, count: usize, r: PartitionPlan, p: int)
    requires
        call_ensures(empty_plan, (partitioner, count), r),
        0 <= p < r.partitions@.len(),
    ensures
        r.partitions@.len() >= 1,
        count >= 1 ==> r.partitions@.len() == count,
        count == 0 ==> r.partitions@.len() == 1,
        r.loads@.len() == r.partitions@.len(),
        r.partitions@[p]@.len() == 0,
        r.loads@[p] == 0,
        r.seed_assignments@[p]@.len() == 0,
        r.partition_edges@[p]@.len() == 0,
{
}

/// The names of the sanitizers.
pub proof fn law_sanitizers_have_names(sanitizer: Sanitizer, r: &'static str)
    requires
        call_ensures(Sanitizer::name, (sanitizer,), r),
    ensures
        sanitizer == Sanitizer::Address ==> r@ == "address"@,
        sanitizer == Sanitizer::Leak ==> r@ == "leak"@,
        sanitizer == Sanitizer::Memory ==> r@ == "memory"@,
        sanitizer == Sanitizer::Thread ==> r@ == "thread"@,
        sanitizer == Sanitizer::Off ==> r@ == "none"@,
{
}

/// The corpus that counts most is the first of all.
pub proof fn law_main_corpus_is_first(
    project: &FuzzProject,
    given: &[String],
    target: &str,
    all: Vec<String>,
    main: String,
    own: String,
)
    requires
        call_ensures(FuzzProject::corpora, (project, given, target), all),
        call_ensures(FuzzProject::main_corpus, (project, given, target), main),
        call_ensures(FuzzProject::corpus_for, (project, target), own),
    ensures
        all@.len() > 0,
        main@ == all@[0]@,
        given@.len() == 0 ==> all@.len() == 1 && main@ == own@,
        given@.len() > 0 ==> texts(all@) == texts(given@),
        own@ == joined(joined(project.dir(), "corpus"@), target@),
{
    assert(texts(all@).len() == all@.len());
    assert(all@.len() > 0);
    assert(texts(all@)[0] == all@[0]@);
}

/// Coverage, calls and corpus of a target stand in directories of their own.
pub proof fn law_target_has_its_places(
    project: &FuzzProject,
    target: &str,
    coverage: (String, String),
    callgraph: (String, String, String),
    manifest: String,
)
    requires
        call_ensures(FuzzProject::coverage_for, (project, target), coverage),
        call_ensures(FuzzProject::callgraph_for, (project, target), callgraph),
        call_ensures(FuzzProject::manifest_path, (project,), manifest),
    ensures
        coverage.0@ == joined(joined(joined(project.dir(), "coverage"@), target@), "raw"@),
        coverage.1@ == joined(
            joined(joined(project.dir(), "coverage"@), target@),
            "coverage.profdata"@,
        ),
        callgraph.0@ == joined(joined(joined(project.dir(), "callgraph"@), target@), "raw"@),
        callgraph.1@ == joined(joined(joined(project.dir(), "callgraph"@), target@), "edges"@),
        callgraph.2@ == joined(
            joined(joined(project.dir(), "callgraph"@), target@),
            "callgraph.dot"@,
        ),
        manifest@ == joined(project.dir(), "Cargo.toml"@),
{
}

/// The directory of a project is named in a command that is shown if it is not the usual one, and only
/// then.
pub proof fn law_unusual_directory_is_named(
    project: &FuzzProject,
    subcommand: &str,
    options: &str,
    target: &str,
    artifact: &str,
    option: String,
    hint: String,
)
    requires
        call_ensures(FuzzProject::fuzz_dir_option, (project,), option),
        call_ensures(FuzzProject::hint, (project, subcommand, options, target, artifact), hint),
    ensures
        path_ends_with(project.dir(), "fuzz"@) ==> option@.len() == 0,
        !path_ends_with(project.dir(), "fuzz"@) ==> option@ == " --fuzz-dir "@ + project.dir(),
        hint@ == "cargo fuzz "@ + subcommand@ + option@ + options@ + " "@ + target@ + " "@
            + artifact@,
{
}

/// The source of a target stands in the directory of the sources, under its name.
pub proof fn law_source_of_target(
    project: &FuzzProject,
    target: &str,
    old_exists: bool,
    dir: String,
    path: String,
)
    requires
        call_ensures(FuzzProject::fuzz_targets_dir, (project, old_exists), dir),
        call_ensures(FuzzProject::target_path, (project, target, old_exists), path),
    ensures
        path@ == extended(joined(dir@, target@), "rs"@),
        dir@ == joined(
            project.dir(),
            if old_exists {
                "fuzzers"@
            } else {
                "fuzz_targets"@
            },
        ),
{
}

/// A build with traces names the target and the directory of the build.
pub proof fn law_callgraph_build_command(
    project: &FuzzProject,
    build: &BuildOptions,
    target: &str,
    shim_path: &str,
    target_dir: &str,
    env: &Environment,
    r: CommandLine,
)
    requires
        call_ensures(
            FuzzProject::callgraph_build_command,
            (project, build, target, shim_path, target_dir, env),
            r,
        ),
    ensures
        ({
            let cargo = callgraph_model(
                joined(project.dir(), "Cargo.toml"@),
                *build,
                shim_path@,
                *env,
            );
            &&& r@.program == "cargo"@
            &&& r@.env == cargo.env
            &&& r@.args == cargo.args + seq!["--bin"@, target@, "--target-dir"@, target_dir@]
        }),
{
    let cargo = callgraph_model(joined(project.dir(), "Cargo.toml"@), *build, shim_path@, *env);
    assert(r@.args =~= cargo.args + seq!["--bin"@, target@, "--target-dir"@, target_dir@]);
}

/// A manifest is either one of fuzz targets or one of a package; what cannot be read is neither.
pub proof fn law_manifest_is_one_or_the_other(
    fuzz_dir: &str,
    manifest: &[u8],
    project: Result<FuzzProject, ProjectError>,
    package: Result<bool, ProjectError>,
)
    requires
        call_ensures(FuzzProject::new, (fuzz_dir, manifest), project),
        call_ensures(is_package, (manifest,), package),
    ensures
        project is Ok <==> package == Ok::<bool, ProjectError>(false),
        package == Ok::<bool, ProjectError>(true) <==> (project matches Err(e) && e
            == ProjectError::NotFuzz),
        package is Err <==> (project matches Err(e) && e == ProjectError::Undecodable),
        package matches Err(e) ==> e == ProjectError::Undecodable,
{
}

/// A project has its targets in order, and no others than its manifest names.
pub proof fn law_project_lists_its_targets(
    fuzz_dir: &str,
    manifest: &Tree,
    project: FuzzProject,
    list: &[String],
    i: int,
    j: int,
)
    requires
        call_ensures(
            FuzzProject::with_manifest,
            (fuzz_dir, manifest),
            Ok::<FuzzProject, ProjectError>(project),
        ),
        call_ensures(FuzzProject::list_targets, (&project,), list),
        0 <= i < j < list@.len(),
    ensures
        project.dir() == fuzz_dir@,
        !text_lt(list@[j]@, list@[i]@),
        bin_names(manifest@.items_at("bin"@)).contains(list@[i]@),
{
    let names = texts(list@);
    let bins = bin_names(manifest@.items_at("bin"@));
    assert(!text_lt(names[j], names[i]));
    names.to_multiset_ensures();
    bins.to_multiset_ensures();
    assert(names.contains(names[i]));
    assert(names.to_multiset().count(names[i]) > 0);
}

/// A hash is reduced to a partition: both differ by a multiple of the number of partitions.
pub proof fn law_hash_is_reduced(hash: u64, count: usize, r: usize)
    requires
        count > 0,
        call_ensures(partition_for_hash, (hash, count), r),
    ensures
        r < count,
        ((hash as usize) - r) % (count as int) == 0,
{
    let h = (hash as usize) as int;
    let n = count as int;
    assert((h - h % n) % n == 0) by (nonlinear_arith)
        requires
            n > 0,
            h >= 0,
    {
        vstd::arithmetic::div_mod::lemma_fundamental_div_mod(h, n);
        vstd::arithmetic::div_mod::lemma_mod_multiples_basic(h / n, n);
        assert(h - h % n == (h / n) * n);
    }
}

/// There is no mutant of a binary without jumps. Every other mutant is as large as the binary, and has
/// as many mutations as asked for; without any it is the binary.
pub proof fn law_mutant_is_of_the_binary(
    original: &[u8],
    disasm: &DisassemblyResult,
    order: usize,
    avoid_repeats: bool,
    visited: &mut Visited,
    rng: &mut StdRng,
    r: Option<(Vec<u8>, Vec<MutationRecord>)>,
)
    requires
        call_ensures(create_mutant, (original, disasm, order, avoid_repeats, visited, rng), r),
    ensures
        r is None <==> disasm.jumps.seq().len() == 0,
        r matches Some((mutant, records)) ==> {
            &&& mutant@.len() == original@.len()
            &&& records@.len() == order
            &&& order == 0 ==> mutant@ == original@
            &&& order > 0 ==> mutant@ == patched(
                patched_all(original@, records@.drop_last()),
                records@.last().file_offset as int,
                records@.last().new_bytes@,
            )
            &&& forall|k: int|
                0 <= k < records@.len() ==> disasm.jumps@.contains_key(
                    (#[trigger] records@[k]).file_offset,
                ) && records@[k].function_name@
                    == disasm.jumps@[records@[k].file_offset].function_name@
        },
{
    if let Some((mutant, records)) = r {
        law_mutant_keeps_size(original@, records@);
        assert forall|k: int| 0 <= k < records@.len() implies disasm.jumps@.contains_key(
            (#[trigger] records@[k]).file_offset,
        ) && records@[k].function_name@ == disasm.jumps@[records@[k].file_offset].function_name@ by {
            assert(is_mutation(*disasm, records@[k]));
        }
    }
}

/// An edge file that is no document is told from one that counts too much; of any other, the edges and
/// the guards are read.
pub proof fn law_edge_file_is_read(
    bytes: &[u8],
    r: Result<(GuardEdges, GuardTable), EdgeFileError>,
    edge: (u32, u32),
)
    requires
        call_ensures(parse_edge_file, (bytes,), r),
    ensures
        json_document(bytes@) is None <==> (r matches Err(e) && e == EdgeFileError::NotJson),
        r matches Ok((edges, pcs)) ==> edges@.contains_key(edge) ==> {
            let items = edge_items(json_document(bytes@)->0.items_at("edges"@));
            edges@[edge] == sum_of(items, edge)
        },
        r matches Ok((edges, pcs)) ==> pcs@ == firsts(
            pc_items(json_document(bytes@)->0.items_at("pcs"@)),
        ),
{
    if let Ok((edges, pcs)) = r {
        let items = edge_items(json_document(bytes@)->0.items_at("edges"@));
        law_tally_is_the_sum(edges@, items, edge);
    }
}

/// A function of the project outside the sources of its harness is found to be shared if and only if
/// at least four times as many seeds reach it as miss it.
pub proof fn law_shared_functions_are_found(
    seeds: &[SeedTraceSummary],
    coverage: &SortedMap<String, FunctionCoverage>,
    root: &str,
    r: NameSet,
    name: Seq<char>,
)
    requires
        call_ensures(shared_functions, (seeds, coverage, root), r),
        seeds@.len() > 0,
        is_owned(coverage@, root@, name),
        !shared_source(source_of(coverage@[name]), root@),
    ensures
        ({
            let reached = seeds@.filter(
                |seed: SeedTraceSummary| seed.function_hits@.contains_key(name),
            ).len();
            r@.contains_key(name) <==> reached >= 4 * (seeds@.len() - reached)
        }),
{
    law_shared_by_most_seeds(seeds@, coverage@, root@, name);
    assert(reaching(seeds@, name) == seeds@.filter(
        |seed: SeedTraceSummary| seed.function_hits@.contains_key(name),
    ));
}

/// Seeds that are given several times over share the same functions.
pub proof fn law_same_functions_are_shared(
    seeds: &[SeedTraceSummary],
    more: &[SeedTraceSummary],
    times: nat,
    coverage: &SortedMap<String, FunctionCoverage>,
    root: &str,
    a: NameSet,
    b: NameSet,
    name: Seq<char>,
)
    requires
        call_ensures(shared_functions, (seeds, coverage, root), a),
        call_ensures(shared_functions, (more, coverage, root), b),
        times > 0,
        more@ == repeated(seeds@, times),
    ensures
        a@.contains_key(name) <==> b@.contains_key(name),
{
    law_shared_ignores_repetition(seeds@, times, coverage@, root@, name);
}

/// Each of the sixteen conditions gets its name in small letters, and nothing else gets one.
pub proof fn law_conditions_get_names(mnemonic: &str, r: Option<&'static str>, code: int)
    requires
        call_ensures(jump_opcode_name, (mnemonic,), r),
        0 <= code < 16,
    ensures
        mnemonic@ == condition_names()[code] ==> r is Some && is_lowered(r->0@, mnemonic@),
        r is Some ==> condition_names().contains(mnemonic@),
{
    law_every_condition_has_a_name(code);
    law_nothing_else_has_a_name(mnemonic@);
}

/// Every jump on one of the sixteen conditions is found that stands in the file and in a function that
/// may be changed, with bytes of the file.
pub proof fn law_jumps_are_found(
    data: &[u8],
    sections: &[SectionInfo],
    symbols: &[SymbolInfo],
    only_mutate: &[String],
    avoid_mutating: &[String],
    r: DisassemblyResult,
    s: int,
    start: usize,
    i: int,
    at: usize,
)
    requires
        call_ensures(find_jumps, (data, sections, symbols, only_mutate, avoid_mutating), r),
        0 <= s < symbols@.len(),
        is_function_at(code_ranges(section_views(sections@)), symbols@[s]@, start),
        is_included(function_name(symbols@[s]@.3), texts(only_mutate@), texts(avoid_mutating@)),
        start + symbols@[s].size <= data@.len(),
        0 <= i < code_at(data@, symbols@[s]@, start).len(),
        is_jump_at(
            data@,
            code_ranges(section_views(sections@)),
            code_at(data@, symbols@[s]@, start)[i],
            at,
        ),
    ensures
        r.jumps@.contains_key(at),
        r.jumps@[at].file_offset == at,
        r.jumps@[at].hex_data@ == data@.subrange(at as int, at + r.jumps@[at].hex_data@.len()),
        r.function_map@.contains_key(function_name(symbols@[s]@.3)),
{
    let ranges = code_ranges(section_views(sections@));
    let views = symbol_views(symbols@);
    let found = with_symbols(data@, ranges, texts(only_mutate@), texts(avoid_mutating@), views);
    assert(views[s] == symbols@[s]@);
    law_every_jump_is_found(
        data@,
        ranges,
        texts(only_mutate@),
        texts(avoid_mutating@),
        views,
        s,
        start,
        i,
        at,
    );
    assert(r.jumps@.contains_key(at) <==> found.jumps.contains_key(at));
    law_only_jumps_are_found(
        data@,
        ranges,
        texts(only_mutate@),
        texts(avoid_mutating@),
        views,
        at,
    );
    let jump = found.jumps[at];
    let (s2, start2) = choose|s2: int, start2: usize|
        0 <= s2 < views.len() && #[trigger] is_function_at(ranges, views[s2], start2)
            && jump.function == function_name(views[s2].3) && is_included(
            jump.function,
            texts(only_mutate@),
            texts(avoid_mutating@),
        ) && start2 + views[s2].2 <= data@.len() && is_jump_in(
            data@,
            ranges,
            code_at(data@, views[s2], start2),
            at,
            jump.opcode,
            jump.bytes,
        );
    let code = code_at(data@, views[s2], start2);
    let k = choose|k: int|
        0 <= k < code.len() && is_jump_at(data@, ranges, #[trigger] code[k], at) && is_lowered(
            jump.opcode,
            code[k].3,
        ) && jump.bytes == data@.subrange(at as int, at + code[k].1);
    assert(jump.bytes.len() == code[k].1);
    let name = function_name(symbols@[s]@.3);
    assert(r.function_map@.contains_key(name) <==> found.functions.contains_key(name));
}

/// What an export tells of a function is no less than what any of its entries tells.
pub proof fn law_export_tells_greatest(
    export: &Tree,
    r: SortedMap<String, FunctionCoverage>,
    i: int,
    name: Seq<char>,
)
    requires
        call_ensures(coverage_of_export, (export,), r),
        0 <= i < exported_functions(export@.items_at("data"@)).len(),
        exported_name(exported_functions(export@.items_at("data"@))[i]) == name,
        name.len() > 0,
    ensures
        r@.contains_key(name),
        ({
            let entry = exported_functions(export@.items_at("data"@))[i];
            let regions = entry.items_at("regions"@);
            let told = r@[name];
            &&& entry.number_at("count"@) matches Some(n) ==> told.count >= n
            &&& told.region_total >= regions.filter(|t: TreeModel| is_region(t)).len()
            &&& told.region_covered >= regions.filter(|t: TreeModel| is_executed_region(t)).len()
        }),
{
    let functions = exported_functions(export@.items_at("data"@));
    let entry = functions[i];
    let all = measured(functions);
    law_every_named_function_is_known(functions, name);
    assert(is_exported(functions, name));
    assert(all.contains_key(name));
    assert(r@.contains_key(name) <==> all.contains_key(name));
    law_greatest_entry_counts(functions, name);
    assert(is_no_more(measure(functions[i]), all[name]));
    assert(is_measure(functions[i], measure(functions[i])));
    law_measure_counts_regions(entry, measure(entry));
    assert(coverage_model(r@[name]) == all[name]);
}

/// The flags name the sanitizer that is asked for; builds with different sanitizers have different
/// flags.
pub proof fn law_flags_name_sanitizer(
    build: &BuildOptions,
    other: &BuildOptions,
    compiler: &Compiler,
    env: &Environment,
    flags: String,
    other_flags: String,
)
    requires
        call_ensures(rustflags, (build, compiler, env), flags),
        call_ensures(rustflags, (other, compiler, env), other_flags),
        build.sanitizer != other.sanitizer,
        *other == (BuildOptions { sanitizer: other.sanitizer, ..*build }),
    ensures
        flags@ != other_flags@,
        build.sanitizer == Sanitizer::Address ==> text_contains(flags@, "sanitizer=address"@),
        build.sanitizer == Sanitizer::Leak ==> text_contains(flags@, "sanitizer=leak"@),
        build.sanitizer == Sanitizer::Memory ==> text_contains(flags@, "sanitizer=memory"@),
        build.sanitizer == Sanitizer::Thread ==> text_contains(flags@, "sanitizer=thread"@),
        build.sanitizer == Sanitizer::Off && env.rustflags is None ==> !text_contains(
            flags@,
            "sanitizer="@,
        ),
{
    law_sanitizers_differ(*build, other.sanitizer, *compiler, *env);
    if build.sanitizer != Sanitizer::Off {
        law_sanitizer_is_asked_for(*build, *compiler, *env);
    } else if env.rustflags is None {
        law_no_sanitizer_is_asked_for(*build, *compiler, *env);
    }
}

/// The programs of a toolchain stand below its root, whatever white space surrounds that.
pub proof fn law_toolchain_has_its_place(
    sysroot_output: &str,
    host: &str,
    sysroot: Seq<char>,
    r: String,
)
    requires
        call_ensures(toolchain_bin, (sysroot_output, host), r),
        is_trimmed(sysroot_output@, sysroot),
    ensures
        r@ == joined(joined(joined(joined(sysroot, "lib"@), "rustlib"@), host@), "bin"@),
{
    let other = choose|other: Seq<char>| #[trigger]
        is_trimmed(sysroot_output@, other) && r@ == joined(
            joined(joined(joined(other, "lib"@), "rustlib"@), host@),
            "bin"@,
        );
    law_trimmed_is_unique(sysroot_output@, sysroot, other);
}

/// A function is listed among the callers of another one if and only if that is listed among its
/// callees: for each call, and for nothing else.
pub proof fn law_callers_mirror_callees(
    func_edges: &FunctionEdges,
    r: (NameLists, NameLists),
    caller: Seq<char>,
    callee: Seq<char>,
)
    requires
        call_ensures(call_lists, (func_edges,), r),
    ensures
        lists(r.0@, callee, caller) <==> lists(r.1@, caller, callee),
        lists(r.0@, callee, caller) <==> func_edges@.contains_key((caller, callee)),
{
}

/// A function is hit by the seeds that reach it, each once; one that none reaches is not listed.
pub proof fn law_seeds_are_counted(
    seeds: &[SeedTraceSummary],
    r: SortedMap<String, u64>,
    name: Seq<char>,
)
    requires
        call_ensures(function_seed_hits, (seeds,), r),
    ensures
        ({
            let reached = seeds@.filter(
                |seed: SeedTraceSummary| seed.function_hits@.contains_key(name),
            ).len();
            &&& r@.contains_key(name) <==> reached > 0
            &&& r@.contains_key(name) ==> r@[name] == reached
        }),
{
    law_hits_count_seeds(seeds@, name);
    assert(reaching(seeds@, name) == seeds@.filter(
        |seed: SeedTraceSummary| seed.function_hits@.contains_key(name),
    ));
}

/// Every seed is replayed, in its order, and none gets files of the same names as another one.
pub proof fn law_seeds_do_not_meet(seed_paths: Vec<String>, r: Vec<SeedReplayJob>, i: int, j: int)
    requires
        call_ensures(seed_jobs, (seed_paths,), r),
        0 <= i < j < seed_paths@.len(),
    ensures
        r@.len() == seed_paths@.len(),
        r@[i].seed_path@ == seed_paths@[i]@,
        r@[i].artifact_stem@ != r@[j].artifact_stem@,
{
    law_stems_differ(i as nat, j as nat, seed_paths@[i]@, seed_paths@[j]@);
    assert(r@[i].artifact_stem@ == artifact_stem(i as nat, seed_paths@[i]@));
    assert(r@[j].artifact_stem@ == artifact_stem(j as nat, seed_paths@[j]@));
}

} // verus!
