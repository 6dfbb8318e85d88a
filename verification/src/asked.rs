//! What holds of manifests and versions, and of what is asked of other programs.

use crate::callgraph_shim::manifest_text;
use crate::command::{cargo_model, only_if, CommandModel, Compiler, Environment};
use crate::manifest::{
    bin_names, first_requirement, libfuzzer_version_of, locked_libfuzzer, locked_version,
    requirement_of, says_fuzz, FuzzPackage,
};
use crate::mutfuzz::orchestrator::{fuzz_args, is_supported, MutantRun, RunEvent, RunStep};
use crate::options::{BuildOptions, Partitioner};
use crate::paths::{joined, path_ends_with, same_path};
use crate::placement::algorithm_name;
use crate::project::{
    binary_path, corpus_dirs, new_of, numbered_option, target_dir_of, Artifact, FuzzProject,
};
use crate::replay::{
    bare_command, batch_profile, batch_size_for, callgraph_flags, callgraph_model,
    callgraph_target_dir_of, coverage_workers_for, tool_name,
};
use crate::text::{decimal, digits_value, text_contains, text_ends_with, text_starts_with};
use crate::tree::{toml_document, TreeModel};
use crate::versions::{digit_runs, required_version, scanned};
use vstd::prelude::*;

verus! {

/// A manifest is one of fuzz targets if and only if it says so: a table in its table of the package
/// holds the word, and that is true.
pub proof fn law_manifest_says_fuzz(manifest: TreeModel)
    ensures
        says_fuzz(manifest) <==> exists|package: TreeModel, metadata: TreeModel, flag: TreeModel|
            manifest.at("package"@) == Some(package) && package.at("metadata"@) == Some(metadata)
                && #[trigger] metadata.at("cargo-fuzz"@) == Some(flag) && #[trigger] flag.truth()
                == Some(true) && #[trigger] package.at("metadata"@) is Some,
{
    if says_fuzz(manifest) {
        let package = manifest.at("package"@)->0;
        let metadata = package.at("metadata"@)->0;
        let flag = metadata.at("cargo-fuzz"@)->0;
        assert(metadata.at("cargo-fuzz"@) == Some(flag));
        assert(flag.truth() == Some(true));
        assert(package.at("metadata"@) is Some);
    }
}

/// The targets are the binaries of a manifest that have names, each as often as it stands there.
pub proof fn law_binaries_are_targets(bins: Seq<TreeModel>)
    ensures
        bin_names(bins) == bins.filter(|bin: TreeModel| bin.text_at("name"@) is Some).map_values(
            |bin: TreeModel| bin.text_at("name"@)->0,
        ),
    decreases bins.len(),
{
    reveal(Seq::filter);
    let named = |bin: TreeModel| bin.text_at("name"@) is Some;
    let name = |bin: TreeModel| bin.text_at("name"@)->0;
    if bins.len() > 0 {
        law_binaries_are_targets(bins.drop_last());
        let less = bins.drop_last().filter(named);
        if named(bins.last()) {
            assert(bins.filter(named) =~= less.push(bins.last()));
            assert(less.push(bins.last()).map_values(name) =~= less.map_values(name).push(
                name(bins.last()),
            ));
        } else {
            assert(bins.filter(named) =~= less);
        }
    } else {
        assert(bins.filter(named).map_values(name) =~= Seq::empty());
    }
}

/// The version of a package is that of the first entry of a lock file with its name and a version.
pub proof fn law_first_lock_counts(packages: Seq<TreeModel>, name: Seq<char>, i: int)
    requires
        0 <= i < packages.len(),
        packages[i].text_at("name"@) == Some(name),
        packages[i].text_at("version"@) is Some,
        forall|k: int|
            0 <= k < i ==> (#[trigger] packages[k]).text_at("name"@) != Some(name)
                || packages[k].text_at("version"@) is None,
    ensures
        locked_version(packages, name) == packages[i].text_at("version"@),
    decreases packages.len(),
{
    if i > 0 {
        let rest = packages.drop_first();
        assert(packages[0].text_at("name"@) != Some(name) || packages[0].text_at("version"@) is None);
        assert(rest[i - 1] == packages[i]);
        assert forall|k: int| 0 <= k < i - 1 implies (#[trigger] rest[k]).text_at("name"@) != Some(
            name,
        ) || rest[k].text_at("version"@) is None by {
            assert(rest[k] == packages[k + 1]);
        }
        law_first_lock_counts(rest, name, i - 1);
    }
}

/// A package that a lock file does not name with a version is not locked.
pub proof fn law_unlocked(packages: Seq<TreeModel>, name: Seq<char>)
    requires
        forall|k: int|
            0 <= k < packages.len() ==> (#[trigger] packages[k]).text_at("name"@) != Some(name)
                || packages[k].text_at("version"@) is None,
    ensures
        locked_version(packages, name) is None,
    decreases packages.len(),
{
    if packages.len() > 0 {
        let rest = packages.drop_first();
        assert(packages[0].text_at("name"@) != Some(name) || packages[0].text_at("version"@) is None);
        assert forall|k: int| 0 <= k < rest.len() implies (#[trigger] rest[k]).text_at("name"@)
            != Some(name) || rest[k].text_at("version"@) is None by {
            assert(rest[k] == packages[k + 1]);
        }
        law_unlocked(rest, name);
    }
}

/// A locked version counts, whatever is required; without one, what is required counts; without
/// either, there is a version of old.
pub proof fn law_lock_counts_before_requirement(
    lock: TreeModel,
    requirement: Option<Seq<char>>,
    version: Seq<char>,
)
    ensures
        locked_version(lock.items_at("package"@), "libfuzzer-sys"@) == Some(version)
            ==> libfuzzer_version_of(Some(lock), requirement) == version,
        locked_version(lock.items_at("package"@), "libfuzzer-sys"@) is None ==> libfuzzer_version_of(
            Some(lock),
            requirement,
        ) == libfuzzer_version_of(None, requirement),
        requirement matches Some(req) && required_version(req) is Some ==> Some(
            libfuzzer_version_of(None, requirement),
        ) == required_version(requirement->0),
        libfuzzer_version_of(None, None) == "0.4.0"@,
{
}

/// Of the requirements of a package for another one, the first counts.
pub proof fn law_first_requirement_counts(
    dependencies: Seq<(String, String)>,
    name: Seq<char>,
    i: int,
)
    requires
        0 <= i < dependencies.len(),
        dependencies[i].0@ == name,
        forall|k: int| 0 <= k < i ==> (#[trigger] dependencies[k]).0@ != name,
    ensures
        first_requirement(dependencies, name) == Some(dependencies[i].1@),
    decreases dependencies.len(),
{
    if i > 0 {
        let rest = dependencies.drop_first();
        assert(dependencies[0].0@ != name);
        assert(rest[i - 1] == dependencies[i]);
        assert forall|k: int| 0 <= k < i - 1 implies (#[trigger] rest[k]).0@ != name by {
            assert(rest[k] == dependencies[k + 1]);
        }
        law_first_requirement_counts(rest, name, i - 1);
    }
}

/// The requirements are those of the package with that manifest.
pub proof fn law_package_of_manifest_counts(
    packages: Seq<FuzzPackage>,
    manifest_path: Seq<char>,
    name: Seq<char>,
    i: int,
)
    requires
        0 <= i < packages.len(),
        same_path(packages[i].manifest_path@, manifest_path),
        forall|k: int|
            0 <= k < i ==> !same_path((#[trigger] packages[k]).manifest_path@, manifest_path),
    ensures
        requirement_of(packages, manifest_path, name) == first_requirement(
            packages[i].dependencies@,
            name,
        ),
    decreases packages.len(),
{
    if i > 0 {
        let rest = packages.drop_first();
        assert(!same_path(packages[0].manifest_path@, manifest_path));
        assert(rest[i - 1] == packages[i]);
        assert forall|k: int| 0 <= k < i - 1 implies !same_path(
            (#[trigger] rest[k]).manifest_path@,
            manifest_path,
        ) by {
            assert(rest[k] == packages[k + 1]);
        }
        law_package_of_manifest_counts(rest, manifest_path, name, i - 1);
    }
}

/// Whether a text has nothing but digits.
pub open spec fn is_number(s: Seq<char>) -> bool {
    s.len() > 0 && forall|i: int| 0 <= i < s.len() ==> 48 <= #[trigger] s[i] as int <= 57
}

proof fn lemma_scan_digits(s: Seq<char>, digits: Seq<char>)
    requires
        forall|i: int| 0 <= i < digits.len() ==> 48 <= #[trigger] digits[i] as int <= 57,
    ensures
        scanned(s + digits).0 == scanned(s).0,
        scanned(s + digits).1 == scanned(s).1 + digits,
    decreases digits.len(),
{
    if digits.len() == 0 {
        assert(s + digits =~= s);
        assert(scanned(s).1 + digits =~= scanned(s).1);
    } else {
        let less = digits.drop_last();
        lemma_scan_digits(s, less);
        assert((s + digits).drop_last() =~= s + less);
        assert((s + digits).last() == digits[digits.len() - 1]);
        assert((scanned(s).1 + less).push(digits.last()) =~= scanned(s).1 + digits);
    }
}

/// A number is read as a whole.
pub proof fn law_number_is_one_run(digits: Seq<char>)
    requires
        is_number(digits),
    ensures
        digit_runs(digits) == seq![digits],
{
    let none: Seq<char> = Seq::empty();
    lemma_scan_digits(none, digits);
    assert(none + digits =~= digits);
    assert(digit_runs(digits) =~= seq![digits]);
}

proof fn lemma_scan_apart(a: Seq<char>, c: char, b: Seq<char>)
    requires
        !(48 <= c as int <= 57),
    ensures
        scanned(a.push(c) + b).0 == digit_runs(a) + scanned(b).0,
        scanned(a.push(c) + b).1 == scanned(b).1,
    decreases b.len(),
{
    if b.len() == 0 {
        assert(a.push(c) + b =~= a.push(c));
        assert(a.push(c).drop_last() =~= a);
        assert(digit_runs(a) + scanned(b).0 =~= digit_runs(a));
        assert(scanned(a.push(c)).1 =~= Seq::empty());
    } else {
        let less = b.drop_last();
        lemma_scan_apart(a, c, less);
        assert((a.push(c) + b).drop_last() =~= a.push(c) + less);
        assert((a.push(c) + b).last() == b.last());
        let (done, current) = scanned(less);
        assert((digit_runs(a) + done).push(current) =~= digit_runs(a) + done.push(current));
    }
}

/// What is no digit parts numbers from each other.
pub proof fn law_other_characters_part_numbers(a: Seq<char>, c: char, b: Seq<char>)
    requires
        !(48 <= c as int <= 57),
    ensures
        digit_runs(a.push(c) + b) == digit_runs(a) + digit_runs(b),
{
    lemma_scan_apart(a, c, b);
    let (done, current) = scanned(b);
    assert((digit_runs(a) + done).push(current) =~= digit_runs(a) + done.push(current));
}

/// A requirement stands for its first three numbers, with points between them; a number that is
/// missing is 0, and leading zeros do not count. Without a number it stands for no version.
pub proof fn law_requirement_gives_version(req: Seq<char>)
    ensures
        digit_runs(req).len() == 0 ==> required_version(req) is None,
        digit_runs(req).len() == 1 && digits_value(digit_runs(req)[0], 10) <= u64::MAX
            ==> required_version(req) == Some(
            decimal(digits_value(digit_runs(req)[0], 10)) + "."@ + decimal(0) + "."@ + decimal(0),
        ),
        digit_runs(req).len() == 2 && digits_value(digit_runs(req)[0], 10) <= u64::MAX
            && digits_value(digit_runs(req)[1], 10) <= u64::MAX ==> required_version(req) == Some(
            decimal(digits_value(digit_runs(req)[0], 10)) + "."@ + decimal(
                digits_value(digit_runs(req)[1], 10),
            ) + "."@ + decimal(0),
        ),
        digit_runs(req).len() >= 3 && digits_value(digit_runs(req)[0], 10) <= u64::MAX
            && digits_value(digit_runs(req)[1], 10) <= u64::MAX && digits_value(
            digit_runs(req)[2],
            10,
        ) <= u64::MAX ==> required_version(req) == Some(
            decimal(digits_value(digit_runs(req)[0], 10)) + "."@ + decimal(
                digits_value(digit_runs(req)[1], 10),
            ) + "."@ + decimal(digits_value(digit_runs(req)[2], 10)),
        ),
{
}

/// The binary of a target stands in the directory of its build, by the triple and the profile.
pub proof fn law_binary_has_its_place(
    target_dir: Seq<char>,
    triple: Seq<char>,
    target: Seq<char>,
)
    ensures
        binary_path(target_dir, triple, true, target) == joined(
            joined(joined(target_dir, triple), "debug"@),
            target,
        ),
        binary_path(target_dir, triple, false, target) == joined(
            joined(joined(target_dir, triple), "release"@),
            target,
        ),
{
}

/// Each method to place functions by has its name.
pub proof fn law_methods_have_names(partitioner: Partitioner)
    ensures
        partitioner == Partitioner::Ldg <==> algorithm_name(partitioner) == "ldg"@,
        partitioner == Partitioner::Fennel <==> algorithm_name(partitioner) == "fennel"@,
        partitioner == Partitioner::Hrdf <==> algorithm_name(partitioner) == "hrdf"@,
        partitioner == Partitioner::Random <==> algorithm_name(partitioner) == "random"@,
{
    reveal_strlit("ldg");
    reveal_strlit("fennel");
    reveal_strlit("hrdf");
    reveal_strlit("random");
    assert("ldg"@.len() == 3 && "hrdf"@.len() == 4 && "fennel"@.len() == 6 && "random"@.len() == 6);
    assert("fennel"@[0] == 'f' && "random"@[0] == 'r');
}

/// The directories that are given are the corpus, all of them and no other; where none is given, the
/// corpus of the target is.
pub proof fn law_given_corpus_counts(given: Seq<Seq<char>>, default: Seq<char>)
    ensures
        given.len() > 0 ==> corpus_dirs(given, default) == given,
        given.len() == 0 ==> corpus_dirs(given, default) == seq![default],
        corpus_dirs(given, default).len() > 0,
{
}

/// A directory that is given for the build counts; without one, a build for coverage has its own, and
/// any other that of cargo.
pub proof fn law_given_target_dir_counts(
    build: BuildOptions,
    current_dir: Seq<char>,
    default_target: Seq<char>,
)
    ensures
        build.target_dir matches Some(dir) ==> target_dir_of(build, current_dir, default_target)
            == Some(dir@),
        build.target_dir is None && !build.coverage ==> target_dir_of(
            build,
            current_dir,
            default_target,
        ) is None,
        build.target_dir is None && build.coverage ==> target_dir_of(
            build,
            current_dir,
            default_target,
        ) == Some(
            joined(joined(joined(current_dir, "target"@), default_target), "coverage"@),
        ),
{
}

/// A directory that is given for a build with traces counts before that of the environment, and that
/// before that of cargo; the build has its own place in it.
pub proof fn law_callgraph_dir_is_given(
    given: Seq<char>,
    from_env: Seq<char>,
    other: Option<Seq<char>>,
    current_dir: Seq<char>,
    default_target: Seq<char>,
)
    ensures
        callgraph_target_dir_of(Some(given), other, current_dir, default_target) == joined(
            joined(given, default_target),
            "callgraph"@,
        ),
        callgraph_target_dir_of(None, Some(from_env), current_dir, default_target) == joined(
            joined(from_env, default_target),
            "callgraph"@,
        ),
        callgraph_target_dir_of(None, None, current_dir, default_target) == joined(
            joined(joined(current_dir, "target"@), default_target),
            "callgraph"@,
        ),
{
}

/// Files that came after a moment are new: every one is told, in its order, and nothing else.
pub proof fn law_new_files_are_told(entries: Seq<Artifact>, since: u128)
    ensures
        new_of(entries, since) == entries.filter(
            |e: Artifact| e.is_file && since < e.modified,
        ).map_values(|e: Artifact| (e.path@, e.modified)),
    decreases entries.len(),
{
    reveal(Seq::filter);
    let f = |e: Artifact| e.is_file && since < e.modified;
    let g = |e: Artifact| (e.path@, e.modified);
    if entries.len() > 0 {
        law_new_files_are_told(entries.drop_last(), since);
        let less = entries.drop_last().filter(f);
        if f(entries.last()) {
            assert(entries.filter(f) =~= less.push(entries.last()));
            assert(less.push(entries.last()).map_values(g) =~= less.map_values(g).push(
                g(entries.last()),
            ));
        } else {
            assert(entries.filter(f) =~= less);
        }
    } else {
        assert(entries.filter(f).map_values(g) =~= Seq::empty());
    }
}

/// As many workers replay as asked for, unless there are fewer than a hundred files for each; there
/// is always one.
pub proof fn law_workers_have_enough_files(files: nat, requested: nat)
    requires
        requested > 0,
    ensures
        files < 100 ==> coverage_workers_for(files, requested) == 1,
        files >= 100 ==> coverage_workers_for(files, requested) <= requested,
        files >= 100 ==> 100 * coverage_workers_for(files, requested) <= files,
        files >= 100 ==> coverage_workers_for(files, requested) == requested || 100 * (
        coverage_workers_for(files, requested) + 1) > files,
{
}

/// Batches are no larger than they must be.
pub proof fn law_batches_are_small(files: nat, workers: nat)
    requires
        workers > 0,
        files > 0,
    ensures
        workers * (batch_size_for(files, workers) - 1) < files,
        files <= workers * batch_size_for(files, workers),
{
    let size = batch_size_for(files, workers) as int;
    let n = files + workers - 1;
    vstd::arithmetic::div_mod::lemma_fundamental_div_mod(n, workers as int);
    vstd::arithmetic::div_mod::lemma_mod_bound(n, workers as int);
    assert(workers * (size - 1) == workers * size - workers) by (nonlinear_arith);
}

/// Every batch has a profile of its own.
pub proof fn law_batches_have_their_profiles(coverage_dir: Seq<char>, batch: nat)
    ensures
        batch_profile(coverage_dir, batch) == joined(
            coverage_dir,
            "batch-"@ + decimal(batch) + ".profraw"@,
        ),
{
}

/// The fuzzer is told where to put what it finds, how long to run, and where the corpus is.
pub proof fn law_fuzzer_is_told(artifacts: Seq<char>, corpus: Seq<char>, max_time: u64)
    ensures
        fuzz_args(artifacts, corpus, max_time).len() == 3,
        fuzz_args(artifacts, corpus, max_time)[0] == "-artifact_prefix="@ + artifacts,
        fuzz_args(artifacts, corpus, max_time)[1] == "-max_total_time="@ + decimal(max_time as nat),
        fuzz_args(artifacts, corpus, max_time)[2] == corpus,
{
}

/// While there is time for mutants, the next one is made and gets the next number; no other moment
/// makes one.
pub proof fn law_mutants_are_made_in_time(run: MutantRun, seconds: u64)
    requires
        run.phase is Counting,
        run.mutant_no < u64::MAX,
    ensures
        seconds < run.mutant_budget ==> run.step(RunEvent::Elapsed(seconds)) is MakeMutant && run.after(
            RunEvent::Elapsed(seconds),
        ).mutant_no == run.mutant_no + 1,
        seconds >= run.mutant_budget ==> run.step(RunEvent::Elapsed(seconds)) is AskClock && run.after(
            RunEvent::Elapsed(seconds),
        ).mutant_no == run.mutant_no,
{
}

/// At the end the binary is fuzzed for the time that is left if that was asked for, and there is any;
/// then, or without that, the run is reported.
pub proof fn law_rest_is_fuzzed(run: MutantRun, seconds: u64)
    requires
        run.phase is Closing,
    ensures
        run.fuzz_after && seconds < run.budget ==> run.step(RunEvent::Elapsed(seconds))
            == RunStep::FuzzNormally((run.budget - seconds) as u64),
        !run.fuzz_after || seconds >= run.budget ==> run.step(RunEvent::Elapsed(seconds)) is Report,
        run.after(RunEvent::Elapsed(seconds)).phase is Finished,
{
}

/// Where no other mutant can be made, the run comes to its end.
pub proof fn law_run_ends_without_mutants(run: MutantRun, event: RunEvent)
    ensures
        run.phase is Making ==> run.after(RunEvent::NoMutant).phase is Closing,
        run.phase is Finished ==> run.after(event) == run && run.step(event) is Report,
{
}

/// What a run was given it keeps, and what it has counted it never forgets.
pub proof fn law_run_keeps_its_counts(run: MutantRun, event: RunEvent)
    requires
        run.wf(),
        run.can_count(),
    ensures
        run.after(event).budget == run.budget,
        run.after(event).mutant_budget == run.mutant_budget,
        run.after(event).fuzz_after == run.fuzz_after,
        run.mutant_no <= run.after(event).mutant_no <= run.mutant_no + 1,
        run.killed <= run.after(event).killed <= run.killed + 1,
        run.survived <= run.after(event).survived <= run.survived + 1,
{
}

/// A binary without jumps is fuzzed for all of the time.
pub proof fn law_nothing_to_mutate(run: MutantRun, jumps: nat)
    ensures
        jumps == 0 ==> run.first_step(jumps) == RunStep::FuzzNormally(run.budget),
        jumps > 0 ==> run.first_step(jumps) is AskClock,
{
}

/// Targets for one architecture are supported, whatever else their triples say, and no others.
pub proof fn law_one_architecture_is_supported(
    before: Seq<char>,
    after: Seq<char>,
    triple: Seq<char>,
)
    ensures
        is_supported(before + "x86_64"@ + after),
        is_supported(triple) ==> text_contains(triple, "x86_64"@),
{
    crate::wording::law_parts_are_contained(before, "x86_64"@, after);
}

/// What is found for a target is put in its own directory below that of the project; its sources stand
/// in another one, of an old or of a new name.
pub proof fn law_project_has_its_places(project: FuzzProject, target: Seq<char>)
    ensures
        project.artifacts(target) == joined(
            joined(joined(project.dir(), "artifacts"@), target),
            ""@,
        ),
        project.targets_dir(true) == joined(project.dir(), "fuzzers"@),
        project.targets_dir(false) == joined(project.dir(), "fuzz_targets"@),
        project.is_default() <==> path_ends_with(project.dir(), "fuzz"@),
{
}

/// A target is run by cargo with the flags of the build, then comes what names it and its directory,
/// and at last, behind two hyphens, where it puts what it finds.
pub proof fn law_target_is_run(
    project: FuzzProject,
    build: BuildOptions,
    target: Seq<char>,
    compiler: Compiler,
    env: Environment,
)
    ensures
        ({
            let cmd = project.run_model(build, target, compiler, env);
            let cargo = cargo_model(
                "run"@,
                joined(project.dir(), "Cargo.toml"@),
                build,
                compiler,
                env,
            );
            let n = cargo.args.len() as int;
            let m = cmd.args.len() as int;
            &&& cmd.program == "cargo"@
            &&& cmd.env == cargo.env
            &&& cmd.args.take(n) == cargo.args
            &&& cmd.args[n] == "--bin"@
            &&& cmd.args[n + 1] == target
            &&& build.target_dir matches Some(dir) ==> m == n + 6 && cmd.args[n + 2]
                == "--target-dir"@ && cmd.args[n + 3] == dir@
            &&& build.target_dir is None ==> m == n + 4
            &&& cmd.args[m - 2] == "--"@
            &&& cmd.args[m - 1] == "-artifact_prefix="@ + project.artifacts(target)
        }),
{
    let cmd = project.run_model(build, target, compiler, env);
    let cargo = cargo_model("run"@, joined(project.dir(), "Cargo.toml"@), build, compiler, env);
    assert(cmd.args.take(cargo.args.len() as int) =~= cargo.args);
}

/// The arguments of a build with traces follow the options, one by one.
pub open spec fn callgraph_pieces(
    manifest: Seq<char>,
    build: BuildOptions,
    shim: Seq<char>,
) -> Seq<Seq<Seq<char>>> {
    let none: Seq<Seq<char>> = Seq::empty();
    seq![
        seq!["build"@, "--manifest-path"@, manifest],
        if build.dev {
            none
        } else {
            seq!["--release"@]
        },
        seq!["--target"@, build.triple@],
        if build.verbose {
            seq!["-v"@]
        } else {
            none
        },
        if build.no_default_features {
            seq!["--no-default-features"@]
        } else {
            none
        },
        if build.all_features {
            seq!["--all-features"@]
        } else {
            none
        },
        match build.features {
            Some(features) => seq!["--features"@, features@],
            None => none,
        },
        seq!["--config"@, "patch.crates-io.libfuzzer-sys.path='"@ + shim + "'"@],
    ]
}

/// A build with traces is one of cargo, in which the fuzzer is replaced; what is asked for follows the
/// options. A release keeps what is known of the source.
pub proof fn law_callgraph_build_follows_options(
    manifest: Seq<char>,
    build: BuildOptions,
    shim: Seq<char>,
    env: Environment,
)
    ensures
        ({
            let cmd = callgraph_model(manifest, build, shim, env);
            let p = callgraph_pieces(manifest, build, shim);
            &&& cmd.program == "cargo"@
            &&& cmd.args == p[0] + p[1] + p[2] + p[3] + p[4] + p[5] + p[6] + p[7]
            &&& cmd.env.last() == ("RUSTFLAGS"@, callgraph_flags(build, env))
            &&& build.dev ==> cmd.env.len() == 1
            &&& !build.dev ==> cmd.env.len() == 2 && cmd.env[0] == (
                "CARGO_PROFILE_RELEASE_DEBUG"@,
                "2"@,
            )
        }),
{
}

/// The flags of a build with traces ask for guards and their addresses, and for coverage; what was
/// given stands last.
pub proof fn law_callgraph_flags_ask_for_guards(build: BuildOptions, env: Environment)
    ensures
        ({
            let flags = callgraph_flags(build, env);
            let asked =
                " -Cpasses=sancov-module -Cllvm-args=-sanitizer-coverage-level=3 -Cllvm-args=-sanitizer-coverage-trace-pc-guard -Cllvm-args=-sanitizer-coverage-pc-table -Cinstrument-coverage"@;
            &&& flags.take(asked.len() as int) == asked
            &&& flags.len() == asked.len() + (if build.no_cfg_fuzzing {
                0
            } else {
                " --cfg fuzzing"@.len()
            }) + (match env.rustflags {
                Some(given) => 1 + given@.len(),
                None => 0,
            })
            &&& !build.no_cfg_fuzzing ==> text_contains(flags, " --cfg fuzzing"@)
            &&& env.rustflags matches Some(given) ==> text_ends_with(flags, given@)
        }),
{
    reveal_strlit(" ");
    let flags = callgraph_flags(build, env);
    let asked =
        " -Cpasses=sancov-module -Cllvm-args=-sanitizer-coverage-level=3 -Cllvm-args=-sanitizer-coverage-trace-pc-guard -Cllvm-args=-sanitizer-coverage-pc-table -Cinstrument-coverage"@;
    let last: Seq<char> = match env.rustflags {
        Some(given) => " "@ + given@,
        None => Seq::empty(),
    };
    let cfg: Seq<char> = if build.no_cfg_fuzzing {
        Seq::empty()
    } else {
        " --cfg fuzzing"@
    };
    assert(flags =~= asked + cfg + last);
    assert(flags.take(asked.len() as int) =~= asked);
    crate::wording::law_parts_are_contained(asked, cfg, last);
    if let Some(given) = env.rustflags {
        let before = asked + cfg + " "@;
        crate::wording::law_parts_are_contained(before, given@, Seq::empty());
        assert(flags =~= before + given@);
    }
}

/// The crate that takes the place of the fuzzer has its name and the version that is needed.
pub proof fn law_shim_has_its_version(version: Seq<char>)
    ensures
        text_starts_with(
            manifest_text(version),
            "[package]\nname = \"libfuzzer-sys\"\nversion = \""@ + version + "\"\n"@,
        ),
{
    let head = "[package]\nname = \"libfuzzer-sys\"\nversion = \""@;
    let tail =
        "\"\nedition = \"2021\"\n\n[dependencies]\narbitrary = { version = \"1\", features = [\"derive\"] }\n\n[features]\ndefault = []\n"@;
    reveal_strlit("\"\n");
    reveal_strlit(
        "\"\nedition = \"2021\"\n\n[dependencies]\narbitrary = { version = \"1\", features = [\"derive\"] }\n\n[features]\ndefault = []\n",
    );
    let whole = manifest_text(version);
    let part = head + version + "\"\n"@;
    assert(whole == head + version + tail);
    assert(tail[0] == "\"\n"@[0] && tail[1] == "\"\n"@[1]);
    assert(whole.subrange(0, part.len() as int) =~= part);
}

/// What is added to a command stands behind what it has; nothing else changes.
pub proof fn law_arguments_are_added(
    cmd: CommandModel,
    args: Seq<Seq<char>>,
    key: Seq<char>,
    value: Seq<char>,
)
    ensures
        cmd.with(args).program == cmd.program,
        cmd.with(args).env == cmd.env,
        cmd.with(args).args == cmd.args + args,
        cmd.with_env(key, value).program == cmd.program,
        cmd.with_env(key, value).args == cmd.args,
        cmd.with_env(key, value).env == cmd.env.push((key, value)),
        bare_command(cmd.program).program == cmd.program,
        bare_command(cmd.program).args.len() == 0,
        bare_command(cmd.program).env.len() == 0,
{
}

/// What is asked for only in one case is asked for in that, and in no other.
pub proof fn law_asked_for_in_one_case(args: Seq<Seq<char>>, flags: Seq<char>)
    ensures
        only_if(true, args) == args,
        only_if(false, args).len() == 0,
        only_if(true, flags) == flags,
        only_if(false, flags).len() == 0,
{
}

/// A number stands behind the name of its option, and the ending of programs behind that of a tool.
pub proof fn law_options_have_numbers(name: Seq<char>, n: nat, suffix: Seq<char>)
    ensures
        numbered_option(name, n).take(name.len() as int) == name,
        numbered_option(name, n).skip(name.len() as int) == decimal(n),
        tool_name(name, suffix) == name + suffix,
{
    assert(numbered_option(name, n).take(name.len() as int) =~= name);
    assert(numbered_option(name, n).skip(name.len() as int) =~= decimal(n));
}

/// A lock file that cannot be read locks nothing.
pub proof fn law_unreadable_lock_locks_nothing(content: Seq<u8>)
    ensures
        toml_document(content) is None ==> locked_libfuzzer(content) is None,
        toml_document(content) matches Some(lock) ==> locked_libfuzzer(content) == locked_version(
            lock.items_at("package"@),
            "libfuzzer-sys"@,
        ),
{
}

} // verus!
