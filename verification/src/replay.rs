//! Running a target on its corpus, for coverage and for a call graph.

use crate::command::{
    add_features, append_given_flags, append_when, feature_args, given_flags, only_if,
    string_option, CommandLine, CommandModel, Environment,
};
use crate::coverage::text_option;
use crate::options::BuildOptions;
use crate::paths::{join, joined};
use crate::pieces::{is_trimmed, trim};
use crate::project::{add_pair, join3, joined3, FuzzProject};
use crate::text::{append, decimal, decimal_text, texts};
use vstd::prelude::*;

verus! {

/// How many files a worker gets at least.
pub const MIN_BATCH_SIZE: usize = 100;

/// How many workers there are for that many files.
pub open spec fn coverage_workers_for(files: nat, requested: nat) -> nat {
    if files < MIN_BATCH_SIZE {
        1
    } else if files / (MIN_BATCH_SIZE as nat) < requested {
        files / (MIN_BATCH_SIZE as nat)
    } else {
        requested
    }
}

/// How many files each of the workers gets at most.
pub open spec fn batch_size_for(files: nat, workers: nat) -> nat {
    (files + workers - 1) as nat / workers
}

/// How many workers there are, and how many files each of them gets at most.
pub fn coverage_batches(files: usize, requested: usize) -> (r: (usize, usize))
    requires
        files > 0,
        files >= MIN_BATCH_SIZE ==> requested > 0,
    ensures
        r.0 == coverage_workers_for(files as nat, requested as nat),
        r.1 == batch_size_for(files as nat, r.0 as nat),
        r.0 > 0,
        r.1 > 0,
{
    let workers: usize = if files < MIN_BATCH_SIZE {
        1
    } else if files / MIN_BATCH_SIZE < requested {
        files / MIN_BATCH_SIZE
    } else {
        requested
    };
    let quotient: usize = files / workers;
    proof {
        lemma_ceil(files as int, workers as int);
        vstd::arithmetic::div_mod::lemma_div_is_ordered_by_denominator(
            files as int,
            1,
            workers as int,
        );
    }
    let size: usize = if files % workers == 0 {
        quotient
    } else {
        quotient + 1
    };
    (workers, size)
}

/// Rounding up.
proof fn lemma_ceil(n: int, d: int)
    requires
        n > 0,
        d > 0,
    ensures
        (n + d - 1) / d == n / d + (if n % d == 0 {
            0int
        } else {
            1
        }),
        (n + d - 1) / d > 0,
        n % d != 0 ==> n / d < n,
{
    let q = n / d;
    let r = n % d;
    vstd::arithmetic::div_mod::lemma_fundamental_div_mod(n, d);
    vstd::arithmetic::div_mod::lemma_mod_bound(n, d);
    assert(n == d * q + r);
    assert(q >= 0) by (nonlinear_arith)
        requires
            q == n / d,
            n > 0,
            d > 0,
    ;
    if r == 0 {
        vstd::arithmetic::div_mod::lemma_fundamental_div_mod_converse(n + d - 1, d, q, d - 1);
        assert(q > 0) by (nonlinear_arith)
            requires
                n == d * q,
                n > 0,
                d > 0,
        ;
    } else {
        assert(n + d - 1 == d * (q + 1) + (r - 1)) by (nonlinear_arith)
            requires
                n == d * q + r,
        ;
        assert((q + 1) * d + (r - 1) == d * (q + 1) + (r - 1)) by (nonlinear_arith);
        vstd::arithmetic::div_mod::lemma_fundamental_div_mod_converse(n + d - 1, d, q + 1, r - 1);
        assert(d > 1);
        assert(q < n) by (nonlinear_arith)
            requires
                n == d * q + r,
                d > 1,
                r > 0,
                q >= 0,
        ;
    }
}

/// There are no more batches than workers, and together they hold every file.
pub proof fn law_batches_hold_every_file(files: nat, requested: nat)
    requires
        files > 0,
        files >= MIN_BATCH_SIZE ==> requested > 0,
    ensures
        ({
            let workers = coverage_workers_for(files, requested);
            let size = batch_size_for(files, workers);
            &&& 0 < workers
            &&& requested > 0 ==> workers <= requested
            &&& 0 < size
            &&& workers * size >= files
            &&& (files + size - 1) / (size as int) <= workers
        }),
{
    let workers = coverage_workers_for(files, requested);
    let size = batch_size_for(files, workers);
    lemma_ceil(files as int, workers as int);
    vstd::arithmetic::div_mod::lemma_fundamental_div_mod(files as int, workers as int);
    vstd::arithmetic::div_mod::lemma_mod_bound(files as int, workers as int);
    let q = files as int / workers as int;
    let r = files as int % workers as int;
    if r == 0 {
        assert(workers * size >= files) by (nonlinear_arith)
            requires
                files as int == workers as int * q + r,
                r == 0,
                size as int == q,
        ;
    } else {
        assert(workers * size >= files) by (nonlinear_arith)
            requires
                files as int == workers as int * q + r,
                r < workers,
                size as int == q + 1,
        ;
    }
    lemma_ceil(files as int, size as int);
    let batches = (files + size - 1) / (size as int);
    vstd::arithmetic::div_mod::lemma_fundamental_div_mod((files + size - 1) as int, size as int);
    vstd::arithmetic::div_mod::lemma_mod_bound((files + size - 1) as int, size as int);
    let m = (files + size - 1) % (size as int);
    assert(batches <= workers) by (nonlinear_arith)
        requires
            files + size - 1 == size as int * batches + m,
            m >= 0,
            workers * size >= files,
            size > 0,
    ;
}

/// Whether files are cut into these batches: from the first file on, each batch begins where the one
/// before it ends, and each has `size` files, but the last, which has what is left.
pub open spec fn is_cut(files: nat, size: nat, bounds: Seq<(usize, usize)>) -> bool {
    &&& bounds.len() == 0 <==> files == 0
    &&& bounds.len() > 0 ==> bounds[0].0 == 0 && bounds.last().1 == files
    &&& forall|k: int|
        0 < k < bounds.len() ==> (#[trigger] bounds[k]).0 == bounds[k - 1].1 && bounds[k - 1].1
            - bounds[k - 1].0 == size
    &&& bounds.len() > 0 ==> 0 < bounds.last().1 - bounds.last().0 <= size
}

/// Cuts files into batches.
pub fn batch_bounds(files: usize, size: usize) -> (r: Vec<(usize, usize)>)
    requires
        size > 0,
    ensures
        is_cut(files as nat, size as nat, r@),
{
    let mut bounds: Vec<(usize, usize)> = Vec::new();
    let mut at: usize = 0;
    while at < files
        invariant
            size > 0,
            at <= files,
            is_cut(at as nat, size as nat, bounds@),
            at < files && bounds@.len() > 0 ==> bounds@.last().1 - bounds@.last().0 == size,
        decreases files - at,
    {
        let end: usize = if files - at > size {
            at + size
        } else {
            files
        };
        bounds.push((at, end));
        at = end;
    }
    bounds
}

/// Every file is in one batch and in no other, and there are no more batches than that takes.
pub proof fn law_file_is_in_one_batch(files: nat, size: nat, bounds: Seq<(usize, usize)>, file: nat)
    requires
        is_cut(files, size, bounds),
        size > 0,
        file < files,
    ensures
        exists|k: int|
            0 <= k < bounds.len() && (#[trigger] bounds[k]).0 <= file < bounds[k].1 && forall|i: int|
                0 <= i < bounds.len() && (#[trigger] bounds[i]).0 <= file < bounds[i].1 ==> i == k,
        bounds.len() == (files + size - 1) / (size as int),
{
    let n = bounds.len() as int;
    lemma_batch_begins(files, size, bounds, n - 1);
    let last = (n - 1) * size;
    assert(files as int == last + (bounds.last().1 - bounds.last().0));
    let rest = files - last - 1;
    assert(files + size - 1 == n * size + rest) by (nonlinear_arith)
        requires
            last == (n - 1) * size,
            rest == files - last - 1,
    ;
    vstd::arithmetic::div_mod::lemma_fundamental_div_mod_converse(
        files + size - 1,
        size as int,
        n,
        rest,
    );
    let k = file as int / size as int;
    vstd::arithmetic::div_mod::lemma_fundamental_div_mod(file as int, size as int);
    vstd::arithmetic::div_mod::lemma_mod_bound(file as int, size as int);
    assert(0 <= k < n && k * size <= file < (k + 1) * size) by (nonlinear_arith)
        requires
            file as int == size as int * k + (file as int % size as int),
            0 <= file as int % (size as int) < size,
            k == file as int / size as int,
            file < files,
            files <= n * size,
            size > 0,
            0 <= file,
    ;
    lemma_batch_begins(files, size, bounds, k);
    lemma_batch_end(files, size, bounds, k);
    assert(bounds[k].0 <= file < bounds[k].1);
    assert forall|i: int|
        0 <= i < bounds.len() && (#[trigger] bounds[i]).0 <= file < bounds[i].1 implies i == k by {
        lemma_batch_begins(files, size, bounds, i);
        lemma_batch_end(files, size, bounds, i);
        assert(i == k) by (nonlinear_arith)
            requires
                i * size <= file < (i + 1) * size,
                k * size <= file < (k + 1) * size,
                size > 0,
        ;
    }
}

/// Where a batch begins.
proof fn lemma_batch_begins(files: nat, size: nat, bounds: Seq<(usize, usize)>, k: int)
    requires
        is_cut(files, size, bounds),
        0 <= k < bounds.len(),
    ensures
        bounds[k].0 == k * size,
    decreases k,
{
    if k > 0 {
        lemma_batch_begins(files, size, bounds, k - 1);
        assert(k * size == (k - 1) * size + size) by (nonlinear_arith);
        assert(bounds[k].0 == bounds[k - 1].1);
    }
}

/// Where a batch ends.
proof fn lemma_batch_end(files: nat, size: nat, bounds: Seq<(usize, usize)>, k: int)
    requires
        is_cut(files, size, bounds),
        0 <= k < bounds.len(),
    ensures
        bounds[k].1 == (if k == bounds.len() - 1 {
            files as int
        } else {
            (k + 1) * size
        }),
        bounds[k].1 <= (k + 1) * size,
{
    lemma_batch_begins(files, size, bounds, k);
    assert((k + 1) * size == k * size + size) by (nonlinear_arith);
    if k < bounds.len() - 1 {
        lemma_batch_begins(files, size, bounds, k + 1);
        assert(bounds[k + 1].0 == bounds[k].1);
    }
}

/// The file that a batch writes its data to.
pub open spec fn batch_profile(coverage_dir: Seq<char>, batch: nat) -> Seq<char> {
    joined(coverage_dir, "batch-"@ + decimal(batch) + ".profraw"@)
}

fn batch_file(coverage_dir: &str, batch: usize) -> (r: String)
    ensures
        r@ == batch_profile(coverage_dir@, batch as nat),
{
    let mut name = "batch-".to_owned();
    let number = decimal_text(batch as u64);
    append(&mut name, number.as_str());
    append(&mut name, ".profraw");
    join(coverage_dir, name.as_str())
}

/// A command without arguments.
pub open spec fn bare_command(program: Seq<char>) -> CommandModel {
    CommandModel { program, args: Seq::empty(), env: Seq::empty() }
}

/// The command that runs a target on files, for coverage.
pub fn coverage_cmd_with_files(
    binary: &str,
    coverage_dir: &str,
    args: &[String],
    files: &[String],
    batch: usize,
) -> (r: CommandLine)
    ensures
        r@ == bare_command(binary@).with_env(
            "LLVM_PROFILE_FILE"@,
            batch_profile(coverage_dir@, batch as nat),
        ).with(texts(args@)).with(texts(files@)),
{
    let mut cmd = CommandLine::new(binary);
    let profile = batch_file(coverage_dir, batch);
    cmd.env("LLVM_PROFILE_FILE", profile.as_str());
    cmd.args(args);
    cmd.args(files);
    cmd
}

/// The command that runs a target on the files of a directory, for coverage. What it merges goes to
/// a directory that is thrown away.
pub fn coverage_cmd_with_dir(
    binary: &str,
    coverage_dir: &str,
    args: &[String],
    merged: &str,
    corpus: &str,
    batch: usize,
) -> (r: CommandLine)
    ensures
        r@ == bare_command(binary@).with_env(
            "LLVM_PROFILE_FILE"@,
            batch_profile(coverage_dir@, batch as nat),
        ).with(seq!["-merge=1"@, merged@]).with(seq![corpus@]).with(texts(args@)),
{
    let mut cmd = CommandLine::new(binary);
    let profile = batch_file(coverage_dir, batch);
    cmd.env("LLVM_PROFILE_FILE", profile.as_str());
    add_pair(&mut cmd, "-merge=1", merged);
    cmd.arg(corpus);
    cmd.args(args);
    cmd
}

/// The command that merges raw data of coverage.
pub fn merge_command(profdata_tool: &str, raw: &str, merged: &str) -> (r: CommandLine)
    ensures
        r@ == bare_command(profdata_tool@).with(seq!["merge"@, "-sparse"@]).with(seq![raw@]).with(
            seq!["-o"@, merged@],
        ),
{
    let mut cmd = CommandLine::new(profdata_tool);
    add_pair(&mut cmd, "merge", "-sparse");
    cmd.arg(raw);
    add_pair(&mut cmd, "-o", merged);
    cmd
}

/// The command that exports coverage.
pub fn export_command(cov_tool: &str, binary: &str, profdata: &str) -> (r: CommandLine)
    ensures
        r@ == bare_command(cov_tool@).with(seq!["export"@, binary@]).with(
            seq!["-instr-profile="@ + profdata@],
        ),
{
    let mut cmd = CommandLine::new(cov_tool);
    add_pair(&mut cmd, "export", binary);
    let mut profile = "-instr-profile=".to_owned();
    append(&mut profile, profdata);
    cmd.arg(profile.as_str());
    cmd
}

/// The name of a tool of LLVM on this platform.
pub open spec fn tool_name(tool: Seq<char>, suffix: Seq<char>) -> Seq<char> {
    tool + suffix
}

/// Where a tool of LLVM is: in the given directory, or else where the toolchain has it.
pub fn llvm_tool(llvm_path: Option<&str>, toolchain: &str, tool: &str, suffix: &str) -> (r: String)
    ensures
        r@ == joined(
            match llvm_path {
                Some(dir) => dir@,
                None => toolchain@,
            },
            tool_name(tool@, suffix@),
        ),
{
    let mut name = tool.to_owned();
    append(&mut name, suffix);
    match llvm_path {
        Some(dir) => join(dir, name.as_str()),
        None => join(toolchain, name.as_str()),
    }
}

/// Where llvm-cov is: in the given directory; else where the toolchain has it, if it has; else
/// wherever the system finds it.
pub fn llvm_cov_tool(
    llvm_path: Option<&str>,
    toolchain: &str,
    toolchain_has_it: bool,
    suffix: &str,
) -> (r: String)
    ensures
        r@ == (match llvm_path {
            Some(dir) => joined(dir@, tool_name("llvm-cov"@, suffix@)),
            None => if toolchain_has_it {
                joined(toolchain@, tool_name("llvm-cov"@, suffix@))
            } else {
                tool_name("llvm-cov"@, suffix@)
            },
        }),
{
    if llvm_path.is_some() || toolchain_has_it {
        return llvm_tool(llvm_path, toolchain, "llvm-cov", suffix);
    }
    let mut name = "llvm-cov".to_owned();
    append(&mut name, suffix);
    name
}

/// Where a toolchain has its tools, given what the compiler printed for its own place.
pub fn toolchain_bin(sysroot_output: &str, host: &str) -> (r: String)
    ensures
        exists|sysroot: Seq<char>| #[trigger]
            is_trimmed(sysroot_output@, sysroot) && r@ == joined(
                joined(joined3(sysroot, "lib"@, "rustlib"@), host@),
                "bin"@,
            ),
{
    let sysroot = trim(sysroot_output);
    let lib = join3(sysroot.as_str(), "lib", "rustlib");
    join3(lib.as_str(), host, "bin")
}

/// The flags with which the binary of a call graph is compiled.
pub open spec fn callgraph_flags(build: BuildOptions, env: Environment) -> Seq<char> {
    " -Cpasses=sancov-module -Cllvm-args=-sanitizer-coverage-level=3 -Cllvm-args=-sanitizer-coverage-trace-pc-guard -Cllvm-args=-sanitizer-coverage-pc-table -Cinstrument-coverage"@
        + only_if(!build.no_cfg_fuzzing, " --cfg fuzzing"@) + given_flags(
        string_option(env.rustflags),
    )
}

/// The command that builds the binary of a call graph, with the shim in the place of libfuzzer-sys.
pub open spec fn callgraph_model(
    manifest: Seq<char>,
    build: BuildOptions,
    shim: Seq<char>,
    env: Environment,
) -> CommandModel {
    CommandModel {
        program: "cargo"@,
        args: seq!["build"@, "--manifest-path"@, manifest] + only_if(!build.dev, seq!["--release"@])
            + seq!["--target"@, build.triple@] + only_if(build.verbose, seq!["-v"@]) + only_if(
            build.no_default_features,
            seq!["--no-default-features"@],
        ) + only_if(build.all_features, seq!["--all-features"@]) + feature_args(build.features)
            + seq!["--config"@, "patch.crates-io.libfuzzer-sys.path='"@ + shim + "'"@],
        env: only_if(!build.dev, seq![("CARGO_PROFILE_RELEASE_DEBUG"@, "2"@)]) + seq![
            ("RUSTFLAGS"@, callgraph_flags(build, env)),
        ],
    }
}

pub fn cargo_callgraph(
    manifest_path: &str,
    build: &BuildOptions,
    shim_path: &str,
    env: &Environment,
) -> (r: CommandLine)
    ensures
        r@ == callgraph_model(manifest_path@, *build, shim_path@, *env),
{
    let mut cmd = CommandLine::new("cargo");
    add_pair(&mut cmd, "build", "--manifest-path");
    cmd.arg(manifest_path);
    assert(cmd@.args =~= seq!["build"@, "--manifest-path"@, manifest_path@]);
    cmd.arg_when(!build.dev, "--release");
    if !build.dev {
        cmd.env("CARGO_PROFILE_RELEASE_DEBUG", "2");
    }
    assert(cmd@.env =~= only_if(!build.dev, seq![("CARGO_PROFILE_RELEASE_DEBUG"@, "2"@)]));
    add_pair(&mut cmd, "--target", build.triple.as_str());
    cmd.arg_when(build.verbose, "-v");
    cmd.arg_when(build.no_default_features, "--no-default-features");
    cmd.arg_when(build.all_features, "--all-features");
    add_features(&mut cmd, &build.features);
    let mut patch = "patch.crates-io.libfuzzer-sys.path='".to_owned();
    append(&mut patch, shim_path);
    append(&mut patch, "'");
    add_pair(&mut cmd, "--config", patch.as_str());
    let mut flags =
        " -Cpasses=sancov-module -Cllvm-args=-sanitizer-coverage-level=3 -Cllvm-args=-sanitizer-coverage-trace-pc-guard -Cllvm-args=-sanitizer-coverage-pc-table -Cinstrument-coverage".to_owned();
    append_when(&mut flags, !build.no_cfg_fuzzing, " --cfg fuzzing");
    append_given_flags(&mut flags, env);
    let ghost before = cmd@.env;
    cmd.env("RUSTFLAGS", flags.as_str());
    assert(cmd@.env =~= before + seq![("RUSTFLAGS"@, callgraph_flags(*build, *env))]);
    cmd
}

/// Where the binary of a call graph is built: under the given directory, else under that of the
/// environment, else under the current one.
pub open spec fn callgraph_target_dir_of(
    given: Option<Seq<char>>,
    from_env: Option<Seq<char>>,
    current_dir: Seq<char>,
    default_target: Seq<char>,
) -> Seq<char> {
    let base = match (given, from_env) {
        (Some(dir), _) => dir,
        (None, Some(dir)) => dir,
        (None, None) => joined(current_dir, "target"@),
    };
    joined3(base, default_target, "callgraph"@)
}

pub fn callgraph_target_dir(
    given: Option<&str>,
    from_env: Option<&str>,
    current_dir: &str,
    default_target: &str,
) -> (r: String)
    ensures
        r@ == callgraph_target_dir_of(
            text_option(given),
            text_option(from_env),
            current_dir@,
            default_target@,
        ),
{
    match (given, from_env) {
        (Some(dir), _) => join3(dir, default_target, "callgraph"),
        (None, Some(dir)) => join3(dir, default_target, "callgraph"),
        (None, None) => {
            let base = join(current_dir, "target");
            join3(base.as_str(), default_target, "callgraph")
        },
    }
}

impl FuzzProject {
    /// The command that builds the binary of a call graph for a target.
    pub fn callgraph_build_command(
        &self,
        build: &BuildOptions,
        target: &str,
        shim_path: &str,
        target_dir: &str,
        env: &Environment,
    ) -> (r: CommandLine)
        ensures
            r@ == callgraph_model(
                joined(self.dir(), "Cargo.toml"@),
                *build,
                shim_path@,
                *env,
            ).with(seq!["--bin"@, target@]).with(seq!["--target-dir"@, target_dir@]),
    {
        let manifest = self.manifest_path();
        let mut cmd = cargo_callgraph(manifest.as_str(), build, shim_path, env);
        add_pair(&mut cmd, "--bin", target);
        add_pair(&mut cmd, "--target-dir", target_dir);
        cmd
    }
}

/// The command that replays a seed, and records what it reaches.
pub fn replay_command(
    binary: &str,
    edges_dir: &str,
    profraw_dir: &str,
    stem: &str,
    seed: &str,
    args: &[String],
) -> (r: CommandLine)
    ensures
        r@ == bare_command(binary@).with_env(
            "CALLGRAPH_EDGES_FILE"@,
            joined(edges_dir@, stem@ + ".json"@),
        ).with_env("LLVM_PROFILE_FILE"@, joined(profraw_dir@, stem@ + ".profraw"@)).with(
            seq![seed@, "--"@],
        ).with(texts(args@)),
{
    let mut cmd = CommandLine::new(binary);
    let edges = edge_file(edges_dir, stem);
    cmd.env("CALLGRAPH_EDGES_FILE", edges.as_str());
    let mut name = stem.to_owned();
    append(&mut name, ".profraw");
    let profile = join(profraw_dir, name.as_str());
    cmd.env("LLVM_PROFILE_FILE", profile.as_str());
    add_pair(&mut cmd, seed, "--");
    cmd.args(args);
    cmd
}

/// The file that the replay of a seed writes transitions to.
pub fn edge_file(edges_dir: &str, stem: &str) -> (r: String)
    ensures
        r@ == joined(edges_dir@, stem@ + ".json"@),
{
    let mut name = stem.to_owned();
    append(&mut name, ".json");
    join(edges_dir, name.as_str())
}

/// How many seeds are replayed at a time: as many as wanted, but no more than there are, and at
/// least one.
pub fn replay_workers(jobs: u16, seeds: usize) -> (r: usize)
    ensures
        r == (if seeds == 0 || jobs == 0 {
            1
        } else if jobs < seeds {
            jobs as int
        } else {
            seeds as int
        }),
{
    let jobs = jobs as usize;
    let n: usize = if jobs < seeds {
        jobs
    } else {
        seeds
    };
    if n == 0 {
        1
    } else {
        n
    }
}

} // verus!
