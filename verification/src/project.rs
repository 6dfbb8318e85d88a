//! A fuzz project: where its files are, and which commands work on it.

use crate::command::{
    cargo, cargo_model, only_if, string_option, CommandLine, CommandModel, Compiler, Environment,
};
use crate::coverage::text_option;
use crate::manifest::{bin_names, collect_targets, is_fuzz_manifest, says_fuzz, sorted_texts};
use crate::options::{BuildMode, BuildOptions};
use crate::paths::{
    ends_with, extended, join, joined, path_ends_with, path_rest, path_starts_with, spans,
    strip_prefix, with_extension,
};
use crate::text::{append, copy_strings, decimal, decimal_text, texts};
use crate::tree::{parse_toml, toml_document, Tree};
use vstd::prelude::*;

verus! {

/// The directory of a fuzz project within its package.
pub const DEFAULT_FUZZ_DIR: &'static str = "fuzz";

/// The directory of the fuzz targets within a fuzz project.
pub const FUZZ_TARGETS_DIR: &'static str = "fuzz_targets";

/// What that directory was called in the past.
pub const FUZZ_TARGETS_DIR_OLD: &'static str = "fuzzers";

/// A fuzz project.
pub struct FuzzProject {
    fuzz_dir: String,
    targets: Vec<String>,
}

/// Why a directory is no fuzz project.
#[derive(Clone, Copy, Debug, PartialEq, Eq, Structural)]
pub enum ProjectError {
    /// The manifest cannot be read.
    Undecodable,
    /// The manifest does not say that it is one of a fuzz project.
    NotFuzz,
}

impl ProjectError {
    /// What to say of the manifest at a path.
    pub fn message(self, manifest_path: &str) -> (r: String)
        ensures
            r@ == (match self {
                ProjectError::Undecodable => "could not decode the manifest file at "@
                    + manifest_path@,
                ProjectError::NotFuzz => "manifest `"@ + manifest_path@
                    + "` does not look like a cargo-fuzz manifest. Add following lines to override:\n[package.metadata]\ncargo-fuzz = true"@,
            }),
    {
        match self {
            ProjectError::Undecodable => {
                let mut out = "could not decode the manifest file at ".to_owned();
                append(&mut out, manifest_path);
                out
            },
            ProjectError::NotFuzz => {
                let mut out = "manifest `".to_owned();
                append(&mut out, manifest_path);
                append(
                    &mut out,
                    "` does not look like a cargo-fuzz manifest. Add following lines to override:\n[package.metadata]\ncargo-fuzz = true",
                );
                out
            },
        }
    }
}

/// The path to a file of a project, one step after the other.
pub open spec fn joined3(a: Seq<char>, b: Seq<char>, c: Seq<char>) -> Seq<char> {
    joined(joined(a, b), c)
}

pub(crate) fn join3(a: &str, b: &str, c: &str) -> (r: String)
    ensures
        r@ == joined3(a@, b@, c@),
{
    let ab = join(a, b);
    join(ab.as_str(), c)
}

/// The place of a binary under a directory of build results.
pub open spec fn binary_path(
    target_dir: Seq<char>,
    triple: Seq<char>,
    dev: bool,
    target: Seq<char>,
) -> Seq<char> {
    joined(
        joined(
            joined(target_dir, triple),
            if dev {
                "debug"@
            } else {
                "release"@
            },
        ),
        target,
    )
}

pub fn find_binary(target_dir: &str, build: &BuildOptions, target: &str) -> (r: String)
    ensures
        r@ == binary_path(target_dir@, build.triple@, build.dev, target@),
{
    let profile = if build.dev {
        "debug"
    } else {
        "release"
    };
    let dir = join3(target_dir, build.triple.as_str(), profile);
    join(dir.as_str(), target)
}

/// The text behind which libFuzzer is told where to put what it finds.
pub open spec fn artifact_prefix(artifacts: Seq<char>) -> Seq<char> {
    "-artifact_prefix="@ + artifacts
}

pub(crate) fn artifact_arg(artifacts: &str) -> (r: String)
    ensures
        r@ == artifact_prefix(artifacts@),
{
    let mut out = "-artifact_prefix=".to_owned();
    append(&mut out, artifacts);
    out
}

/// An option with a number.
pub open spec fn numbered_option(name: Seq<char>, n: nat) -> Seq<char> {
    name + decimal(n)
}

pub(crate) fn number_option(name: &str, n: u64) -> (r: String)
    ensures
        r@ == numbered_option(name@, n as nat),
{
    let mut out = name.to_owned();
    let number = decimal_text(n);
    append(&mut out, number.as_str());
    out
}

/// Where corpora are looked for: in the given places, or in the corpus of the target.
pub open spec fn corpus_dirs(given: Seq<Seq<char>>, default: Seq<char>) -> Seq<Seq<char>> {
    if given.len() == 0 {
        seq![default]
    } else {
        given
    }
}

/// Where the build results go, if not where cargo puts them.
pub open spec fn target_dir_of(
    build: BuildOptions,
    current_dir: Seq<char>,
    default_target: Seq<char>,
) -> Option<Seq<char>> {
    match build.target_dir {
        Some(dir) => Some(dir@),
        None => if build.coverage {
            Some(joined(joined3(current_dir, "target"@, default_target), "coverage"@))
        } else {
            None
        },
    }
}

pub fn target_dir(build: &BuildOptions, current_dir: &str, default_target: &str) -> (r: Option<
    String,
>)
    ensures
        string_option(r) == target_dir_of(*build, current_dir@, default_target@),
{
    match &build.target_dir {
        Some(dir) => Some(dir.clone()),
        None => if build.coverage {
            let dir = join3(current_dir, "target", default_target);
            Some(join(dir.as_str(), "coverage"))
        } else {
            None
        },
    }
}

impl FuzzProject {
    /// Where the project is.
    pub closed spec fn dir(&self) -> Seq<char> {
        self.fuzz_dir@
    }

    /// Its targets.
    pub closed spec fn target_names(&self) -> Seq<Seq<char>> {
        texts(self.targets@)
    }

    /// A project in a directory, of which nothing else is known.
    pub fn at(fuzz_dir: &str) -> (r: FuzzProject)
        ensures
            r.dir() == fuzz_dir@,
            r.target_names() == Seq::<Seq<char>>::empty(),
    {
        let r = FuzzProject { fuzz_dir: fuzz_dir.to_owned(), targets: Vec::new() };
        assert(r.target_names() =~= Seq::empty());
        r
    }

    /// The project in a directory, given its manifest.
    pub fn with_manifest(fuzz_dir: &str, manifest: &Tree) -> (r: Result<FuzzProject, ProjectError>)
        ensures
            r is Ok <==> says_fuzz(manifest@),
            r matches Err(e) ==> e == ProjectError::NotFuzz,
            r matches Ok(p) ==> {
                &&& p.dir() == fuzz_dir@
                &&& sorted_texts(p.target_names())
                &&& p.target_names().to_multiset() == bin_names(
                    manifest@.items_at("bin"@),
                ).to_multiset()
            },
    {
        if !is_fuzz_manifest(manifest) {
            return Err(ProjectError::NotFuzz);
        }
        Ok(FuzzProject { fuzz_dir: fuzz_dir.to_owned(), targets: collect_targets(manifest) })
    }

    /// The project in a directory, given the bytes of its manifest.
    pub fn new(fuzz_dir: &str, manifest: &[u8]) -> (r: Result<FuzzProject, ProjectError>)
        ensures
            r matches Err(e) ==> (e == ProjectError::Undecodable <==> toml_document(manifest@)
                is None),
            r is Ok <==> toml_document(manifest@) is Some && says_fuzz(toml_document(manifest@)->0),
            r matches Ok(p) ==> {
                &&& p.dir() == fuzz_dir@
                &&& sorted_texts(p.target_names())
                &&& p.target_names().to_multiset() == bin_names(
                    toml_document(manifest@)->0.items_at("bin"@),
                ).to_multiset()
            },
    {
        match parse_toml(manifest) {
            Some(tree) => FuzzProject::with_manifest(fuzz_dir, &tree),
            None => Err(ProjectError::Undecodable),
        }
    }

    pub fn fuzz_dir(&self) -> (r: &str)
        ensures
            r@ == self.dir(),
    {
        self.fuzz_dir.as_str()
    }

    /// The names of the targets.
    pub fn list_targets(&self) -> (r: &[String])
        ensures
            texts(r@) == self.target_names(),
    {
        self.targets.as_slice()
    }

    pub fn manifest_path(&self) -> (r: String)
        ensures
            r@ == joined(self.dir(), "Cargo.toml"@),
    {
        join(self.fuzz_dir.as_str(), "Cargo.toml")
    }

    /// Where the raw data of the coverage of a target go, and where the merged data go.
    pub fn coverage_for(&self, target: &str) -> (r: (String, String))
        ensures
            r.0@ == joined(joined3(self.dir(), "coverage"@, target@), "raw"@),
            r.1@ == joined(joined3(self.dir(), "coverage"@, target@), "coverage.profdata"@),
    {
        let dir = join3(self.fuzz_dir.as_str(), "coverage", target);
        (join(dir.as_str(), "raw"), join(dir.as_str(), "coverage.profdata"))
    }

    pub fn corpus_for(&self, target: &str) -> (r: String)
        ensures
            r@ == joined3(self.dir(), "corpus"@, target@),
    {
        join3(self.fuzz_dir.as_str(), "corpus", target)
    }

    /// Where seeds are looked for.
    pub fn corpora(&self, given: &[String], target: &str) -> (r: Vec<String>)
        ensures
            texts(r@) == corpus_dirs(texts(given@), joined3(self.dir(), "corpus"@, target@)),
    {
        if given.len() > 0 {
            return copy_strings(given);
        }
        let mut out: Vec<String> = Vec::new();
        out.push(self.corpus_for(target));
        assert(texts(out@) =~= seq![joined3(self.dir(), "corpus"@, target@)]);
        out
    }

    /// Where seeds are looked for, where there is only one place for them.
    pub fn main_corpus(&self, given: &[String], target: &str) -> (r: String)
        ensures
            r@ == corpus_dirs(texts(given@), joined3(self.dir(), "corpus"@, target@))[0],
    {
        if given.len() > 0 {
            given[0].clone()
        } else {
            self.corpus_for(target)
        }
    }

    /// Where libFuzzer puts what it finds. The path ends with a separator, since libFuzzer only
    /// appends the name of a file to it.
    pub fn artifacts_for(&self, target: &str) -> (r: String)
        ensures
            r@ == self.artifacts(target@),
    {
        let dir = join3(self.fuzz_dir.as_str(), "artifacts", target);
        join(dir.as_str(), "")
    }

    pub open spec fn artifacts(&self, target: Seq<char>) -> Seq<char> {
        joined(joined3(self.dir(), "artifacts"@, target), ""@)
    }

    /// Where the data of a call graph go: the raw data, the transitions, and the graph itself.
    pub fn callgraph_for(&self, target: &str) -> (r: (String, String, String))
        ensures
            r.0@ == joined(joined3(self.dir(), "callgraph"@, target@), "raw"@),
            r.1@ == joined(joined3(self.dir(), "callgraph"@, target@), "edges"@),
            r.2@ == joined(joined3(self.dir(), "callgraph"@, target@), "callgraph.dot"@),
    {
        let dir = join3(self.fuzz_dir.as_str(), "callgraph", target);
        (
            join(dir.as_str(), "raw"),
            join(dir.as_str(), "edges"),
            join(dir.as_str(), "callgraph.dot"),
        )
    }

    pub open spec fn targets_dir(&self, old_exists: bool) -> Seq<char> {
        joined(
            self.dir(),
            if old_exists {
                FUZZ_TARGETS_DIR_OLD@
            } else {
                FUZZ_TARGETS_DIR@
            },
        )
    }

    /// Where the fuzz targets are; in a directory of the old name if there is one.
    pub fn fuzz_targets_dir(&self, old_exists: bool) -> (r: String)
        ensures
            r@ == self.targets_dir(old_exists),
    {
        if old_exists {
            join(self.fuzz_dir.as_str(), FUZZ_TARGETS_DIR_OLD)
        } else {
            join(self.fuzz_dir.as_str(), FUZZ_TARGETS_DIR)
        }
    }

    /// The source file of a target.
    pub fn target_path(&self, target: &str, old_exists: bool) -> (r: String)
        ensures
            r@ == extended(joined(self.targets_dir(old_exists), target@), "rs"@),
    {
        let dir = self.fuzz_targets_dir(old_exists);
        let path = join(dir.as_str(), target);
        proof {
            reveal_strlit("rs");
        }
        with_extension(path.as_str(), "rs")
    }

    pub open spec fn is_default(&self) -> bool {
        path_ends_with(self.dir(), DEFAULT_FUZZ_DIR@)
    }

    pub fn fuzz_dir_is_default_path(&self) -> (r: bool)
        ensures
            r == self.is_default(),
    {
        ends_with(self.fuzz_dir.as_str(), DEFAULT_FUZZ_DIR)
    }

    /// What names the project in a command that is shown to the user.
    pub fn fuzz_dir_option(&self) -> (r: String)
        ensures
            r@ == only_if(!self.is_default(), " --fuzz-dir "@ + self.dir()),
    {
        let mut out = String::new();
        if !self.fuzz_dir_is_default_path() {
            append(&mut out, " --fuzz-dir ");
            append(&mut out, self.fuzz_dir.as_str());
        }
        assert(out@ =~= only_if(!self.is_default(), " --fuzz-dir "@ + self.dir()));
        out
    }

    /// A command of this program, as it is shown to the user.
    pub fn hint(&self, subcommand: &str, options: &str, target: &str, artifact: &str) -> (r: String)
        ensures
            r@ == "cargo fuzz "@ + subcommand@ + only_if(
                !self.is_default(),
                " --fuzz-dir "@ + self.dir(),
            ) + options@ + " "@ + target@ + " "@ + artifact@,
    {
        let mut out = "cargo fuzz ".to_owned();
        append(&mut out, subcommand);
        let dir = self.fuzz_dir_option();
        append(&mut out, dir.as_str());
        append(&mut out, options);
        append(&mut out, " ");
        append(&mut out, target);
        append(&mut out, " ");
        append(&mut out, artifact);
        out
    }

    /// The command of cargo for this project.
    pub open spec fn cargo_model(
        &self,
        subcommand: Seq<char>,
        build: BuildOptions,
        compiler: Compiler,
        env: Environment,
    ) -> CommandModel {
        cargo_model(subcommand, joined(self.dir(), "Cargo.toml"@), build, compiler, env)
    }

    pub fn cargo(
        &self,
        subcommand: &str,
        build: &BuildOptions,
        compiler: &Compiler,
        env: &Environment,
    ) -> (r: CommandLine)
        ensures
            r@ == self.cargo_model(subcommand@, *build, *compiler, *env),
    {
        let manifest = self.manifest_path();
        cargo(subcommand, manifest.as_str(), build, compiler, env)
    }

    /// The command that runs a target.
    pub open spec fn run_model(
        &self,
        build: BuildOptions,
        target: Seq<char>,
        compiler: Compiler,
        env: Environment,
    ) -> CommandModel {
        self.cargo_model("run"@, build, compiler, env).with(seq!["--bin"@, target]).with(
            target_dir_args(string_option(build.target_dir)),
        ).with(seq!["--"@, artifact_prefix(self.artifacts(target))])
    }

    pub fn cargo_run(
        &self,
        build: &BuildOptions,
        target: &str,
        compiler: &Compiler,
        env: &Environment,
    ) -> (r: CommandLine)
        ensures
            r@ == self.run_model(*build, target@, *compiler, *env),
    {
        let mut cmd = self.cargo("run", build, compiler, env);
        add_pair(&mut cmd, "--bin", target);
        add_target_dir(&mut cmd, &build.target_dir);
        let artifacts = self.artifacts_for(target);
        let arg = artifact_arg(artifacts.as_str());
        add_pair(&mut cmd, "--", arg.as_str());
        cmd
    }

    /// The command that builds or checks a target, or all of them.
    pub fn build_command(
        &self,
        mode: BuildMode,
        build: &BuildOptions,
        target: Option<&str>,
        target_dir: &Option<String>,
        compiler: &Compiler,
        env: &Environment,
    ) -> (r: CommandLine)
        ensures
            r@ == self.cargo_model(
                if mode == BuildMode::Build {
                    "build"@
                } else {
                    "check"@
                },
                *build,
                *compiler,
                *env,
            ).with(
                match target {
                    Some(target) => seq!["--bin"@, target@],
                    None => seq!["--bins"@],
                },
            ).with(target_dir_args(string_option(*target_dir))),
    {
        let subcommand = match mode {
            BuildMode::Build => "build",
            BuildMode::Check => "check",
        };
        let mut cmd = self.cargo(subcommand, build, compiler, env);
        match target {
            Some(target) => add_pair(&mut cmd, "--bin", target),
            None => cmd.arg("--bins"),
        }
        add_target_dir(&mut cmd, target_dir);
        cmd
    }

    /// The command that fuzzes a target.
    pub fn fuzz_command(
        &self,
        build: &BuildOptions,
        target: &str,
        corpus: &[String],
        args: &[String],
        jobs: u16,
        compiler: &Compiler,
        env: &Environment,
    ) -> (r: CommandLine)
        ensures
            r@ == self.run_model(*build, target@, *compiler, *env).with(texts(args@)).with(
                corpus_dirs(texts(corpus@), joined3(self.dir(), "corpus"@, target@)),
            ).with(only_if(jobs != 1, seq![numbered_option("-fork="@, jobs as nat)])),
    {
        let mut cmd = self.cargo_run(build, target, compiler, env);
        cmd.args(args);
        let dirs = self.corpora(corpus, target);
        cmd.args(dirs.as_slice());
        let fork = number_option("-fork=", jobs as u64);
        cmd.arg_when(jobs != 1, fork.as_str());
        cmd
    }

    /// The command that makes an input smaller.
    pub fn tmin_command(
        &self,
        build: &BuildOptions,
        target: &str,
        runs: u32,
        test_case: &str,
        args: &[String],
        compiler: &Compiler,
        env: &Environment,
    ) -> (r: CommandLine)
        ensures
            r@ == self.run_model(*build, target@, *compiler, *env).with(
                seq!["-minimize_crash=1"@, numbered_option("-runs="@, runs as nat)],
            ).with(seq![test_case@]).with(texts(args@)),
    {
        let mut cmd = self.cargo_run(build, target, compiler, env);
        let runs = number_option("-runs=", runs as u64);
        add_pair(&mut cmd, "-minimize_crash=1", runs.as_str());
        cmd.arg(test_case);
        cmd.args(args);
        cmd
    }

    /// The command that makes a corpus smaller.
    pub fn cmin_command(
        &self,
        build: &BuildOptions,
        target: &str,
        args: &[String],
        new_corpus: &str,
        corpus: &str,
        compiler: &Compiler,
        env: &Environment,
    ) -> (r: CommandLine)
        ensures
            r@ == self.run_model(*build, target@, *compiler, *env).with(texts(args@)).with(
                seq!["-merge=1"@, new_corpus@],
            ).with(seq![corpus@]),
    {
        let mut cmd = self.cargo_run(build, target, compiler, env);
        cmd.args(args);
        add_pair(&mut cmd, "-merge=1", new_corpus);
        cmd.arg(corpus);
        cmd
    }

    /// The command that prints an input in a readable form.
    pub fn debug_command(
        &self,
        build: &BuildOptions,
        target: &str,
        output: &str,
        artifact: &str,
        compiler: &Compiler,
        env: &Environment,
    ) -> (r: CommandLine)
        ensures
            r@ == self.run_model(*build, target@, *compiler, *env).with_env(
                "RUST_LIBFUZZER_DEBUG_PATH"@,
                output@,
            ).with(seq![artifact@]),
    {
        let mut cmd = self.cargo_run(build, target, compiler, env);
        cmd.env("RUST_LIBFUZZER_DEBUG_PATH", output);
        cmd.arg(artifact);
        cmd
    }
}

pub open spec fn target_dir_args(dir: Option<Seq<char>>) -> Seq<Seq<char>> {
    match dir {
        Some(dir) => seq!["--target-dir"@, dir],
        None => Seq::empty(),
    }
}

pub(crate) fn add_pair(cmd: &mut CommandLine, a: &str, b: &str)
    ensures
        final(cmd)@ == old(cmd)@.with(seq![a@, b@]),
{
    cmd.pair_when(true, a, b);
}

pub(crate) fn add_target_dir(cmd: &mut CommandLine, dir: &Option<String>)
    ensures
        final(cmd)@ == old(cmd)@.with(target_dir_args(string_option(*dir))),
{
    if let Some(dir) = dir {
        add_pair(cmd, "--target-dir", dir.as_str());
    }
    assert(cmd@.args =~= old(cmd)@.args + target_dir_args(string_option(*dir)));
}

/// Whether a manifest is that of a package, and not that of a fuzz project.
pub fn is_package(manifest: &[u8]) -> (r: Result<bool, ProjectError>)
    ensures
        r is Err <==> toml_document(manifest@) is None,
        r matches Err(e) ==> e == ProjectError::Undecodable,
        r matches Ok(found) ==> found == !says_fuzz(toml_document(manifest@)->0),
{
    match parse_toml(manifest) {
        Some(tree) => Ok(!is_fuzz_manifest(&tree)),
        None => Err(ProjectError::Undecodable),
    }
}

/// What is in the directory where libFuzzer puts what it finds.
pub struct Artifact {
    pub path: String,
    pub is_file: bool,
    /// When it was last written, in nanoseconds.
    pub modified: u128,
}

/// Whether a file was written after a time.
pub open spec fn is_new(artifact: Artifact, since: u128) -> bool {
    artifact.is_file && artifact.modified > since
}

/// Those of the files that were written after a time.
pub open spec fn new_of(entries: Seq<Artifact>, since: u128) -> Seq<(Seq<char>, u128)>
    decreases entries.len(),
{
    if entries.len() == 0 {
        Seq::empty()
    } else {
        let before = new_of(entries.drop_last(), since);
        let last = entries.last();
        if is_new(last, since) {
            before.push((last.path@, last.modified))
        } else {
            before
        }
    }
}

pub open spec fn times_of(artifacts: Seq<(String, u128)>) -> Seq<(Seq<char>, u128)> {
    Seq::new(artifacts.len(), |i: int| (artifacts[i].0@, artifacts[i].1))
}

/// The files that were written after a time, with the times when they were.
pub fn artifacts_since(entries: &[Artifact], since: u128) -> (r: Vec<(String, u128)>)
    ensures
        times_of(r@) == new_of(entries@, since),
{
    let mut out: Vec<(String, u128)> = Vec::new();
    let n = entries.len();
    let mut i: usize = 0;
    assert(entries@.take(0).len() == 0);
    assert(times_of(out@) =~= Seq::empty());
    while i < n
        invariant
            n == entries@.len(),
            i <= n,
            times_of(out@) == new_of(entries@.take(i as int), since),
        decreases n - i,
    {
        let entry = &entries[i];
        assert(entries@.take(i + 1).drop_last() =~= entries@.take(i as int));
        if entry.is_file && entry.modified > since {
            let ghost before = out@;
            out.push((entry.path.clone(), entry.modified));
            assert(times_of(out@) =~= times_of(before).push((entry.path@, entry.modified)));
        }
        i = i + 1;
    }
    assert(entries@.take(n as int) =~= entries@);
    out
}

/// The file that was written last; of several, the last of the list.
pub fn latest_artifact(artifacts: &[(String, u128)]) -> (r: Option<usize>)
    ensures
        r is None <==> artifacts@.len() == 0,
        r matches Some(i) ==> i < artifacts@.len() && forall|k: int|
            0 <= k < artifacts@.len() ==> (#[trigger] artifacts@[k]).1 <= artifacts@[i as int].1 && (k
                > i ==> artifacts@[k].1 < artifacts@[i as int].1),
{
    let n = artifacts.len();
    if n == 0 {
        return None;
    }
    let mut best: usize = 0;
    let mut i: usize = 1;
    while i < n
        invariant
            n == artifacts@.len(),
            best < i <= n,
            forall|k: int|
                0 <= k < i ==> (#[trigger] artifacts@[k]).1 <= artifacts@[best as int].1 && (k > best
                    ==> artifacts@[k].1 < artifacts@[best as int].1),
        decreases n - i,
    {
        if artifacts[i].1 >= artifacts[best].1 {
            best = i;
        }
        i = i + 1;
    }
    Some(best)
}

/// A path as it is shown: without the current directory in front, where it is known.
pub open spec fn shown_path(path: Seq<char>, current_dir: Option<Seq<char>>) -> Seq<char> {
    match current_dir {
        Some(dir) if path_starts_with(path, dir) => path_rest(path, spans(dir).len() as int),
        _ => path,
    }
}

pub fn strip_current_dir_prefix(path: &str, current_dir: Option<&str>) -> (r: String)
    ensures
        r@ == shown_path(path@, text_option(current_dir)),
{
    if let Some(dir) = current_dir {
        if let Some(rest) = strip_prefix(path, dir) {
            return rest;
        }
    }
    path.to_owned()
}

/// A build for a report of coverage always has its own place, so that it can run beside another.
pub proof fn law_coverage_has_its_place(
    build: BuildOptions,
    current_dir: Seq<char>,
    default_target: Seq<char>,
)
    requires
        build.coverage,
    ensures
        target_dir_of(build, current_dir, default_target) is Some,
{
}

/// The path that libFuzzer is given to put files in ends with a separator, so that the name of a
/// file can be appended.
pub proof fn law_artifacts_end_with_separator(project: FuzzProject, target: Seq<char>)
    ensures
        project.artifacts(target).len() > 0,
        project.artifacts(target).last() == '/',
{
    reveal_strlit("");
    reveal_strlit("artifacts");
    let dir = joined3(project.dir(), "artifacts"@, target);
    assert(project.artifacts(target) =~= if dir.last() == '/' {
        dir
    } else {
        dir.push('/')
    });
}

} // verus!
