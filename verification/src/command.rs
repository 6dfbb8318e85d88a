//! The commands that are run.

use crate::options::{sanitizer_text, BuildOptions, Sanitizer};
use crate::text::{
    append, chars_of, contains, decimal, decimal_text, text_contains, text_ends_with, texts,
};
use vstd::prelude::*;

verus! {

/// A command: a program, what is passed to it, and what is put in its environment.
#[derive(Debug)]
pub struct CommandLine {
    pub program: String,
    pub args: Vec<String>,
    pub env: Vec<(String, String)>,
}

/// A command as texts.
#[verifier::ext_equal]
pub struct CommandModel {
    pub program: Seq<char>,
    pub args: Seq<Seq<char>>,
    pub env: Seq<(Seq<char>, Seq<char>)>,
}

pub open spec fn pair_texts(v: Seq<(String, String)>) -> Seq<(Seq<char>, Seq<char>)> {
    Seq::new(v.len(), |i: int| (v[i].0@, v[i].1@))
}

impl View for CommandLine {
    type V = CommandModel;

    open spec fn view(&self) -> CommandModel {
        CommandModel {
            program: self.program@,
            args: texts(self.args@),
            env: pair_texts(self.env@),
        }
    }
}

/// The sequence, if the condition holds.
pub open spec fn only_if<T>(on: bool, s: Seq<T>) -> Seq<T> {
    if on {
        s
    } else {
        Seq::empty()
    }
}

impl CommandModel {
    pub open spec fn with(self, args: Seq<Seq<char>>) -> CommandModel {
        CommandModel { args: self.args + args, ..self }
    }

    pub open spec fn with_env(self, key: Seq<char>, value: Seq<char>) -> CommandModel {
        CommandModel { env: self.env.push((key, value)), ..self }
    }
}

impl CommandLine {
    pub fn new(program: &str) -> (r: Self)
        ensures
            r@ == (CommandModel {
                program: program@,
                args: Seq::empty(),
                env: Seq::empty(),
            }),
    {
        let r = CommandLine { program: program.to_owned(), args: Vec::new(), env: Vec::new() };
        assert(texts(r.args@) =~= Seq::empty());
        assert(pair_texts(r.env@) =~= Seq::empty());
        r
    }

    /// Passes an argument.
    pub fn arg(&mut self, a: &str)
        ensures
            final(self)@ == old(self)@.with(seq![a@]),
    {
        let ghost before = self.args@;
        self.args.push(a.to_owned());
        assert(texts(self.args@) =~= texts(before) + seq![a@]);
    }

    /// Passes an argument if the condition holds.
    pub fn arg_when(&mut self, on: bool, a: &str)
        ensures
            final(self)@ == old(self)@.with(only_if(on, seq![a@])),
    {
        if on {
            self.arg(a);
        }
        assert(self@.args =~= old(self)@.args + only_if(on, seq![a@]));
    }

    /// Passes two arguments if the condition holds.
    pub fn pair_when(&mut self, on: bool, a: &str, b: &str)
        ensures
            final(self)@ == old(self)@.with(only_if(on, seq![a@, b@])),
    {
        if on {
            self.arg(a);
            self.arg(b);
        }
        assert(self@.args =~= old(self)@.args + only_if(on, seq![a@, b@]));
    }

    /// Passes the arguments of a list.
    pub fn args(&mut self, list: &[String])
        ensures
            final(self)@ == old(self)@.with(texts(list@)),
    {
        let ghost before = self@.args;
        let ghost all = texts(list@);
        let n = list.len();
        let mut i: usize = 0;
        assert(self@.args =~= before + all.take(0));
        while i < n
            invariant
                all == texts(list@),
                n == list@.len(),
                i <= n,
                self@.program == old(self)@.program,
                self@.env == old(self)@.env,
                self@.args == before + all.take(i as int),
            decreases n - i,
        {
            self.arg(list[i].as_str());
            assert(self@.args =~= before + all.take(i + 1));
            i = i + 1;
        }
        assert(all.take(n as int) =~= all);
    }

    /// Puts a value in the environment.
    pub fn env(&mut self, key: &str, value: &str)
        ensures
            final(self)@ == old(self)@.with_env(key@, value@),
    {
        let ghost before = self.env@;
        self.env.push((key.to_owned(), value.to_owned()));
        assert(pair_texts(self.env@) =~= pair_texts(before).push((key@, value@)));
    }
}

/// What the environment holds.
pub struct Environment {
    pub rustflags: Option<String>,
    pub asan_options: Option<String>,
    pub tsan_options: Option<String>,
}

/// What is known of the compiler.
#[derive(Clone, Copy, Debug, PartialEq, Eq, Structural)]
pub struct Compiler {
    pub nightly: bool,
    /// Whether it takes sanitizers as an ordinary option.
    pub sanitizers_on_stable: bool,
}

pub open spec fn string_option(s: Option<String>) -> Option<Seq<char>> {
    match s {
        Some(s) => Some(s@),
        None => None,
    }
}

/// Options of a sanitizer, added to those that are there, with a colon between.
pub open spec fn joined_options(given: Option<Seq<char>>, more: Seq<char>) -> Seq<char> {
    match given {
        Some(given) if given.len() > 0 => given + ":"@ + more,
        _ => more,
    }
}

fn join_options(given: &Option<String>, more: &str) -> (r: String)
    ensures
        r@ == joined_options(string_option(*given), more@),
{
    if let Some(given) = given {
        if chars_of(given.as_str()).len() > 0 {
            let mut out = given.clone();
            append(&mut out, ":");
            append(&mut out, more);
            return out;
        }
    }
    more.to_owned()
}

/// What a sanitizer finds in the environment.
pub open spec fn sanitizer_env(sanitizer: Sanitizer, env: Environment) -> Seq<
    (Seq<char>, Seq<char>),
> {
    match sanitizer {
        Sanitizer::Address => seq![
            (
                "ASAN_OPTIONS"@,
                joined_options(string_option(env.asan_options), "detect_odr_violation=0"@),
            ),
        ],
        Sanitizer::Thread => seq![
            (
                "TSAN_OPTIONS"@,
                joined_options(string_option(env.tsan_options), "report_signal_unsafe=0"@),
            ),
        ],
        _ => Seq::empty(),
    }
}

/// Puts in the environment what the sanitizer needs.
pub fn add_sanitizer_env(cmd: &mut CommandLine, build: &BuildOptions, env: &Environment)
    ensures
        final(cmd)@ == (CommandModel {
            env: old(cmd)@.env + sanitizer_env(build.sanitizer, *env),
            ..old(cmd)@
        }),
{
    let ghost before = cmd@;
    match build.sanitizer {
        Sanitizer::Address => {
            let value = join_options(&env.asan_options, "detect_odr_violation=0");
            cmd.env("ASAN_OPTIONS", value.as_str());
        },
        Sanitizer::Thread => {
            let value = join_options(&env.tsan_options, "report_signal_unsafe=0");
            cmd.env("TSAN_OPTIONS", value.as_str());
        },
        _ => {},
    }
    assert(cmd@.env =~= before.env + sanitizer_env(build.sanitizer, *env));
}

/// The variables that the sanitizer needs.
pub fn sanitizer_env_vars(build: &BuildOptions, env: &Environment) -> (r: Vec<(String, String)>)
    ensures
        pair_texts(r@) == sanitizer_env(build.sanitizer, *env),
{
    let mut cmd = CommandLine::new("");
    add_sanitizer_env(&mut cmd, build, env);
    assert(cmd@.env =~= sanitizer_env(build.sanitizer, *env));
    cmd.env
}

pub(crate) fn append_when(s: &mut String, on: bool, more: &str)
    ensures
        final(s)@ == old(s)@ + only_if(on, more@),
{
    if on {
        append(s, more);
    }
    assert(s@ =~= old(s)@ + only_if(on, more@));
}

/// For each flag, `-Z` and the flag.
pub open spec fn unstable_args(flags: Seq<Seq<char>>) -> Seq<Seq<char>>
    decreases flags.len(),
{
    if flags.len() == 0 {
        Seq::empty()
    } else {
        unstable_args(flags.drop_last()) + seq!["-Z"@, flags.last()]
    }
}

pub open spec fn feature_args(features: Option<String>) -> Seq<Seq<char>> {
    match features {
        Some(features) => seq!["--features"@, features@],
        None => Seq::empty(),
    }
}

/// Whether the standard library is to be built too.
pub open spec fn builds_std(build: BuildOptions) -> bool {
    (build.sanitizer == Sanitizer::Memory || build.build_std || build.careful_mode)
        && !build.coverage
}

/// What is passed to cargo to build a target.
pub open spec fn cargo_args(
    subcommand: Seq<char>,
    manifest: Seq<char>,
    build: BuildOptions,
) -> Seq<Seq<char>> {
    seq![subcommand, "--manifest-path"@, manifest, "--target"@, build.triple@] + only_if(
        !build.dev,
        seq!["--release"@, "--config"@, "profile.release.debug=\"line-tables-only\""@],
    ) + only_if(build.verbose, seq!["--verbose"@]) + only_if(
        build.no_default_features,
        seq!["--no-default-features"@],
    ) + only_if(build.all_features, seq!["--all-features"@]) + feature_args(build.features)
        + unstable_args(texts(build.unstable_flags@)) + only_if(
        builds_std(build),
        seq!["-Z"@, "build-std"@],
    )
}

/// The flags for a sanitizer.
pub open spec fn sanitizer_flags(sanitizer: Sanitizer, compiler: Compiler) -> Seq<char> {
    if sanitizer == Sanitizer::Off {
        Seq::empty()
    } else {
        (if compiler.sanitizers_on_stable {
            " -Csanitizer="@
        } else {
            " -Zsanitizer="@
        }) + sanitizer_text(sanitizer) + only_if(
            sanitizer == Sanitizer::Memory,
            " -Zsanitizer-memory-track-origins"@,
        ) + only_if(compiler.nightly && compiler.sanitizers_on_stable, " -Zunstable-options"@)
    }
}

pub open spec fn codegen_flags(build: BuildOptions) -> Seq<char> {
    match build.codegen_units {
        Some(units) => " -Ccodegen-units="@ + decimal(units as nat),
        None => only_if(!build.dev, " -Ccodegen-units=1"@),
    }
}

/// The flags that come from outside, behind all others, so that they count.
pub open spec fn given_flags(flags: Option<Seq<char>>) -> Seq<char> {
    match flags {
        Some(flags) => " "@ + flags,
        None => Seq::empty(),
    }
}

/// The flags for the compiler.
pub open spec fn rustflags_text(
    build: BuildOptions,
    compiler: Compiler,
    env: Environment,
) -> Seq<char> {
    " -Cpasses=sancov-module -Cllvm-args=-sanitizer-coverage-level=4 -Cllvm-args=-sanitizer-coverage-inline-8bit-counters -Cllvm-args=-sanitizer-coverage-pc-table"@
        + only_if(
        !build.no_trace_compares,
        " -Cllvm-args=-sanitizer-coverage-trace-compares"@,
    ) + only_if(build.trace_div, " -Cllvm-args=-sanitizer-coverage-trace-divs"@) + only_if(
        build.trace_gep,
        " -Cllvm-args=-sanitizer-coverage-trace-geps"@,
    ) + only_if(!build.no_cfg_fuzzing, " --cfg fuzzing"@) + only_if(
        build.strip_dead_code == Some(Some(false)),
        " -Clink-dead-code"@,
    ) + only_if(
        build.disable_branch_folding != Some(Some(false)),
        " -Cllvm-args=-simplifycfg-branch-fold-threshold=0"@,
    ) + only_if(build.coverage, " -Cinstrument-coverage"@) + sanitizer_flags(build.sanitizer, compiler)
        + only_if(
        build.careful_mode,
        " -Zextra-const-ub-checks -Zstrict-init-checks --cfg careful"@,
    ) + only_if(
        text_contains(build.triple@, "-linux-"@),
        " -Cllvm-args=-sanitizer-coverage-stack-depth"@,
    ) + only_if(
        !build.release || build.debug_assertions || build.careful_mode,
        " -Cdebug-assertions"@,
    ) + only_if(
        text_contains(build.triple@, "-msvc"@) && !build.no_include_main_msvc,
        " -Clink-arg=/include:main"@,
    ) + codegen_flags(build) + given_flags(string_option(env.rustflags))
}

/// The command that builds a target.
pub open spec fn cargo_model(
    subcommand: Seq<char>,
    manifest: Seq<char>,
    build: BuildOptions,
    compiler: Compiler,
    env: Environment,
) -> CommandModel {
    CommandModel {
        program: "cargo"@,
        args: cargo_args(subcommand, manifest, build),
        env: seq![("RUSTFLAGS"@, rustflags_text(build, compiler, env))] + sanitizer_env(
            build.sanitizer,
            env,
        ),
    }
}

fn is_false(flag: &Option<Option<bool>>) -> (r: bool)
    ensures
        r == (*flag == Some(Some(false))),
{
    match flag {
        Some(Some(b)) => !*b,
        _ => false,
    }
}

/// The flags for the compiler.
#[verifier::rlimit(40)]
pub fn rustflags(build: &BuildOptions, compiler: &Compiler, env: &Environment) -> (r: String)
    ensures
        r@ == rustflags_text(*build, *compiler, *env),
{
    let mut flags =
        " -Cpasses=sancov-module -Cllvm-args=-sanitizer-coverage-level=4 -Cllvm-args=-sanitizer-coverage-inline-8bit-counters -Cllvm-args=-sanitizer-coverage-pc-table".to_owned();
    append_when(
        &mut flags,
        !build.no_trace_compares,
        " -Cllvm-args=-sanitizer-coverage-trace-compares",
    );
    append_when(&mut flags, build.trace_div, " -Cllvm-args=-sanitizer-coverage-trace-divs");
    append_when(&mut flags, build.trace_gep, " -Cllvm-args=-sanitizer-coverage-trace-geps");
    append_when(&mut flags, !build.no_cfg_fuzzing, " --cfg fuzzing");
    append_when(&mut flags, is_false(&build.strip_dead_code), " -Clink-dead-code");
    append_when(
        &mut flags,
        !is_false(&build.disable_branch_folding),
        " -Cllvm-args=-simplifycfg-branch-fold-threshold=0",
    );
    append_when(&mut flags, build.coverage, " -Cinstrument-coverage");
    let ghost before = flags@;
    if build.sanitizer != Sanitizer::Off {
        append(&mut flags, if compiler.sanitizers_on_stable {
            " -Csanitizer="
        } else {
            " -Zsanitizer="
        });
        append(&mut flags, build.sanitizer.name());
        append_when(
            &mut flags,
            build.sanitizer == Sanitizer::Memory,
            " -Zsanitizer-memory-track-origins",
        );
        append_when(
            &mut flags,
            compiler.nightly && compiler.sanitizers_on_stable,
            " -Zunstable-options",
        );
    }
    assert(flags@ =~= before + sanitizer_flags(build.sanitizer, *compiler));
    append_when(
        &mut flags,
        build.careful_mode,
        " -Zextra-const-ub-checks -Zstrict-init-checks --cfg careful",
    );
    append_when(
        &mut flags,
        contains(build.triple.as_str(), "-linux-"),
        " -Cllvm-args=-sanitizer-coverage-stack-depth",
    );
    append_when(
        &mut flags,
        !build.release || build.debug_assertions || build.careful_mode,
        " -Cdebug-assertions",
    );
    append_when(
        &mut flags,
        contains(build.triple.as_str(), "-msvc") && !build.no_include_main_msvc,
        " -Clink-arg=/include:main",
    );
    let ghost before = flags@;
    match build.codegen_units {
        Some(units) => {
            append(&mut flags, " -Ccodegen-units=");
            let number = decimal_text(units as u64);
            append(&mut flags, number.as_str());
        },
        None => append_when(&mut flags, !build.dev, " -Ccodegen-units=1"),
    }
    assert(flags@ =~= before + codegen_flags(*build));
    append_given_flags(&mut flags, env);
    flags
}

pub(crate) fn append_given_flags(flags: &mut String, env: &Environment)
    ensures
        final(flags)@ == old(flags)@ + given_flags(string_option(env.rustflags)),
{
    if let Some(other) = &env.rustflags {
        append(flags, " ");
        append(flags, other.as_str());
    }
    assert(flags@ =~= old(flags)@ + given_flags(string_option(env.rustflags)));
}

pub(crate) fn add_features(cmd: &mut CommandLine, features: &Option<String>)
    ensures
        final(cmd)@ == old(cmd)@.with(feature_args(*features)),
{
    if let Some(features) = features {
        cmd.pair_when(true, "--features", features.as_str());
    }
    assert(cmd@.args =~= old(cmd)@.args + feature_args(*features));
}

fn add_unstable_flags(cmd: &mut CommandLine, flags: &Vec<String>)
    ensures
        final(cmd)@ == old(cmd)@.with(unstable_args(texts(flags@))),
{
    let ghost before = cmd@.args;
    let ghost all = texts(flags@);
    let n = flags.len();
    let mut i: usize = 0;
    assert(cmd@.args =~= before + unstable_args(all.take(0)));
    while i < n
        invariant
            all == texts(flags@),
            n == flags@.len(),
            i <= n,
            cmd@.program == old(cmd)@.program,
            cmd@.env == old(cmd)@.env,
            cmd@.args == before + unstable_args(all.take(i as int)),
        decreases n - i,
    {
        cmd.pair_when(true, "-Z", flags[i].as_str());
        assert(all.take(i + 1).drop_last() =~= all.take(i as int));
        assert(cmd@.args =~= before + unstable_args(all.take(i + 1)));
        i = i + 1;
    }
    assert(all.take(n as int) =~= all);
}

/// The command that builds a target.
pub fn cargo(
    subcommand: &str,
    manifest_path: &str,
    build: &BuildOptions,
    compiler: &Compiler,
    env: &Environment,
) -> (r: CommandLine)
    ensures
        r@ == cargo_model(subcommand@, manifest_path@, *build, *compiler, *env),
{
    let mut cmd = CommandLine::new("cargo");
    cmd.arg(subcommand);
    cmd.arg("--manifest-path");
    cmd.arg(manifest_path);
    cmd.arg("--target");
    cmd.arg(build.triple.as_str());
    assert(cmd@.args =~= seq![
        subcommand@,
        "--manifest-path"@,
        manifest_path@,
        "--target"@,
        build.triple@,
    ]);
    let ghost before = cmd@.args;
    if !build.dev {
        cmd.arg("--release");
        cmd.arg("--config");
        cmd.arg("profile.release.debug=\"line-tables-only\"");
    }
    assert(cmd@.args =~= before + only_if(
        !build.dev,
        seq!["--release"@, "--config"@, "profile.release.debug=\"line-tables-only\""@],
    ));
    cmd.arg_when(build.verbose, "--verbose");
    cmd.arg_when(build.no_default_features, "--no-default-features");
    cmd.arg_when(build.all_features, "--all-features");
    add_features(&mut cmd, &build.features);
    add_unstable_flags(&mut cmd, &build.unstable_flags);
    cmd.pair_when(
        (build.sanitizer == Sanitizer::Memory || build.build_std || build.careful_mode)
            && !build.coverage,
        "-Z",
        "build-std",
    );
    let flags = rustflags(build, compiler, env);
    cmd.env("RUSTFLAGS", flags.as_str());
    add_sanitizer_env(&mut cmd, build, env);
    assert(cmd@.env =~= seq![("RUSTFLAGS"@, rustflags_text(*build, *compiler, *env))]
        + sanitizer_env(build.sanitizer, *env));
    cmd
}

/// Flags that come from outside stand behind all others, so that they count where others are
/// against them.
pub proof fn law_given_flags_come_last(build: BuildOptions, compiler: Compiler, env: Environment)
    requires
        env.rustflags is Some,
    ensures
        text_ends_with(rustflags_text(build, compiler, env), env.rustflags->0@),
{
    let own = rustflags_text(build, compiler, Environment { rustflags: None, ..env });
    let given = env.rustflags->0@;
    let all = rustflags_text(build, compiler, env);
    assert(own + given_flags(string_option(env.rustflags)) =~= all);
    assert(all.subrange(all.len() - given.len(), all.len() as int) =~= given);
}

} // verus!
