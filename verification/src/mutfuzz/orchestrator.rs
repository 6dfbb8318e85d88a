//! The course of fuzzing with mutants: which binary, in which order, for how long.

use crate::command::{
    add_sanitizer_env, only_if, sanitizer_env, CommandLine, CommandModel, Environment,
};
use crate::coverage::text_option;
use crate::options::{BuildOptions, MutFuzz};
use crate::paths::{join, joined};
use crate::pieces::{are_patterns, split_patterns};
use crate::project::{
    artifact_arg, artifact_prefix, binary_path, find_binary, number_option, numbered_option,
};
use crate::text::{append, contains, text_contains, texts};
use vstd::prelude::*;

verus! {

/// Where the binary of a fuzz target is.
pub fn get_fuzz_bin_path(fuzz_dir: &str, build: &BuildOptions, target: &str) -> (r: String)
    ensures
        r@ == binary_path(
            match build.target_dir {
                Some(dir) => dir@,
                None => joined(fuzz_dir@, "target"@),
            },
            build.triple@,
            build.dev,
            target@,
        ),
{
    match &build.target_dir {
        Some(dir) => find_binary(dir.as_str(), build, target),
        None => {
            let dir = join(fuzz_dir, "target");
            find_binary(dir.as_str(), build, target)
        },
    }
}

/// What to say where there is no such binary.
pub fn missing_binary_message(path: &str) -> (r: String)
    ensures
        r@ == "fuzz binary not found at "@ + path@ + ". Did the build succeed?"@,
{
    let mut out = "fuzz binary not found at ".to_owned();
    append(&mut out, path);
    append(&mut out, ". Did the build succeed?");
    out
}

/// Whether the jumps of a binary for a platform are known.
pub open spec fn is_supported(triple: Seq<char>) -> bool {
    text_contains(triple, "x86_64"@)
}

/// Refuses a platform whose jumps are not known, and says why.
pub fn check_platform(triple: &str) -> (r: Result<(), String>)
    ensures
        r is Ok <==> is_supported(triple@),
        r matches Err(message) ==> message@ == "mutfuzz only supports x86_64 targets (got triple: "@
            + triple@ + "). Binary mutation of conditional jumps is architecture-specific."@,
{
    if contains(triple, "x86_64") {
        return Ok(());
    }
    let mut out = "mutfuzz only supports x86_64 targets (got triple: ".to_owned();
    append(&mut out, triple);
    append(&mut out, "). Binary mutation of conditional jumps is architecture-specific.");
    Err(out)
}

/// Whether the patterns are those of a list, if one is given.
pub open spec fn are_given(list: Option<Seq<char>>, patterns: Seq<Seq<char>>) -> bool {
    match list {
        Some(list) => are_patterns(list, patterns),
        None => patterns.len() == 0,
    }
}

/// The patterns of a list; none if there is no list.
pub fn parse_patterns(list: Option<&str>) -> (r: Vec<String>)
    ensures
        are_given(text_option(list), texts(r@)),
{
    match list {
        Some(list) => split_patterns(list),
        None => Vec::new(),
    }
}

/// What libFuzzer is told, whatever it fuzzes.
pub open spec fn fuzz_args(
    artifacts: Seq<char>,
    corpus: Seq<char>,
    max_time: u64,
) -> Seq<Seq<char>> {
    seq![
        artifact_prefix(artifacts),
        numbered_option("-max_total_time="@, max_time as nat),
        corpus,
    ]
}

fn fuzz_command(
    binary: &str,
    artifacts: &str,
    corpus: &str,
    opts: &MutFuzz,
    max_time: u64,
    env: &Environment,
) -> (r: CommandLine)
    ensures
        r@ == (CommandModel {
            program: binary@,
            args: fuzz_args(artifacts@, corpus@, max_time),
            env: sanitizer_env(opts.build.sanitizer, *env),
        }),
{
    let mut cmd = CommandLine::new(binary);
    add_sanitizer_env(&mut cmd, &opts.build, env);
    assert(cmd@.env =~= sanitizer_env(opts.build.sanitizer, *env));
    let prefix = artifact_arg(artifacts);
    cmd.arg(prefix.as_str());
    let time = number_option("-max_total_time=", max_time);
    cmd.arg(time.as_str());
    cmd.arg(corpus);
    assert(cmd@.args =~= fuzz_args(artifacts@, corpus@, max_time));
    cmd
}

/// The command that fuzzes a mutant.
pub fn mutant_command(
    binary: &str,
    artifacts: &str,
    corpus: &str,
    opts: &MutFuzz,
    max_time: u64,
    env: &Environment,
) -> (r: CommandLine)
    ensures
        r@ == (CommandModel {
            program: binary@,
            args: fuzz_args(artifacts@, corpus@, max_time) + texts(opts.args@),
            env: sanitizer_env(opts.build.sanitizer, *env),
        }),
{
    let mut cmd = fuzz_command(binary, artifacts, corpus, opts, max_time, env);
    cmd.args(opts.args.as_slice());
    cmd
}

/// The command that fuzzes the binary as it was built.
pub fn normal_command(
    binary: &str,
    artifacts: &str,
    corpus: &str,
    opts: &MutFuzz,
    max_time: u64,
    env: &Environment,
) -> (r: CommandLine)
    ensures
        r@ == (CommandModel {
            program: binary@,
            args: fuzz_args(artifacts@, corpus@, max_time) + only_if(
                opts.jobs > 1,
                seq![numbered_option("-fork="@, opts.jobs as nat)],
            ) + texts(opts.args@),
            env: sanitizer_env(opts.build.sanitizer, *env),
        }),
{
    let mut cmd = fuzz_command(binary, artifacts, corpus, opts, max_time, env);
    let fork = number_option("-fork=", opts.jobs as u64);
    cmd.arg_when(opts.jobs > 1, fork.as_str());
    cmd.args(opts.args.as_slice());
    cmd
}

/// How many seconds more than it was given a mutant may take.
pub const GRACE_SECONDS: u64 = 10;

/// Whether a mutant has run for so long that it has to be killed.
pub fn is_overdue(elapsed_ns: u128, max_time: u64) -> (r: bool)
    requires
        max_time + GRACE_SECONDS <= u64::MAX,
    ensures
        r == (elapsed_ns > (max_time + GRACE_SECONDS) * 1_000_000_000),
{
    elapsed_ns > (max_time + GRACE_SECONDS) as u128 * 1_000_000_000
}

/// What fuzzing with mutants waits for.
#[derive(Clone, Copy, Debug, PartialEq, Eq, Structural)]
pub enum RunPhase {
    /// The time, to tell whether there is time for a mutant.
    Counting,
    /// A mutant.
    Making,
    /// The end of a mutant.
    Running,
    /// The original binary, back in its place.
    Restoring,
    /// The time, to tell how much is left.
    Closing,
    /// Nothing any more.
    Finished,
}

/// What happened.
#[derive(Clone, Copy, Debug, PartialEq, Eq, Structural)]
pub enum RunEvent {
    /// So many seconds have passed since the beginning.
    Elapsed(u64),
    /// No mutant could be made.
    NoMutant,
    /// A mutant stands in the place of the binary.
    Written,
    /// The mutant has come to an end, which it did without a failure or with one.
    Ended { success: bool },
    /// The binary is back in its place.
    Restored,
}

/// What to do next.
#[derive(Clone, Copy, Debug, PartialEq, Eq, Structural)]
pub enum RunStep {
    /// Look at the clock.
    AskClock,
    /// Make a mutant, and write it in the place of the binary.
    MakeMutant,
    /// Fuzz the mutant.
    RunMutant,
    /// Put the binary back in its place.
    RestoreBinary,
    /// Fuzz the binary for so many seconds, and then report.
    FuzzNormally(u64),
    /// Report.
    Report,
}

/// How far fuzzing with mutants has come.
#[derive(Clone, Copy, Debug, PartialEq, Eq, Structural)]
pub struct MutantRun {
    /// How many seconds there are in all.
    pub budget: u64,
    /// How many of them there are for mutants.
    pub mutant_budget: u64,
    /// Whether time that is left goes to the binary itself.
    pub fuzz_after: bool,
    pub phase: RunPhase,
    /// How many mutants were begun.
    pub mutant_no: u64,
    pub killed: u64,
    pub survived: u64,
}

impl MutantRun {
    /// Every mutant that ended was begun.
    pub open spec fn wf(self) -> bool {
        self.killed + self.survived + (if self.phase is Making || self.phase is Running {
            1int
        } else {
            0
        }) <= self.mutant_no
    }

    /// Whether a mutant stands in the place of the binary.
    pub open spec fn is_mutated(self) -> bool {
        self.phase is Running || self.phase is Restoring
    }

    /// The phase, and what to do in it when nothing that it waits for has happened.
    pub open spec fn waiting(self) -> RunStep {
        match self.phase {
            RunPhase::Counting => RunStep::AskClock,
            RunPhase::Making => RunStep::MakeMutant,
            RunPhase::Running => RunStep::RunMutant,
            RunPhase::Restoring => RunStep::RestoreBinary,
            RunPhase::Closing => RunStep::AskClock,
            RunPhase::Finished => RunStep::Report,
        }
    }

    /// What an event changes.
    pub open spec fn after(self, event: RunEvent) -> MutantRun {
        match (self.phase, event) {
            (RunPhase::Counting, RunEvent::Elapsed(seconds)) => if seconds < self.mutant_budget {
                MutantRun {
                    phase: RunPhase::Making,
                    mutant_no: (self.mutant_no + 1) as u64,
                    ..self
                }
            } else {
                MutantRun { phase: RunPhase::Closing, ..self }
            },
            (RunPhase::Making, RunEvent::NoMutant) => MutantRun {
                phase: RunPhase::Closing,
                ..self
            },
            (RunPhase::Making, RunEvent::Written) => MutantRun { phase: RunPhase::Running, ..self },
            (RunPhase::Running, RunEvent::Ended { success }) => if success {
                MutantRun {
                    phase: RunPhase::Restoring,
                    survived: (self.survived + 1) as u64,
                    ..self
                }
            } else {
                MutantRun {
                    phase: RunPhase::Restoring,
                    killed: (self.killed + 1) as u64,
                    ..self
                }
            },
            (RunPhase::Restoring, RunEvent::Restored) => MutantRun {
                phase: RunPhase::Counting,
                ..self
            },
            (RunPhase::Closing, RunEvent::Elapsed(_)) => MutantRun {
                phase: RunPhase::Finished,
                ..self
            },
            _ => self,
        }
    }

    /// What to do after an event.
    pub open spec fn step(self, event: RunEvent) -> RunStep {
        match (self.phase, event) {
            (RunPhase::Closing, RunEvent::Elapsed(seconds)) => if seconds < self.budget
                && self.fuzz_after {
                RunStep::FuzzNormally((self.budget - seconds) as u64)
            } else {
                RunStep::Report
            },
            _ => self.after(event).waiting(),
        }
    }

    /// Fuzzing that has not begun.
    pub fn new(budget: u64, mutant_budget: u64, fuzz_after: bool) -> (r: MutantRun)
        ensures
            r == (MutantRun {
                budget,
                mutant_budget,
                fuzz_after,
                phase: RunPhase::Counting,
                mutant_no: 0,
                killed: 0,
                survived: 0,
            }),
            r.wf(),
    {
        MutantRun {
            budget,
            mutant_budget,
            fuzz_after,
            phase: RunPhase::Counting,
            mutant_no: 0,
            killed: 0,
            survived: 0,
        }
    }

    /// What to do first, with that many jumps to change.
    pub open spec fn first_step(self, jumps: nat) -> RunStep {
        if jumps == 0 {
            RunStep::FuzzNormally(self.budget)
        } else {
            RunStep::AskClock
        }
    }

    /// Begins, with that many jumps to change. Where there is none, all the time goes to the binary
    /// itself.
    pub fn begin(&mut self, jumps: usize) -> (r: RunStep)
        requires
            old(self).wf(),
            old(self).phase is Counting,
        ensures
            r == old(self).first_step(jumps as nat),
            *final(self) == (if jumps == 0 {
                MutantRun { phase: RunPhase::Finished, ..*old(self) }
            } else {
                *old(self)
            }),
            final(self).wf(),
    {
        if jumps == 0 {
            self.phase = RunPhase::Finished;
            return RunStep::FuzzNormally(self.budget);
        }
        RunStep::AskClock
    }

    /// Whether another mutant can be counted, where one may come next.
    pub open spec fn can_count(self) -> bool {
        self.phase is Counting ==> self.mutant_no < u64::MAX
    }

    pub fn has_room(&self) -> (r: bool)
        ensures
            r == self.can_count(),
    {
        match self.phase {
            RunPhase::Counting => self.mutant_no < u64::MAX,
            _ => true,
        }
    }

    /// Whether the binary has to be put back in its place.
    pub fn needs_restore(&self) -> (r: bool)
        ensures
            r == self.is_mutated(),
    {
        match self.phase {
            RunPhase::Running => true,
            RunPhase::Restoring => true,
            _ => false,
        }
    }

    /// How many mutants came to an end.
    pub fn total(&self) -> (r: u64)
        requires
            self.wf(),
        ensures
            r == self.killed + self.survived,
    {
        self.killed + self.survived
    }

    /// Takes note of an event, and tells what to do next.
    pub fn advance(&mut self, event: RunEvent) -> (r: RunStep)
        requires
            old(self).wf(),
            old(self).can_count(),
        ensures
            *final(self) == old(self).after(event),
            r == old(self).step(event),
            final(self).wf(),
    {
        match (self.phase, event) {
            (RunPhase::Counting, RunEvent::Elapsed(seconds)) => {
                if seconds < self.mutant_budget {
                    self.phase = RunPhase::Making;
                    self.mutant_no = self.mutant_no + 1;
                    return RunStep::MakeMutant;
                }
                self.phase = RunPhase::Closing;
                RunStep::AskClock
            },
            (RunPhase::Making, RunEvent::NoMutant) => {
                self.phase = RunPhase::Closing;
                RunStep::AskClock
            },
            (RunPhase::Making, RunEvent::Written) => {
                self.phase = RunPhase::Running;
                RunStep::RunMutant
            },
            (RunPhase::Running, RunEvent::Ended { success }) => {
                self.phase = RunPhase::Restoring;
                if success {
                    self.survived = self.survived + 1;
                } else {
                    self.killed = self.killed + 1;
                }
                RunStep::RestoreBinary
            },
            (RunPhase::Restoring, RunEvent::Restored) => {
                self.phase = RunPhase::Counting;
                RunStep::AskClock
            },
            (RunPhase::Closing, RunEvent::Elapsed(seconds)) => {
                self.phase = RunPhase::Finished;
                if seconds < self.budget && self.fuzz_after {
                    RunStep::FuzzNormally(self.budget - seconds)
                } else {
                    RunStep::Report
                }
            },
            _ => match self.phase {
                RunPhase::Counting => RunStep::AskClock,
                RunPhase::Making => RunStep::MakeMutant,
                RunPhase::Running => RunStep::RunMutant,
                RunPhase::Restoring => RunStep::RestoreBinary,
                RunPhase::Closing => RunStep::AskClock,
                RunPhase::Finished => RunStep::Report,
            },
        }
    }
}

/// Whatever happens, the binary is in its place when it is fuzzed itself and when the report is
/// made, and before each mutant is made.
pub proof fn law_binary_is_in_place(run: MutantRun, event: RunEvent)
    ensures
        ({
            let step = run.step(event);
            step is FuzzNormally || step is Report || step is MakeMutant || step is AskClock
                ==> !run.after(event).is_mutated()
        }),
{
}

/// A mutant is followed by its end and by the binary, and only then comes another or none.
pub proof fn law_mutant_is_followed_by_binary(run: MutantRun, success: bool)
    requires
        run.phase is Making,
    ensures
        run.step(RunEvent::Written) is RunMutant,
        run.after(RunEvent::Written).step(RunEvent::Ended { success }) is RestoreBinary,
        run.after(RunEvent::Written).after(RunEvent::Ended { success }).after(
            RunEvent::Restored,
        ).phase is Counting,
{
}

/// Each mutant that ends is counted once, as killed if it failed and as survived if not.
pub proof fn law_each_end_is_counted(run: MutantRun, success: bool)
    requires
        run.wf(),
        run.phase is Running,
    ensures
        ({
            let after = run.after(RunEvent::Ended { success });
            &&& after.killed == run.killed + (if success {
                0int
            } else {
                1
            })
            &&& after.survived == run.survived + (if success {
                1int
            } else {
                0
            })
        }),
{
}

/// No more time is given to the binary than is left, and none to mutants once theirs is over.
pub proof fn law_time_is_kept(run: MutantRun, seconds: u64)
    ensures
        run.step(RunEvent::Elapsed(seconds)) matches RunStep::FuzzNormally(rest) ==> seconds + rest
            == run.budget,
        run.phase is Counting && run.mutant_budget <= seconds ==> !(run.step(
            RunEvent::Elapsed(seconds),
        ) is MakeMutant),
{
}

} // verus!
