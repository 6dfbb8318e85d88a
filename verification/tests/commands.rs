use cargo_fuzz_core::command::{
    cargo, rustflags, sanitizer_env_vars, CommandLine, Compiler, Environment,
};
use cargo_fuzz_core::manifest::{
    find_requirement, libfuzzer_version, locked_libfuzzer_version, FuzzPackage, Manifest,
    PackageInfo,
};
use cargo_fuzz_core::mutfuzz::orchestrator::{
    check_platform, get_fuzz_bin_path, is_overdue, missing_binary_message, mutant_command,
    normal_command, parse_patterns, MutantRun, RunEvent, RunPhase, RunStep,
};
use cargo_fuzz_core::options::{BuildMode, BuildOptions, MutFuzz, Sanitizer};
use cargo_fuzz_core::project::{
    artifacts_since, find_binary, is_package, latest_artifact, strip_current_dir_prefix,
    target_dir, Artifact, FuzzProject, ProjectError,
};
use cargo_fuzz_core::replay::{
    batch_bounds, callgraph_target_dir, cargo_callgraph, coverage_batches, coverage_cmd_with_dir,
    coverage_cmd_with_files, export_command, llvm_cov_tool, llvm_tool, merge_command,
    replay_command, replay_workers, toolchain_bin,
};

fn build() -> BuildOptions {
    BuildOptions {
        dev: false,
        release: true,
        debug_assertions: false,
        verbose: false,
        no_default_features: false,
        all_features: false,
        features: None,
        sanitizer: Sanitizer::Off,
        build_std: false,
        careful_mode: false,
        triple: "x86_64-unknown-linux-gnu".to_string(),
        unstable_flags: Vec::new(),
        target_dir: None,
        coverage: false,
        strip_dead_code: None,
        disable_branch_folding: None,
        no_cfg_fuzzing: false,
        no_trace_compares: false,
        trace_div: false,
        trace_gep: false,
        no_include_main_msvc: false,
        codegen_units: None,
    }
}

fn environment() -> Environment {
    Environment { rustflags: None, asan_options: None, tsan_options: None }
}

const STABLE: Compiler = Compiler { nightly: false, sanitizers_on_stable: false };

const BASE_FLAGS: &str = " -Cpasses=sancov-module -Cllvm-args=-sanitizer-coverage-level=4 \
    -Cllvm-args=-sanitizer-coverage-inline-8bit-counters -Cllvm-args=-sanitizer-coverage-pc-table";

fn words(cmd: &CommandLine) -> String {
    cmd.args.join(" ")
}

fn value<'a>(cmd: &'a CommandLine, key: &str) -> Option<&'a str> {
    cmd.env.iter().find(|(k, _)| k == key).map(|(_, v)| v.as_str())
}

#[test]
fn cargo_is_told_what_to_build() {
    let cmd = cargo("build", "fuzz/Cargo.toml", &build(), &STABLE, &environment());
    assert_eq!(cmd.program, "cargo");
    assert_eq!(
        words(&cmd),
        "build --manifest-path fuzz/Cargo.toml --target x86_64-unknown-linux-gnu --release \
         --config profile.release.debug=\"line-tables-only\""
    );
    assert_eq!(cmd.env.len(), 1);
    assert_eq!(
        value(&cmd, "RUSTFLAGS"),
        Some(
            format!(
                "{BASE_FLAGS} -Cllvm-args=-sanitizer-coverage-trace-compares --cfg fuzzing \
                 -Cllvm-args=-simplifycfg-branch-fold-threshold=0 \
                 -Cllvm-args=-sanitizer-coverage-stack-depth -Ccodegen-units=1"
            )
            .as_str()
        )
    );
}

#[test]
fn options_become_arguments() {
    let mut b = build();
    b.dev = true;
    b.verbose = true;
    b.no_default_features = true;
    b.all_features = true;
    b.features = Some("a b".to_string());
    b.unstable_flags = vec!["x".to_string(), "y".to_string()];
    b.careful_mode = true;
    b.triple = "t".to_string();
    let cmd = cargo("check", "m", &b, &STABLE, &environment());
    assert_eq!(
        words(&cmd),
        "check --manifest-path m --target t --verbose --no-default-features --all-features \
         --features a b -Z x -Z y -Z build-std"
    );
    b.coverage = true;
    let cmd = cargo("check", "m", &b, &STABLE, &environment());
    assert!(!words(&cmd).contains("build-std"));
}

#[test]
fn options_become_flags() {
    let mut b = build();
    b.no_trace_compares = true;
    b.trace_div = true;
    b.trace_gep = true;
    b.no_cfg_fuzzing = true;
    b.strip_dead_code = Some(Some(false));
    b.disable_branch_folding = Some(Some(false));
    b.coverage = true;
    b.sanitizer = Sanitizer::Memory;
    b.careful_mode = true;
    b.triple = "x-pc-windows-msvc".to_string();
    b.codegen_units = Some(4);
    let recent = Compiler { nightly: true, sanitizers_on_stable: true };
    assert_eq!(
        rustflags(&b, &recent, &environment()),
        format!(
            "{BASE_FLAGS} -Cllvm-args=-sanitizer-coverage-trace-divs \
             -Cllvm-args=-sanitizer-coverage-trace-geps -Clink-dead-code -Cinstrument-coverage \
             -Csanitizer=memory -Zsanitizer-memory-track-origins -Zunstable-options \
             -Zextra-const-ub-checks -Zstrict-init-checks --cfg careful -Cdebug-assertions \
             -Clink-arg=/include:main -Ccodegen-units=4"
        )
    );
    b.no_include_main_msvc = true;
    b.sanitizer = Sanitizer::Leak;
    b.codegen_units = None;
    b.dev = true;
    let flags = rustflags(&b, &STABLE, &environment());
    assert!(flags.contains(" -Zsanitizer=leak -Zextra"));
    assert!(flags.ends_with(" -Cdebug-assertions"));
}

#[test]
fn given_flags_come_last() {
    let env = Environment { rustflags: Some("-Cmine".to_string()), ..environment() };
    assert!(rustflags(&build(), &STABLE, &env).ends_with(" -Ccodegen-units=1 -Cmine"));
}

#[test]
fn sanitizers_get_their_options() {
    let mut b = build();
    b.sanitizer = Sanitizer::Address;
    let given = Environment {
        rustflags: None,
        asan_options: Some("a=1".to_string()),
        tsan_options: Some(String::new()),
    };
    let pair = |k: &str, v: &str| (k.to_string(), v.to_string());
    assert_eq!(
        sanitizer_env_vars(&b, &given),
        vec![pair("ASAN_OPTIONS", "a=1:detect_odr_violation=0")]
    );
    assert_eq!(
        sanitizer_env_vars(&b, &environment()),
        vec![pair("ASAN_OPTIONS", "detect_odr_violation=0")]
    );
    b.sanitizer = Sanitizer::Thread;
    assert_eq!(
        sanitizer_env_vars(&b, &given),
        vec![pair("TSAN_OPTIONS", "report_signal_unsafe=0")]
    );
    b.sanitizer = Sanitizer::Leak;
    assert!(sanitizer_env_vars(&b, &given).is_empty());
}

const FUZZ_MANIFEST: &[u8] = b"[package]\nname = \"p-fuzz\"\n[package.metadata]\ncargo-fuzz = true\n\
    [[bin]]\nname = \"z\"\n[[bin]]\npath = \"x\"\n[[bin]]\nname = \"a\"\n";

#[test]
fn a_project_lists_its_targets_in_order() {
    let project = FuzzProject::new("p/fuzz", FUZZ_MANIFEST).ok().unwrap();
    assert_eq!(project.list_targets(), ["a", "z"]);
    assert_eq!(project.fuzz_dir(), "p/fuzz");
    assert_eq!(project.manifest_path(), "p/fuzz/Cargo.toml");
    assert!(FuzzProject::at("x").list_targets().is_empty());
}

#[test]
fn what_is_no_fuzz_project_is_refused() {
    let package: &[u8] = b"[package]\nname = \"p\"\n";
    let not_fuzz = FuzzProject::new("d", package).err();
    assert_eq!(not_fuzz, Some(ProjectError::NotFuzz));
    let undecodable = FuzzProject::new("d", b"[package").err();
    assert_eq!(undecodable, Some(ProjectError::Undecodable));
    assert_eq!(
        ProjectError::Undecodable.message("d/Cargo.toml"),
        "could not decode the manifest file at d/Cargo.toml"
    );
    assert_eq!(
        ProjectError::NotFuzz.message("d/Cargo.toml"),
        "manifest `d/Cargo.toml` does not look like a cargo-fuzz manifest. \
         Add following lines to override:\n[package.metadata]\ncargo-fuzz = true"
    );
    assert_eq!(is_package(package), Ok(true));
    assert_eq!(is_package(FUZZ_MANIFEST), Ok(false));
    assert_eq!(is_package(b"[package"), Err(ProjectError::Undecodable));
}

#[test]
fn a_project_knows_its_places() {
    let project = FuzzProject::at("p/fuzz");
    assert_eq!(
        project.coverage_for("t"),
        (
            "p/fuzz/coverage/t/raw".to_string(),
            "p/fuzz/coverage/t/coverage.profdata".to_string()
        )
    );
    assert_eq!(project.corpus_for("t"), "p/fuzz/corpus/t");
    let given = vec!["c".to_string(), "d".to_string()];
    assert_eq!(project.corpora(&[], "t"), vec!["p/fuzz/corpus/t"]);
    assert_eq!(project.corpora(&given, "t"), given);
    assert_eq!(project.main_corpus(&[], "t"), "p/fuzz/corpus/t");
    assert_eq!(project.main_corpus(&given, "t"), "c");
    assert_eq!(project.artifacts_for("t"), "p/fuzz/artifacts/t/");
    assert!(project.artifacts_for("").ends_with('/'));
    assert_eq!(
        project.callgraph_for("t"),
        (
            "p/fuzz/callgraph/t/raw".to_string(),
            "p/fuzz/callgraph/t/edges".to_string(),
            "p/fuzz/callgraph/t/callgraph.dot".to_string()
        )
    );
    assert_eq!(project.fuzz_targets_dir(false), "p/fuzz/fuzz_targets");
    assert_eq!(project.fuzz_targets_dir(true), "p/fuzz/fuzzers");
    assert_eq!(project.target_path("t", false), "p/fuzz/fuzz_targets/t.rs");
    assert_eq!(project.target_path("t.x", true), "p/fuzz/fuzzers/t.rs");
    assert!(project.fuzz_dir_is_default_path());
    assert_eq!(project.fuzz_dir_option(), "");
    assert!(!FuzzProject::at("other").fuzz_dir_is_default_path());
    assert_eq!(FuzzProject::at("other").fuzz_dir_option(), " --fuzz-dir other");
    assert_eq!(
        FuzzProject::at("other").hint("tmin", " -O", "t", "crash"),
        "cargo fuzz tmin --fuzz-dir other -O t crash"
    );
}

#[test]
fn build_results_have_their_place() {
    let mut b = build();
    assert_eq!(target_dir(&b, "/w", "host"), None);
    assert_eq!(find_binary("d", &b, "t"), "d/x86_64-unknown-linux-gnu/release/t");
    b.coverage = true;
    b.dev = true;
    assert_eq!(target_dir(&b, "/w", "host").as_deref(), Some("/w/target/host/coverage"));
    assert_eq!(find_binary("d", &b, "t"), "d/x86_64-unknown-linux-gnu/debug/t");
    b.target_dir = Some("given".to_string());
    assert_eq!(target_dir(&b, "/w", "host").as_deref(), Some("given"));
}

#[test]
fn commands_name_the_target() {
    let project = FuzzProject::at("fuzz");
    let mut b = build();
    b.dev = true;
    b.triple = "t".to_string();
    let front = "--manifest-path fuzz/Cargo.toml --target t";
    let env = environment();
    let args = vec!["-a".to_string()];
    let one = project.build_command(BuildMode::Build, &b, Some("x"), &None, &STABLE, &env);
    assert_eq!(words(&one), format!("build {front} --bin x"));
    let dir = Some("d".to_string());
    let all = project.build_command(BuildMode::Check, &b, None, &dir, &STABLE, &env);
    assert_eq!(words(&all), format!("check {front} --bins --target-dir d"));

    b.target_dir = Some("d".to_string());
    let run = format!("run {front} --bin x --target-dir d -- -artifact_prefix=fuzz/artifacts/x/");
    assert_eq!(words(&project.cargo_run(&b, "x", &STABLE, &env)), run);
    assert_eq!(
        words(&project.fuzz_command(&b, "x", &[], &args, 1, &STABLE, &env)),
        format!("{run} -a fuzz/corpus/x")
    );
    let corpus = vec!["c".to_string(), "e".to_string()];
    assert_eq!(
        words(&project.fuzz_command(&b, "x", &corpus, &args, 3, &STABLE, &env)),
        format!("{run} -a c e -fork=3")
    );
    assert_eq!(
        words(&project.tmin_command(&b, "x", 255, "crash", &args, &STABLE, &env)),
        format!("{run} -minimize_crash=1 -runs=255 crash -a")
    );
    assert_eq!(
        words(&project.cmin_command(&b, "x", &args, "new", "old", &STABLE, &env)),
        format!("{run} -a -merge=1 new old")
    );
    let debug = project.debug_command(&b, "x", "out", "crash", &STABLE, &env);
    assert_eq!(words(&debug), format!("{run} crash"));
    assert_eq!(value(&debug, "RUST_LIBFUZZER_DEBUG_PATH"), Some("out"));
}

#[test]
fn new_artifacts_are_told_from_old_ones() {
    let entry = |path: &str, is_file: bool, modified: u128| Artifact {
        path: path.to_string(),
        is_file,
        modified,
    };
    let entries =
        vec![entry("old", true, 5), entry("dir", false, 9), entry("a", true, 6), entry("b", true, 8)];
    let new = artifacts_since(&entries, 5);
    assert_eq!(new, vec![("a".to_string(), 6), ("b".to_string(), 8)]);
    assert_eq!(latest_artifact(&new), Some(1));
    assert_eq!(latest_artifact(&[]), None);
    assert_eq!(strip_current_dir_prefix("/w/fuzz/x", Some("/w")), "fuzz/x");
    assert_eq!(strip_current_dir_prefix("/w/fuzz/x", Some("/v")), "/w/fuzz/x");
    assert_eq!(strip_current_dir_prefix("/w/fuzz/x", None), "/w/fuzz/x");
}

#[test]
fn files_are_cut_into_batches() {
    assert_eq!(coverage_batches(1, 8), (1, 1));
    assert_eq!(coverage_batches(99, 8), (1, 99));
    assert_eq!(coverage_batches(99, 0), (1, 99));
    assert_eq!(batch_bounds(0, 3), vec![]);
    assert_eq!(batch_bounds(6, 3), vec![(0, 3), (3, 6)]);
    assert_eq!(batch_bounds(7, 3), vec![(0, 3), (3, 6), (6, 7)]);
    assert_eq!(batch_bounds(2, usize::MAX), vec![(0, 2)]);
    assert_eq!(coverage_batches(100, 8), (1, 100));
    assert_eq!(coverage_batches(250, 8), (2, 125));
    assert_eq!(coverage_batches(1001, 4), (4, 251));
    for files in 1..500usize {
        for requested in 1..6usize {
            let (workers, size) = coverage_batches(files, requested);
            assert!(workers <= requested && workers * size >= files);
            assert!((files + size - 1) / size <= workers);
        }
    }
}

#[test]
fn coverage_commands_write_to_their_batch() {
    let args = vec!["-a".to_string()];
    let files = vec!["f".to_string(), "g".to_string()];
    let cmd = coverage_cmd_with_files("bin", "raw", &args, &files, 3);
    assert_eq!((cmd.program.as_str(), words(&cmd).as_str()), ("bin", "-a f g"));
    assert_eq!(value(&cmd, "LLVM_PROFILE_FILE"), Some("raw/batch-3.profraw"));
    let cmd = coverage_cmd_with_dir("bin", "raw", &args, "out", "in", 0);
    assert_eq!(words(&cmd), "-merge=1 out in -a");
    assert_eq!(value(&cmd, "LLVM_PROFILE_FILE"), Some("raw/batch-0.profraw"));
    let cmd = merge_command("profdata", "raw", "out");
    assert_eq!((cmd.program.as_str(), words(&cmd).as_str()), ("profdata", "merge -sparse raw -o out"));
    let cmd = export_command("cov", "bin", "data");
    assert_eq!(words(&cmd), "export bin -instr-profile=data");
}

#[test]
fn tools_are_looked_for() {
    let bin = toolchain_bin("/sys\n", "host");
    assert_eq!(bin, "/sys/lib/rustlib/host/bin");
    assert_eq!(llvm_tool(None, &bin, "llvm-profdata", ".exe"), format!("{bin}/llvm-profdata.exe"));
    assert_eq!(llvm_tool(Some("/llvm"), &bin, "llvm-profdata", ""), "/llvm/llvm-profdata");
    assert_eq!(llvm_cov_tool(Some("/llvm"), &bin, true, ""), "/llvm/llvm-cov");
    assert_eq!(llvm_cov_tool(None, &bin, true, ""), format!("{bin}/llvm-cov"));
    assert_eq!(llvm_cov_tool(None, &bin, false, ".exe"), "llvm-cov.exe");
}

#[test]
fn the_binary_of_a_call_graph_is_built_with_the_shim() {
    let mut b = build();
    b.features = Some("f".to_string());
    b.verbose = true;
    let env = Environment { rustflags: Some("-Cmine".to_string()), ..environment() };
    let cmd = cargo_callgraph("m", &b, "/shim", &env);
    assert_eq!(
        words(&cmd),
        "build --manifest-path m --release --target x86_64-unknown-linux-gnu -v --features f \
         --config patch.crates-io.libfuzzer-sys.path='/shim'"
    );
    assert_eq!(value(&cmd, "CARGO_PROFILE_RELEASE_DEBUG"), Some("2"));
    assert_eq!(
        value(&cmd, "RUSTFLAGS"),
        Some(
            " -Cpasses=sancov-module -Cllvm-args=-sanitizer-coverage-level=3 \
             -Cllvm-args=-sanitizer-coverage-trace-pc-guard \
             -Cllvm-args=-sanitizer-coverage-pc-table -Cinstrument-coverage --cfg fuzzing -Cmine"
        )
    );
    b.dev = true;
    b.no_cfg_fuzzing = true;
    let project = FuzzProject::at("fuzz");
    let cmd = project.callgraph_build_command(&b, "x", "/shim", "d", &environment());
    assert!(words(&cmd).ends_with("--bin x --target-dir d"));
    assert!(!words(&cmd).contains("--release"));
    assert_eq!(value(&cmd, "CARGO_PROFILE_RELEASE_DEBUG"), None);
    assert!(!value(&cmd, "RUSTFLAGS").unwrap().contains("--cfg"));
    assert_eq!(callgraph_target_dir(Some("g"), Some("e"), "/w", "h"), "g/h/callgraph");
    assert_eq!(callgraph_target_dir(None, Some("e"), "/w", "h"), "e/h/callgraph");
    assert_eq!(callgraph_target_dir(None, None, "/w", "h"), "/w/target/h/callgraph");
}

#[test]
fn a_replay_writes_files_named_after_the_seed() {
    let args = vec!["-a".to_string()];
    let cmd = replay_command("bin", "edges", "raw", "seed-00000-x", "corpus/x", &args);
    assert_eq!((cmd.program.as_str(), words(&cmd).as_str()), ("bin", "corpus/x -- -a"));
    assert_eq!(value(&cmd, "CALLGRAPH_EDGES_FILE"), Some("edges/seed-00000-x.json"));
    assert_eq!(value(&cmd, "LLVM_PROFILE_FILE"), Some("raw/seed-00000-x.profraw"));
    assert_eq!(replay_workers(8, 3), 3);
    assert_eq!(replay_workers(2, 3), 2);
    assert_eq!(replay_workers(0, 3), 1);
    assert_eq!(replay_workers(2, 0), 1);
}

#[test]
fn the_version_of_libfuzzer_is_found() {
    let lock: &[u8] = b"[[package]]\nname = \"a\"\nversion = \"1.0.0\"\n\
        [[package]]\nname = \"libfuzzer-sys\"\nversion = \"0.4.7\"\n";
    assert_eq!(locked_libfuzzer_version(lock).as_deref(), Some("0.4.7"));
    assert_eq!(locked_libfuzzer_version(b"[["), None);
    let tree = cargo_fuzz_core::tree::parse_toml(lock);
    assert_eq!(libfuzzer_version(tree.as_ref(), Some("^0.3")), "0.4.7");
    assert_eq!(libfuzzer_version(None, Some("^0.3")), "0.3.0");
    assert_eq!(libfuzzer_version(None, Some("*")), "0.4.0");
    assert_eq!(libfuzzer_version(None, None), "0.4.0");
    let package = |path: &str, req: &str| FuzzPackage {
        manifest_path: path.to_string(),
        dependencies: vec![
            ("other".to_string(), "^1".to_string()),
            ("libfuzzer-sys".to_string(), req.to_string()),
            ("libfuzzer-sys".to_string(), "^9".to_string()),
        ],
    };
    let packages = vec![package("/w/Cargo.toml", "^0.1"), package("/w/fuzz/Cargo.toml", "^0.2")];
    assert_eq!(
        find_requirement(&packages, "/w/fuzz//Cargo.toml", "libfuzzer-sys").as_deref(),
        Some("^0.2")
    );
    assert_eq!(find_requirement(&packages, "/w/fuzz/Cargo.toml", "missing"), None);
    assert_eq!(find_requirement(&packages, "/x/Cargo.toml", "libfuzzer-sys"), None);
}

#[test]
fn the_first_package_is_fuzzed() {
    let info = |name: &str| PackageInfo { name: name.to_string(), edition: "2021".to_string() };
    let manifest = Manifest::parse(&[info("a"), info("b")]).unwrap();
    assert_eq!(manifest.crate_name, "a");
    assert_eq!(manifest.edition.as_deref(), Some("2021"));
    assert!(Manifest::parse(&[]).is_none());
}

fn mutfuzz() -> MutFuzz {
    MutFuzz {
        build: build(),
        target: "t".to_string(),
        corpus: Vec::new(),
        fuzz_dir: None,
        budget: 100,
        time_per_mutant: 10,
        order: 1,
        avoid_repeats: false,
        only_mutate: None,
        avoid_mutating: None,
        seed: None,
        jobs: 4,
        args: vec!["-a".to_string()],
    }
}

#[test]
fn mutants_are_fuzzed_in_one_process() {
    let mut opts = mutfuzz();
    opts.build.sanitizer = Sanitizer::Address;
    let cmd = mutant_command("bin", "art/", "corpus", &opts, 10, &environment());
    assert_eq!(cmd.program, "bin");
    assert_eq!(words(&cmd), "-artifact_prefix=art/ -max_total_time=10 corpus -a");
    assert_eq!(value(&cmd, "ASAN_OPTIONS"), Some("detect_odr_violation=0"));
    let cmd = normal_command("bin", "art/", "corpus", &opts, 90, &environment());
    assert_eq!(words(&cmd), "-artifact_prefix=art/ -max_total_time=90 corpus -fork=4 -a");
    opts.jobs = 1;
    let cmd = normal_command("bin", "art/", "corpus", &opts, 90, &environment());
    assert_eq!(words(&cmd), "-artifact_prefix=art/ -max_total_time=90 corpus -a");
}

#[test]
fn the_binary_is_found_and_its_platform_checked() {
    let mut b = build();
    assert_eq!(
        get_fuzz_bin_path("fuzz", &b, "t"),
        "fuzz/target/x86_64-unknown-linux-gnu/release/t"
    );
    b.target_dir = Some("d".to_string());
    b.dev = true;
    assert_eq!(get_fuzz_bin_path("fuzz", &b, "t"), "d/x86_64-unknown-linux-gnu/debug/t");
    assert_eq!(
        missing_binary_message("x"),
        "fuzz binary not found at x. Did the build succeed?"
    );
    assert_eq!(check_platform("x86_64-unknown-linux-gnu"), Ok(()));
    assert_eq!(
        check_platform("aarch64"),
        Err("mutfuzz only supports x86_64 targets (got triple: aarch64). \
             Binary mutation of conditional jumps is architecture-specific."
            .to_string())
    );
    assert!(parse_patterns(None).is_empty());
    assert_eq!(parse_patterns(Some(" a ,b")), vec!["a", "b"]);
}

#[test]
fn a_mutant_has_ten_seconds_more() {
    assert!(!is_overdue(20_000_000_000, 10));
    assert!(is_overdue(20_000_000_001, 10));
}

#[test]
fn without_jumps_all_the_time_goes_to_the_binary() {
    let mut run = MutantRun::new(600, 300, false);
    assert_eq!(run.begin(0), RunStep::FuzzNormally(600));
    assert_eq!(run.phase, RunPhase::Finished);
    assert!(!run.needs_restore());
    let mut run = MutantRun::new(600, 300, false);
    assert_eq!(run.begin(2), RunStep::AskClock);
    assert_eq!(run.advance(RunEvent::Elapsed(0)), RunStep::MakeMutant);
}

#[test]
fn mutants_come_and_go() {
    let mut run = MutantRun::new(100, 50, true);
    assert_eq!(run.advance(RunEvent::Elapsed(0)), RunStep::MakeMutant);
    assert!(!run.needs_restore());
    assert_eq!(run.advance(RunEvent::Written), RunStep::RunMutant);
    assert!(run.needs_restore());
    assert_eq!(run.advance(RunEvent::Elapsed(1)), RunStep::RunMutant);
    assert_eq!(run.advance(RunEvent::Ended { success: false }), RunStep::RestoreBinary);
    assert!(run.needs_restore());
    assert_eq!(run.advance(RunEvent::Restored), RunStep::AskClock);
    assert!(!run.needs_restore());
    assert_eq!(run.advance(RunEvent::Elapsed(49)), RunStep::MakeMutant);
    run.advance(RunEvent::Written);
    run.advance(RunEvent::Ended { success: true });
    run.advance(RunEvent::Restored);
    assert_eq!(run.advance(RunEvent::Elapsed(50)), RunStep::AskClock);
    assert_eq!((run.mutant_no, run.killed, run.survived, run.total()), (2, 1, 1, 2));
    assert_eq!(run.advance(RunEvent::Elapsed(60)), RunStep::FuzzNormally(40));
    assert_eq!(run.phase, RunPhase::Finished);
    assert_eq!(run.advance(RunEvent::Restored), RunStep::Report);
    assert!(run.has_room());
}

#[test]
fn mutants_end_when_none_can_be_made() {
    let mut run = MutantRun::new(100, 50, false);
    run.advance(RunEvent::Elapsed(0));
    assert_eq!(run.advance(RunEvent::NoMutant), RunStep::AskClock);
    assert_eq!(run.advance(RunEvent::Elapsed(10)), RunStep::Report);
    assert_eq!(run.total(), 0);
    let mut late = MutantRun::new(100, 100, true);
    assert_eq!(late.advance(RunEvent::Elapsed(100)), RunStep::AskClock);
    assert_eq!(late.advance(RunEvent::Elapsed(100)), RunStep::Report);
}
