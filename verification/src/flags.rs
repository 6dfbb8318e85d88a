//! What the commands that build a target ask for.

use crate::command::{
    builds_std, cargo_args, codegen_flags, feature_args, given_flags, joined_options, only_if,
    rustflags_text, sanitizer_env, sanitizer_flags, string_option, unstable_args, Compiler,
    Environment,
};
use crate::flat::{
    flat, lemma_contains_itself, lemma_flat_contains, lemma_flat_differs, lemma_flat_split,
};
use crate::options::{sanitizer_text, BuildOptions, Sanitizer};
use crate::text::{decimal, occurs_at, text_contains, text_ends_with, text_starts_with, texts};
use vstd::prelude::*;

verus! {

/// One of the pieces that the flags for the compiler are made of.
spec fn flag_piece(build: BuildOptions, compiler: Compiler, env: Environment, k: int) -> Seq<char> {
    if k == 0 {
        " -Cpasses=sancov-module -Cllvm-args=-sanitizer-coverage-level=4 -Cllvm-args=-sanitizer-coverage-inline-8bit-counters -Cllvm-args=-sanitizer-coverage-pc-table"@
    } else if k == 1 {
        only_if(!build.no_trace_compares, " -Cllvm-args=-sanitizer-coverage-trace-compares"@)
    } else if k == 2 {
        only_if(build.trace_div, " -Cllvm-args=-sanitizer-coverage-trace-divs"@)
    } else if k == 3 {
        only_if(build.trace_gep, " -Cllvm-args=-sanitizer-coverage-trace-geps"@)
    } else if k == 4 {
        only_if(!build.no_cfg_fuzzing, " --cfg fuzzing"@)
    } else if k == 5 {
        only_if(build.strip_dead_code == Some(Some(false)), " -Clink-dead-code"@)
    } else if k == 6 {
        only_if(
            build.disable_branch_folding != Some(Some(false)),
            " -Cllvm-args=-simplifycfg-branch-fold-threshold=0"@,
        )
    } else if k == 7 {
        only_if(build.coverage, " -Cinstrument-coverage"@)
    } else if k == 8 {
        sanitizer_flags(build.sanitizer, compiler)
    } else if k == 9 {
        only_if(
            build.careful_mode,
            " -Zextra-const-ub-checks -Zstrict-init-checks --cfg careful"@,
        )
    } else if k == 10 {
        only_if(
            text_contains(build.triple@, "-linux-"@),
            " -Cllvm-args=-sanitizer-coverage-stack-depth"@,
        )
    } else if k == 11 {
        only_if(
            !build.release || build.debug_assertions || build.careful_mode,
            " -Cdebug-assertions"@,
        )
    } else if k == 12 {
        only_if(
            text_contains(build.triple@, "-msvc"@) && !build.no_include_main_msvc,
            " -Clink-arg=/include:main"@,
        )
    } else if k == 13 {
        codegen_flags(build)
    } else {
        given_flags(string_option(env.rustflags))
    }
}

/// The flags for the compiler, piece by piece.
spec fn flag_pieces(build: BuildOptions, compiler: Compiler, env: Environment) -> Seq<Seq<char>> {
    Seq::new(15, |k: int| flag_piece(build, compiler, env, k))
}

proof fn lemma_flag_pieces(build: BuildOptions, compiler: Compiler, env: Environment)
    ensures
        rustflags_text(build, compiler, env) == flat(flag_pieces(build, compiler, env)),
        flag_pieces(build, compiler, env).len() == 15,
{
    let p = flag_pieces(build, compiler, env);
    lemma_flat_steps(p);
    assert(Seq::<char>::empty() + p[0] =~= p[0]);
}

/// Fifteen pieces, one behind the other.
proof fn lemma_flat_steps(p: Seq<Seq<char>>)
    requires
        p.len() == 15,
    ensures
        flat(p) == Seq::<char>::empty() + p[0] + p[1] + p[2] + p[3] + p[4] + p[5] + p[6] + p[7] + p[8]
            + p[9] + p[10] + p[11] + p[12] + p[13] + p[14],
{
    lemma_flat_take(p, 0);
    lemma_flat_take(p, 1);
    lemma_flat_take(p, 2);
    lemma_flat_take(p, 3);
    lemma_flat_take(p, 4);
    lemma_flat_take(p, 5);
    lemma_flat_take(p, 6);
    lemma_flat_take(p, 7);
    lemma_flat_take(p, 8);
    lemma_flat_take(p, 9);
    lemma_flat_take(p, 10);
    lemma_flat_take(p, 11);
    lemma_flat_take(p, 12);
    lemma_flat_take(p, 13);
    lemma_flat_take(p, 14);
    assert(p.take(15) =~= p);
}

proof fn lemma_flat_take(p: Seq<Seq<char>>, n: int)
    requires
        0 <= n < p.len(),
    ensures
        flat(p.take(n + 1)) == flat(p.take(n)) + p[n],
        flat(p.take(0)) == Seq::<char>::empty(),
{
    assert(p.take(n + 1).drop_last() =~= p.take(n));
}

/// What is passed to cargo, piece by piece.
spec fn arg_pieces(
    subcommand: Seq<char>,
    manifest: Seq<char>,
    build: BuildOptions,
) -> Seq<Seq<Seq<char>>> {
    seq![
        seq![subcommand, "--manifest-path"@, manifest, "--target"@, build.triple@],
        only_if(
            !build.dev,
            seq!["--release"@, "--config"@, "profile.release.debug=\"line-tables-only\""@],
        ),
        only_if(build.verbose, seq!["--verbose"@]),
        only_if(build.no_default_features, seq!["--no-default-features"@]),
        only_if(build.all_features, seq!["--all-features"@]),
        feature_args(build.features),
        unstable_args(texts(build.unstable_flags@)),
        only_if(builds_std(build), seq!["-Z"@, "build-std"@]),
    ]
}

/// The name of a flag that asks the compiler for a sanitizer.
pub open spec fn sanitizer_word(sanitizer: Sanitizer) -> Seq<char> {
    match sanitizer {
        Sanitizer::Address => "sanitizer=address"@,
        Sanitizer::Leak => "sanitizer=leak"@,
        Sanitizer::Memory => "sanitizer=memory"@,
        Sanitizer::Thread => "sanitizer=thread"@,
        Sanitizer::Off => Seq::empty(),
    }
}

proof fn lemma_sanitizer_word(sanitizer: Sanitizer, compiler: Compiler)
    requires
        sanitizer != Sanitizer::Off,
    ensures
        text_contains(sanitizer_flags(sanitizer, compiler), sanitizer_word(sanitizer)),
{
    let flags = sanitizer_flags(sanitizer, compiler);
    let word = sanitizer_word(sanitizer);
    reveal_strlit(" -Csanitizer=");
    reveal_strlit(" -Zsanitizer=");
    reveal_strlit("address");
    reveal_strlit("leak");
    reveal_strlit("memory");
    reveal_strlit("thread");
    reveal_strlit("sanitizer=address");
    reveal_strlit("sanitizer=leak");
    reveal_strlit("sanitizer=memory");
    reveal_strlit("sanitizer=thread");
    assert(flags.subrange(3, 3int + word.len()) =~= word);
    assert(occurs_at(flags, word, 3));
}

/// A target that is built with a sanitizer is compiled with a flag that names it.
pub proof fn law_sanitizer_is_asked_for(build: BuildOptions, compiler: Compiler, env: Environment)
    requires
        build.sanitizer != Sanitizer::Off,
    ensures
        text_contains(rustflags_text(build, compiler, env), sanitizer_word(build.sanitizer)),
{
    let p = flag_pieces(build, compiler, env);
    lemma_flag_pieces(build, compiler, env);
    lemma_sanitizer_word(build.sanitizer, compiler);
    lemma_flat_contains(p, 8, sanitizer_word(build.sanitizer));
}

/// Whether a text nowhere has the end of the word "sanitizer" with an equals sign behind it.
spec fn names_none(s: Seq<char>) -> bool {
    (s.len() > 0 ==> s[0] != '=') && forall|i: int|
        0 < i < s.len() && (#[trigger] s[i]) == '=' ==> s[i - 1] != 'r'
}

proof fn lemma_names_none(pieces: Seq<Seq<char>>)
    requires
        forall|i: int| 0 <= i < pieces.len() ==> names_none(#[trigger] pieces[i]),
    ensures
        names_none(flat(pieces)),
    decreases pieces.len(),
{
    if pieces.len() > 0 {
        let less = pieces.drop_last();
        assert forall|i: int| 0 <= i < less.len() implies names_none(#[trigger] less[i]) by {
            assert(less[i] == pieces[i]);
        }
        lemma_names_none(less);
        let (a, b) = (flat(less), pieces.last());
        assert(names_none(pieces[pieces.len() - 1]));
        assert forall|i: int| 0 < i < (a + b).len() && (#[trigger] (a + b)[i]) == '=' implies (a
            + b)[i - 1] != 'r' by {
            if i < a.len() {
                assert(a[i] == '=');
            } else if i > a.len() {
                assert(b[i - a.len()] == '=');
            }
        }
    }
}

proof fn lemma_digits_name_none(n: nat)
    ensures
        names_none(decimal(n)),
        forall|i: int| 0 <= i < decimal(n).len() ==> '0' <= #[trigger] decimal(n)[i] <= '9',
    decreases n,
{
    if n >= 10 {
        lemma_digits_name_none(n / 10);
    }
}

/// Without a sanitizer, and with no flags from outside, the compiler is not asked for one.
pub proof fn law_no_sanitizer_is_asked_for(build: BuildOptions, compiler: Compiler, env: Environment)
    requires
        build.sanitizer == Sanitizer::Off,
        env.rustflags is None,
    ensures
        !text_contains(rustflags_text(build, compiler, env), "sanitizer="@),
{
    let p = flag_pieces(build, compiler, env);
    let all = rustflags_text(build, compiler, env);
    lemma_flag_pieces(build, compiler, env);
    assert forall|i: int| 0 <= i < p.len() implies names_none(#[trigger] p[i]) by {
        lemma_piece_names_none(build, compiler, env, i);
    }
    lemma_names_none(p);
    if text_contains(all, "sanitizer="@) {
        reveal_strlit("sanitizer=");
        let at = choose|at: int| #[trigger] occurs_at(all, "sanitizer="@, at);
        let found = all.subrange(at, at + 10);
        assert(found[9] == '=' && found[8] == 'r');
        assert(all[at + 9] == '=' && all[at + 8] == 'r');
    }
}

proof fn lemma_piece_names_none(
    build: BuildOptions,
    compiler: Compiler,
    env: Environment,
    i: int,
)
    requires
        build.sanitizer == Sanitizer::Off,
        env.rustflags is None,
        0 <= i < 15,
    ensures
        names_none(flag_pieces(build, compiler, env)[i]),
{
    if i == 0 {
        reveal_strlit(
            " -Cpasses=sancov-module -Cllvm-args=-sanitizer-coverage-level=4 -Cllvm-args=-sanitizer-coverage-inline-8bit-counters -Cllvm-args=-sanitizer-coverage-pc-table",
        );
    } else if i == 1 {
        reveal_strlit(" -Cllvm-args=-sanitizer-coverage-trace-compares");
    } else if i == 2 {
        reveal_strlit(" -Cllvm-args=-sanitizer-coverage-trace-divs");
    } else if i == 3 {
        reveal_strlit(" -Cllvm-args=-sanitizer-coverage-trace-geps");
    } else if i == 4 {
        reveal_strlit(" --cfg fuzzing");
    } else if i == 5 {
        reveal_strlit(" -Clink-dead-code");
    } else if i == 6 {
        reveal_strlit(" -Cllvm-args=-simplifycfg-branch-fold-threshold=0");
    } else if i == 7 {
        reveal_strlit(" -Cinstrument-coverage");
    } else if i == 9 {
        reveal_strlit(" -Zextra-const-ub-checks -Zstrict-init-checks --cfg careful");
    } else if i == 10 {
        reveal_strlit(" -Cllvm-args=-sanitizer-coverage-stack-depth");
    } else if i == 11 {
        reveal_strlit(" -Cdebug-assertions");
    } else if i == 12 {
        reveal_strlit(" -Clink-arg=/include:main");
    } else if i == 13 {
        reveal_strlit(" -Ccodegen-units=");
        reveal_strlit(" -Ccodegen-units=1");
        match build.codegen_units {
            Some(units) => {
                let (a, b) = (" -Ccodegen-units="@, decimal(units as nat));
                lemma_digits_name_none(units as nat);
                assert forall|k: int| 0 < k < (a + b).len() && (#[trigger] (a + b)[k])
                    == '=' implies (a + b)[k - 1] != 'r' by {
                    if k >= a.len() {
                        assert(b[k - a.len()] == '=');
                    }
                }
            },
            None => {},
        }
    }
}

/// Two builds that differ only in the sanitizer are compiled with different flags.
pub proof fn law_sanitizers_differ(
    build: BuildOptions,
    other: Sanitizer,
    compiler: Compiler,
    env: Environment,
)
    requires
        build.sanitizer != other,
    ensures
        rustflags_text(build, compiler, env) != rustflags_text(
            BuildOptions { sanitizer: other, ..build },
            compiler,
            env,
        ),
{
    let second = BuildOptions { sanitizer: other, ..build };
    lemma_sanitizer_flags_differ(build.sanitizer, other, compiler);
    lemma_one_piece_differs(build, second, compiler, env, 8);
}

proof fn lemma_sanitizer_flags_differ(a: Sanitizer, b: Sanitizer, compiler: Compiler)
    requires
        a != b,
    ensures
        sanitizer_flags(a, compiler) != sanitizer_flags(b, compiler),
{
    let (x, y) = (sanitizer_flags(a, compiler), sanitizer_flags(b, compiler));
    reveal_strlit(" -Csanitizer=");
    reveal_strlit(" -Zsanitizer=");
    reveal_strlit("address");
    reveal_strlit("leak");
    reveal_strlit("memory");
    reveal_strlit("thread");
    if a != Sanitizer::Off && b != Sanitizer::Off {
        assert(x[13] == sanitizer_text(a)[0]);
        assert(y[13] == sanitizer_text(b)[0]);
    } else if a == Sanitizer::Off {
        assert(x.len() == 0 && y.len() > 0);
    } else {
        assert(y.len() == 0 && x.len() > 0);
    }
}

proof fn lemma_piece_is_there(
    build: BuildOptions,
    compiler: Compiler,
    env: Environment,
    i: int,
    word: Seq<char>,
)
    requires
        0 <= i < 15,
        flag_pieces(build, compiler, env)[i] == word,
    ensures
        text_contains(rustflags_text(build, compiler, env), word),
{
    lemma_flag_pieces(build, compiler, env);
    lemma_contains_itself(word);
    lemma_flat_contains(flag_pieces(build, compiler, env), i, word);
}

/// Every target is compiled so that libFuzzer learns what it executes, and with what is asked for.
pub proof fn law_flags_follow_options(build: BuildOptions, compiler: Compiler, env: Environment)
    ensures
        ({
            let flags = rustflags_text(build, compiler, env);
            &&& text_contains(
                flags,
                " -Cpasses=sancov-module -Cllvm-args=-sanitizer-coverage-level=4 -Cllvm-args=-sanitizer-coverage-inline-8bit-counters -Cllvm-args=-sanitizer-coverage-pc-table"@,
            )
            &&& !build.no_trace_compares ==> text_contains(
                flags,
                " -Cllvm-args=-sanitizer-coverage-trace-compares"@,
            )
            &&& build.trace_div ==> text_contains(
                flags,
                " -Cllvm-args=-sanitizer-coverage-trace-divs"@,
            )
            &&& build.trace_gep ==> text_contains(
                flags,
                " -Cllvm-args=-sanitizer-coverage-trace-geps"@,
            )
            &&& !build.no_cfg_fuzzing ==> text_contains(flags, " --cfg fuzzing"@)
            &&& build.strip_dead_code == Some(Some(false)) ==> text_contains(
                flags,
                " -Clink-dead-code"@,
            )
            &&& build.disable_branch_folding != Some(Some(false)) ==> text_contains(
                flags,
                " -Cllvm-args=-simplifycfg-branch-fold-threshold=0"@,
            )
            &&& build.coverage ==> text_contains(flags, " -Cinstrument-coverage"@)
            &&& build.careful_mode ==> text_contains(
                flags,
                " -Zextra-const-ub-checks -Zstrict-init-checks --cfg careful"@,
            )
            &&& text_contains(build.triple@, "-linux-"@) ==> text_contains(
                flags,
                " -Cllvm-args=-sanitizer-coverage-stack-depth"@,
            )
            &&& !build.release || build.debug_assertions || build.careful_mode ==> text_contains(
                flags,
                " -Cdebug-assertions"@,
            )
            &&& text_contains(build.triple@, "-msvc"@) && !build.no_include_main_msvc
                ==> text_contains(flags, " -Clink-arg=/include:main"@)
            &&& build.codegen_units matches Some(units) ==> text_contains(
                flags,
                " -Ccodegen-units="@ + decimal(units as nat),
            )
            &&& build.codegen_units is None && !build.dev ==> text_contains(
                flags,
                " -Ccodegen-units=1"@,
            )
        }),
{
    let p = flag_pieces(build, compiler, env);
    lemma_flag_pieces(build, compiler, env);
    lemma_piece_is_there(build, compiler, env, 0, p[0]);
    lemma_piece_is_there(build, compiler, env, 1, p[1]);
    lemma_piece_is_there(build, compiler, env, 2, p[2]);
    lemma_piece_is_there(build, compiler, env, 3, p[3]);
    lemma_piece_is_there(build, compiler, env, 4, p[4]);
    lemma_piece_is_there(build, compiler, env, 5, p[5]);
    lemma_piece_is_there(build, compiler, env, 6, p[6]);
    lemma_piece_is_there(build, compiler, env, 7, p[7]);
    lemma_piece_is_there(build, compiler, env, 9, p[9]);
    lemma_piece_is_there(build, compiler, env, 10, p[10]);
    lemma_piece_is_there(build, compiler, env, 11, p[11]);
    lemma_piece_is_there(build, compiler, env, 12, p[12]);
    lemma_piece_is_there(build, compiler, env, 13, p[13]);
}

proof fn lemma_one_piece_differs(
    build: BuildOptions,
    other: BuildOptions,
    compiler: Compiler,
    env: Environment,
    i: int,
)
    requires
        0 <= i < 15,
        forall|k: int|
            0 <= k < 15 && k != i ==> #[trigger] flag_piece(build, compiler, env, k) == flag_piece(
                other,
                compiler,
                env,
                k,
            ),
        flag_piece(build, compiler, env, i) != flag_piece(other, compiler, env, i),
    ensures
        rustflags_text(build, compiler, env) != rustflags_text(other, compiler, env),
{
    let (p, q) = (flag_pieces(build, compiler, env), flag_pieces(other, compiler, env));
    lemma_flag_pieces(build, compiler, env);
    lemma_flag_pieces(other, compiler, env);
    if flat(p) == flat(q) {
        assert forall|k: int| 0 <= k < p.len() && k != i implies #[trigger] p[k] == q[k] by {
            assert(flag_piece(build, compiler, env, k) == flag_piece(other, compiler, env, k));
        }
        lemma_flat_differs(p, q, i);
    }
}

/// A target is compiled in another way for a report of coverage than without.
pub proof fn law_coverage_changes_flags(build: BuildOptions, compiler: Compiler, env: Environment)
    ensures
        rustflags_text(build, compiler, env) != rustflags_text(
            BuildOptions { coverage: !build.coverage, ..build },
            compiler,
            env,
        ),
{
    reveal_strlit(" -Cinstrument-coverage");
    let other = BuildOptions { coverage: !build.coverage, ..build };
    assert(flag_piece(build, compiler, env, 7).len() != flag_piece(
        other,
        compiler,
        env,
        7,
    ).len());
    lemma_one_piece_differs(build, other, compiler, env, 7);
}

/// A target is compiled in another way when comparisons are not traced.
pub proof fn law_comparisons_change_flags(build: BuildOptions, compiler: Compiler, env: Environment)
    ensures
        rustflags_text(build, compiler, env) != rustflags_text(
            BuildOptions { no_trace_compares: !build.no_trace_compares, ..build },
            compiler,
            env,
        ),
{
    reveal_strlit(" -Cllvm-args=-sanitizer-coverage-trace-compares");
    let other = BuildOptions { no_trace_compares: !build.no_trace_compares, ..build };
    assert(flag_piece(build, compiler, env, 1).len() != flag_piece(
        other,
        compiler,
        env,
        1,
    ).len());
    lemma_one_piece_differs(build, other, compiler, env, 1);
}

/// A target is compiled in another way when divisions are traced.
pub proof fn law_divisions_change_flags(build: BuildOptions, compiler: Compiler, env: Environment)
    ensures
        rustflags_text(build, compiler, env) != rustflags_text(
            BuildOptions { trace_div: !build.trace_div, ..build },
            compiler,
            env,
        ),
{
    reveal_strlit(" -Cllvm-args=-sanitizer-coverage-trace-divs");
    let other = BuildOptions { trace_div: !build.trace_div, ..build };
    assert(flag_piece(build, compiler, env, 2).len() != flag_piece(
        other,
        compiler,
        env,
        2,
    ).len());
    lemma_one_piece_differs(build, other, compiler, env, 2);
}

/// A target is compiled in another way when the computing of addresses is traced.
pub proof fn law_addresses_change_flags(build: BuildOptions, compiler: Compiler, env: Environment)
    ensures
        rustflags_text(build, compiler, env) != rustflags_text(
            BuildOptions { trace_gep: !build.trace_gep, ..build },
            compiler,
            env,
        ),
{
    reveal_strlit(" -Cllvm-args=-sanitizer-coverage-trace-geps");
    let other = BuildOptions { trace_gep: !build.trace_gep, ..build };
    assert(flag_piece(build, compiler, env, 3).len() != flag_piece(
        other,
        compiler,
        env,
        3,
    ).len());
    lemma_one_piece_differs(build, other, compiler, env, 3);
}

/// A target is compiled in another way when it is not told that it is fuzzed.
pub proof fn law_cfg_changes_flags(build: BuildOptions, compiler: Compiler, env: Environment)
    ensures
        rustflags_text(build, compiler, env) != rustflags_text(
            BuildOptions { no_cfg_fuzzing: !build.no_cfg_fuzzing, ..build },
            compiler,
            env,
        ),
{
    reveal_strlit(" --cfg fuzzing");
    let other = BuildOptions { no_cfg_fuzzing: !build.no_cfg_fuzzing, ..build };
    assert(flag_piece(build, compiler, env, 4).len() != flag_piece(
        other,
        compiler,
        env,
        4,
    ).len());
    lemma_one_piece_differs(build, other, compiler, env, 4);
}

/// Debug assertions are a matter of the flags, where nothing else asks for them.
pub proof fn law_assertions_change_flags(build: BuildOptions, compiler: Compiler, env: Environment)
    ensures
        build.release && !build.careful_mode ==> rustflags_text(build, compiler, env) != rustflags_text(
            BuildOptions { debug_assertions: !build.debug_assertions, ..build },
            compiler,
            env,
        ),
{
    reveal_strlit(" -Cdebug-assertions");
    if build.release && !build.careful_mode {
        let other = BuildOptions { debug_assertions: !build.debug_assertions, ..build };
        assert(flag_piece(build, compiler, env, 11).len() != flag_piece(
            other,
            compiler,
            env,
            11,
        ).len());
        lemma_one_piece_differs(build, other, compiler, env, 11);
    }
}

/// Without optimization there are debug assertions, and with it there are none unless asked for.
pub proof fn law_release_changes_flags(build: BuildOptions, compiler: Compiler, env: Environment)
    ensures
        !build.debug_assertions && !build.careful_mode ==> rustflags_text(build, compiler, env) != rustflags_text(
            BuildOptions { release: !build.release, ..build },
            compiler,
            env,
        ),
{
    reveal_strlit(" -Cdebug-assertions");
    if !build.debug_assertions && !build.careful_mode {
        let other = BuildOptions { release: !build.release, ..build };
        assert(flag_piece(build, compiler, env, 11).len() != flag_piece(
            other,
            compiler,
            env,
            11,
        ).len());
        lemma_one_piece_differs(build, other, compiler, env, 11);
    }
}

/// A target that is built without optimizations is compiled in as many units as the compiler likes.
pub proof fn law_dev_changes_flags(build: BuildOptions, compiler: Compiler, env: Environment)
    ensures
        build.codegen_units is None ==> rustflags_text(build, compiler, env) != rustflags_text(
            BuildOptions { dev: !build.dev, ..build },
            compiler,
            env,
        ),
{
    reveal_strlit(" -Ccodegen-units=1");
    if build.codegen_units is None {
        let other = BuildOptions { dev: !build.dev, ..build };
        assert(flag_piece(build, compiler, env, 13).len() != flag_piece(
            other,
            compiler,
            env,
            13,
        ).len());
        lemma_one_piece_differs(build, other, compiler, env, 13);
    }
}

proof fn lemma_arg_pieces(subcommand: Seq<char>, manifest: Seq<char>, build: BuildOptions)
    ensures
        cargo_args(subcommand, manifest, build) == flat(arg_pieces(subcommand, manifest, build)),
{
    let p = arg_pieces(subcommand, manifest, build);
    reveal_with_fuel(flat, 9);
    assert(p.drop_last().drop_last().drop_last().drop_last().drop_last().drop_last().drop_last()
        =~= seq![p[0]]);
    assert(p.drop_last().drop_last().drop_last().drop_last().drop_last().drop_last() =~= seq![
        p[0],
        p[1],
    ]);
    assert(p.drop_last().drop_last().drop_last().drop_last().drop_last() =~= seq![p[0], p[1], p[2]]);
    assert(p.drop_last().drop_last().drop_last().drop_last() =~= seq![p[0], p[1], p[2], p[3]]);
    assert(p.drop_last().drop_last().drop_last() =~= seq![p[0], p[1], p[2], p[3], p[4]]);
    assert(p.drop_last().drop_last() =~= seq![p[0], p[1], p[2], p[3], p[4], p[5]]);
    assert(p.drop_last() =~= seq![p[0], p[1], p[2], p[3], p[4], p[5], p[6]]);
    assert(Seq::<Seq<char>>::empty() + p[0] =~= p[0]);
}

/// Whether arguments stand one behind the other in a list of arguments.
pub open spec fn are_passed(args: Seq<Seq<char>>, part: Seq<Seq<char>>) -> bool {
    exists|i: int|
        0 <= i && i + part.len() <= args.len() && #[trigger] args.subrange(i, i + part.len()) == part
}

proof fn lemma_piece_is_passed(
    subcommand: Seq<char>,
    manifest: Seq<char>,
    build: BuildOptions,
    i: int,
)
    requires
        0 <= i < 8,
    ensures
        are_passed(
            cargo_args(subcommand, manifest, build),
            arg_pieces(subcommand, manifest, build)[i],
        ),
{
    let p = arg_pieces(subcommand, manifest, build);
    let args = cargo_args(subcommand, manifest, build);
    lemma_arg_pieces(subcommand, manifest, build);
    lemma_flat_split(p, i);
    let at = flat(p.take(i)).len() as int;
    assert(args.subrange(at, at + p[i].len()) =~= p[i]);
}

/// Cargo is told what to build, for which platform, and what is asked for.
pub proof fn law_arguments_follow_options(
    subcommand: Seq<char>,
    manifest: Seq<char>,
    build: BuildOptions,
)
    ensures
        ({
            let args = cargo_args(subcommand, manifest, build);
            &&& args.len() >= 5
            &&& args[0] == subcommand
            &&& are_passed(args, seq![subcommand, "--manifest-path"@, manifest, "--target"@, build.triple@])
            &&& !build.dev ==> are_passed(
                args,
                seq!["--release"@, "--config"@, "profile.release.debug=\"line-tables-only\""@],
            )
            &&& build.verbose ==> are_passed(args, seq!["--verbose"@])
            &&& build.no_default_features ==> are_passed(args, seq!["--no-default-features"@])
            &&& build.all_features ==> are_passed(args, seq!["--all-features"@])
            &&& build.features matches Some(features) ==> are_passed(
                args,
                seq!["--features"@, features@],
            )
            &&& !build.coverage && (build.build_std || build.careful_mode || build.sanitizer
                == Sanitizer::Memory) ==> are_passed(args, seq!["-Z"@, "build-std"@])
            &&& args.len() == 5 + (if build.dev {
                0int
            } else {
                3
            }) + (if build.verbose {
                1int
            } else {
                0
            }) + (if build.no_default_features {
                1int
            } else {
                0
            }) + (if build.all_features {
                1int
            } else {
                0
            }) + (if build.features is Some {
                2int
            } else {
                0
            }) + 2 * build.unstable_flags@.len() + (if !build.coverage && (build.build_std
                || build.careful_mode || build.sanitizer == Sanitizer::Memory) {
                2int
            } else {
                0
            })
        }),
{
    let args = cargo_args(subcommand, manifest, build);
    lemma_piece_is_passed(subcommand, manifest, build, 0);
    lemma_piece_is_passed(subcommand, manifest, build, 1);
    lemma_piece_is_passed(subcommand, manifest, build, 2);
    lemma_piece_is_passed(subcommand, manifest, build, 3);
    lemma_piece_is_passed(subcommand, manifest, build, 4);
    lemma_piece_is_passed(subcommand, manifest, build, 5);
    lemma_piece_is_passed(subcommand, manifest, build, 7);
    lemma_unstable_args(texts(build.unstable_flags@));
}

proof fn lemma_unstable_args(flags: Seq<Seq<char>>)
    ensures
        unstable_args(flags).len() == 2 * flags.len(),
        forall|i: int|
            0 <= i < flags.len() ==> (#[trigger] flags[i]) == unstable_args(flags)[2 * i + 1]
                && unstable_args(flags)[2 * i] == "-Z"@,
    decreases flags.len(),
{
    if flags.len() > 0 {
        let less = flags.drop_last();
        lemma_unstable_args(less);
        let (some, pair) = (unstable_args(less), seq!["-Z"@, flags.last()]);
        assert(unstable_args(flags) == some + pair);
        assert forall|i: int| 0 <= i < flags.len() implies (#[trigger] flags[i]) == unstable_args(
            flags,
        )[2 * i + 1] && unstable_args(flags)[2 * i] == "-Z"@ by {
            if i < less.len() {
                assert(less[i] == flags[i]);
                assert((some + pair)[2 * i] == some[2 * i]);
                assert((some + pair)[2 * i + 1] == some[2 * i + 1]);
            } else {
                assert((some + pair)[2 * i] == pair[0]);
                assert((some + pair)[2 * i + 1] == pair[1]);
            }
        }
    }
}

/// Each unstable flag that is given is passed to cargo, behind `-Z`.
pub proof fn law_unstable_flags_are_passed(
    subcommand: Seq<char>,
    manifest: Seq<char>,
    build: BuildOptions,
    i: int,
)
    requires
        0 <= i < build.unstable_flags@.len(),
    ensures
        are_passed(
            cargo_args(subcommand, manifest, build),
            seq!["-Z"@, build.unstable_flags@[i]@],
        ),
{
    let flags = texts(build.unstable_flags@);
    let args = cargo_args(subcommand, manifest, build);
    let p = arg_pieces(subcommand, manifest, build);
    lemma_arg_pieces(subcommand, manifest, build);
    lemma_flat_split(p, 6);
    lemma_unstable_args(flags);
    assert(flags[i] == build.unstable_flags@[i]@);
    let at = flat(p.take(6)).len() + 2 * i;
    let pair = seq!["-Z"@, build.unstable_flags@[i]@];
    assert(args.subrange(at, at + 2) =~= pair);
    assert(args.subrange(at, at + pair.len()) == pair);
}

/// What a sanitizer is told keeps what is in the environment, and is told it last; the other
/// sanitizers are told nothing.
pub proof fn law_sanitizer_options(sanitizer: Sanitizer, env: Environment)
    ensures
        ({
            let vars = sanitizer_env(sanitizer, env);
            &&& sanitizer == Sanitizer::Address ==> vars.len() == 1 && vars[0].0 == "ASAN_OPTIONS"@
                && text_ends_with(vars[0].1, "detect_odr_violation=0"@) && (env.asan_options
                matches Some(given) ==> text_starts_with(vars[0].1, given@))
            &&& sanitizer == Sanitizer::Thread ==> vars.len() == 1 && vars[0].0 == "TSAN_OPTIONS"@
                && text_ends_with(vars[0].1, "report_signal_unsafe=0"@) && (env.tsan_options
                matches Some(given) ==> text_starts_with(vars[0].1, given@))
            &&& sanitizer != Sanitizer::Address && sanitizer != Sanitizer::Thread ==> vars.len() == 0
        }),
{
    let vars = sanitizer_env(sanitizer, env);
    match sanitizer {
        Sanitizer::Address => {
            lemma_options_kept(string_option(env.asan_options), "detect_odr_violation=0"@);
        },
        Sanitizer::Thread => {
            lemma_options_kept(string_option(env.tsan_options), "report_signal_unsafe=0"@);
        },
        _ => {},
    }
}

proof fn lemma_options_kept(given: Option<Seq<char>>, more: Seq<char>)
    ensures
        text_ends_with(joined_options(given, more), more),
        given matches Some(given) ==> text_starts_with(joined_options(Some(given), more), given),
{
    let all = joined_options(given, more);
    assert(all.subrange(all.len() - more.len(), all.len() as int) =~= more);
    if let Some(given) = given {
        assert(all.subrange(0, given.len() as int) =~= given);
    }
}

/// What was given stands first, with a colon behind it; where nothing was given, there is none.
pub proof fn law_given_options_stand_first(given: Seq<char>, more: Seq<char>)
    ensures
        joined_options(None, more) == more,
        given.len() == 0 ==> joined_options(Some(given), more) == more,
        given.len() > 0 ==> {
            let all = joined_options(Some(given), more);
            &&& all.len() == given.len() + 1 + more.len()
            &&& all.take(given.len() as int) == given
            &&& all[given.len() as int] == ':'
            &&& all.skip(given.len() + 1int) == more
        },
{
    reveal_strlit(":");
    if given.len() > 0 {
        let all = joined_options(Some(given), more);
        assert(all.take(given.len() as int) =~= given);
        assert(all.skip(given.len() + 1int) =~= more);
    }
}

} // verus!
