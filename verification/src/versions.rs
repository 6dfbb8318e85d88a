//! Versions of packages.

use crate::text::{append, chars_of, decimal, decimal_text, digit_value, digits_value};
use vstd::prelude::*;

verus! {

pub open spec fn is_digit(c: char) -> bool {
    '0' <= c <= '9'
}

/// The runs of digits in a text that have ended, and the one that has not.
pub open spec fn scanned(s: Seq<char>) -> (Seq<Seq<char>>, Seq<char>)
    decreases s.len(),
{
    if s.len() == 0 {
        (Seq::empty(), Seq::empty())
    } else {
        let (done, current) = scanned(s.drop_last());
        if is_digit(s.last()) {
            (done, current.push(s.last()))
        } else if current.len() > 0 {
            (done.push(current), Seq::empty())
        } else {
            (done, current)
        }
    }
}

/// The runs of digits in a text.
pub open spec fn digit_runs(s: Seq<char>) -> Seq<Seq<char>> {
    let (done, current) = scanned(s);
    if current.len() > 0 {
        done.push(current)
    } else {
        done
    }
}

/// The number that stands at a place in a version, or 0 where none does.
pub open spec fn component_at(runs: Seq<Seq<char>>, i: int) -> nat {
    if i < runs.len() {
        digits_value(runs[i], 10)
    } else {
        0
    }
}

/// The version that a requirement speaks of: its first three numbers. There is none where there is
/// no number, or one of them is too large.
pub open spec fn required_version(req: Seq<char>) -> Option<Seq<char>> {
    let runs = digit_runs(req);
    if runs.len() == 0 || component_at(runs, 0) > u64::MAX || component_at(runs, 1) > u64::MAX
        || component_at(runs, 2) > u64::MAX {
        None
    } else {
        Some(
            decimal(component_at(runs, 0)) + "."@ + decimal(component_at(runs, 1)) + "."@ + decimal(
                component_at(runs, 2),
            ),
        )
    }
}

/// The runs that have ended stay as they are.
proof fn lemma_runs_prefix(s: Seq<char>, i: int, k: int)
    requires
        0 <= i <= s.len(),
        0 <= k < digit_runs(s.take(i)).len(),
        k < scanned(s.take(i)).0.len() || i == s.len() || !is_digit(s[i]),
    ensures
        k < digit_runs(s).len(),
        digit_runs(s)[k] == digit_runs(s.take(i))[k],
    decreases s.len() - i,
{
    if i == s.len() {
        assert(s.take(i) =~= s);
    } else {
        assert(s.take(i + 1).drop_last() =~= s.take(i));
        let (done, current) = scanned(s.take(i));
        let (more, next) = scanned(s.take(i + 1));
        if is_digit(s[i]) {
            assert(more == done);
        }
        assert(k < more.len());
        assert(digit_runs(s.take(i + 1))[k] == digit_runs(s.take(i))[k]);
        lemma_runs_prefix(s, i + 1, k);
    }
}

spec fn all_digits(s: Seq<char>) -> bool {
    forall|i: int| 0 <= i < s.len() ==> is_digit(#[trigger] s[i])
}

/// Reads digits as a number, if it has 64 bits.
fn parse_digits(run: &Vec<char>) -> (r: Option<u64>)
    requires
        all_digits(run@),
    ensures
        r is Some <==> digits_value(run@, 10) <= u64::MAX,
        r is Some ==> r->0 == digits_value(run@, 10),
{
    let n = run.len();
    let mut value: u64 = 0;
    let mut i: usize = 0;
    assert(run@.take(0).len() == 0);
    while i < n
        invariant
            n == run@.len(),
            all_digits(run@),
            i <= n,
            value == digits_value(run@.take(i as int), 10),
        decreases n - i,
    {
        let c = run[i];
        assert(is_digit(run@[i as int]));
        assert(run@.take(i + 1).drop_last() =~= run@.take(i as int));
        let d = decimal_digit(c);
        proof {
            lemma_value_grows(run@, i + 1);
        }
        match value.checked_mul(10) {
            Some(tens) => match tens.checked_add(d) {
                Some(sum) => {
                    value = sum;
                },
                None => {
                    return None;
                },
            },
            None => {
                return None;
            },
        }
        i = i + 1;
    }
    assert(run@.take(n as int) =~= run@);
    Some(value)
}

fn decimal_digit(c: char) -> (r: u64)
    requires
        is_digit(c),
    ensures
        r == digit_value(c),
{
    match c {
        '0' => 0,
        '1' => 1,
        '2' => 2,
        '3' => 3,
        '4' => 4,
        '5' => 5,
        '6' => 6,
        '7' => 7,
        '8' => 8,
        _ => 9,
    }
}

/// More digits do not make a number smaller.
proof fn lemma_value_grows(s: Seq<char>, n: int)
    requires
        0 <= n <= s.len(),
    ensures
        digits_value(s.take(n), 10) <= digits_value(s, 10),
    decreases s.len(),
{
    if n == s.len() {
        assert(s.take(n) =~= s);
    } else {
        lemma_value_grows(s.drop_last(), n);
        assert(s.drop_last().take(n) =~= s.take(n));
    }
}

/// The first three numbers that have been read.
spec fn read_so_far(components: Seq<u64>, runs: Seq<Seq<char>>) -> bool {
    &&& components.len() == (if runs.len() < 3 {
        runs.len()
    } else {
        3
    })
    &&& forall|k: int|
        0 <= k < components.len() ==> #[trigger] components[k] == digits_value(runs[k], 10)
}

/// The version that a requirement speaks of.
pub fn version_from_dependency_req(req: &str) -> (r: Option<String>)
    ensures
        r is Some <==> required_version(req@) is Some,
        r matches Some(version) ==> Some(version@) == required_version(req@),
{
    let c = chars_of(req);
    let n = c.len();
    let ghost s = req@;
    let mut components: Vec<u64> = Vec::new();
    let mut current: Vec<char> = Vec::new();
    let mut i: usize = 0;
    assert(s.take(0).len() == 0);
    while i < n
        invariant
            c@ == s,
            s == req@,
            n == s.len(),
            i <= n,
            read_so_far(components@, scanned(s.take(i as int)).0),
            current@ == scanned(s.take(i as int)).1,
            all_digits(current@),
        decreases n - i,
    {
        let ch = c[i];
        assert(s.take(i + 1).drop_last() =~= s.take(i as int));
        let ghost (done, open) = scanned(s.take(i as int));
        if '0' <= ch && ch <= '9' {
            current.push(ch);
        } else if current.len() > 0 {
            if components.len() < 3 {
                match parse_digits(&current) {
                    Some(value) => {
                        components.push(value);
                    },
                    None => {
                        proof {
                            lemma_runs_prefix(s, i as int, done.len() as int);
                        }
                        return None;
                    },
                }
            }
            current = Vec::new();
        }
        i = i + 1;
    }
    assert(s.take(n as int) =~= s);
    let ghost runs = digit_runs(s);
    if current.len() > 0 && components.len() < 3 {
        match parse_digits(&current) {
            Some(value) => {
                components.push(value);
            },
            None => {
                return None;
            },
        }
    }
    assert(read_so_far(components@, runs));
    if components.len() == 0 {
        return None;
    }
    let first = components[0];
    let second = if components.len() > 1 {
        components[1]
    } else {
        0
    };
    let third = if components.len() > 2 {
        components[2]
    } else {
        0
    };
    let mut out = decimal_text(first);
    append(&mut out, ".");
    let text = decimal_text(second);
    append(&mut out, text.as_str());
    append(&mut out, ".");
    let text = decimal_text(third);
    append(&mut out, text.as_str());
    Some(out)
}

} // verus!
