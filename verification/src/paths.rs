//! Unix paths as text.
//!
//! A path is read as `std::path` reads it on Unix: runs of separators count as one, and a `.` that
//! is not at the very start is no component.

use crate::text::{append, chars_of, string_of, string_of_slice};
use vstd::prelude::*;

verus! {

/// What `base` followed by `rest` is: `rest` itself where it is absolute.
pub open spec fn joined(base: Seq<char>, rest: Seq<char>) -> Seq<char> {
    if is_absolute_path(rest) {
        rest
    } else if base.len() == 0 || base.last() == '/' {
        base + rest
    } else {
        base.push('/') + rest
    }
}

pub open spec fn is_absolute_path(p: Seq<char>) -> bool {
    p.len() > 0 && p[0] == '/'
}

/// The index of the first separator of `p` at or after `from`, or the length of `p`.
pub open spec fn next_separator(p: Seq<char>, from: int) -> int
    decreases p.len() - from,
{
    if from >= p.len() {
        p.len() as int
    } else if p[from] == '/' {
        from
    } else {
        next_separator(p, from + 1)
    }
}

pub proof fn lemma_next_separator(p: Seq<char>, from: int)
    requires
        0 <= from <= p.len(),
    ensures
        from <= next_separator(p, from) <= p.len(),
    decreases p.len() - from,
{
    if from < p.len() && p[from] != '/' {
        lemma_next_separator(p, from + 1);
    }
}

/// Whether the characters of `p` from `start` up to `end` name a component.
pub open spec fn names_component(p: Seq<char>, start: int, end: int) -> bool {
    start < end && !(end == start + 1 && p[start] == '.')
}

/// Where the components of `p` after `from` start and end.
pub open spec fn body_spans(p: Seq<char>, from: int) -> Seq<(int, int)>
    decreases p.len() - from,
    when 0 <= from <= p.len()
{
    proof {
        lemma_next_separator(p, from);
    }
    let end = next_separator(p, from);
    let rest = if end < p.len() {
        body_spans(p, end + 1)
    } else {
        Seq::empty()
    };
    if names_component(p, from, end) {
        seq![(from, end)] + rest
    } else {
        rest
    }
}

/// Whether `p` starts with the component `.`.
pub open spec fn starts_with_dot(p: Seq<char>) -> bool {
    p.len() > 0 && p[0] == '.' && (p.len() == 1 || p[1] == '/')
}

/// Where the components of `p` start and end. The root of an absolute path is its first component.
pub open spec fn spans(p: Seq<char>) -> Seq<(int, int)> {
    if is_absolute_path(p) || starts_with_dot(p) {
        seq![(0int, 1int)] + body_spans(p, 1)
    } else {
        body_spans(p, 0)
    }
}

pub open spec fn component(p: Seq<char>, i: int) -> Seq<char> {
    p.subrange(spans(p)[i].0, spans(p)[i].1)
}

/// Whether the components of `base` are the first components of `p`.
pub open spec fn path_starts_with(p: Seq<char>, base: Seq<char>) -> bool {
    &&& spans(base).len() <= spans(p).len()
    &&& forall|i: int|
        0 <= i < spans(base).len() ==> #[trigger] component(p, i) == component(base, i)
}

/// Whether two paths have the same components.
pub open spec fn same_path(a: Seq<char>, b: Seq<char>) -> bool {
    path_starts_with(a, b) && path_starts_with(b, a)
}

/// The text of `p` from its component `n` through its last component.
pub open spec fn path_rest(p: Seq<char>, n: int) -> Seq<char> {
    if 0 <= n < spans(p).len() {
        p.subrange(spans(p)[n].0, spans(p).last().1)
    } else {
        Seq::empty()
    }
}

proof fn lemma_body_spans(p: Seq<char>, from: int)
    requires
        0 <= from <= p.len(),
    ensures
        forall|i: int|
            0 <= i < body_spans(p, from).len() ==> from <= (#[trigger] body_spans(p, from)[i]).0
                < body_spans(p, from)[i].1 <= p.len(),
        forall|i: int, j: int|
            0 <= i < j < body_spans(p, from).len() ==> (#[trigger] body_spans(p, from)[i]).1 < (
            #[trigger] body_spans(p, from)[j]).0,
    decreases p.len() - from,
{
    lemma_next_separator(p, from);
    let end = next_separator(p, from);
    let all = body_spans(p, from);
    let rest = if end < p.len() {
        lemma_body_spans(p, end + 1);
        body_spans(p, end + 1)
    } else {
        Seq::empty()
    };
    let skipped = if names_component(p, from, end) {
        1int
    } else {
        0int
    };
    assert(all =~= (if skipped == 1 {
        seq![(from, end)] + rest
    } else {
        rest
    }));
    assert forall|i: int| skipped <= i < all.len() implies #[trigger] all[i] == rest[i
        - skipped] by {}
}

proof fn lemma_spans(p: Seq<char>)
    ensures
        forall|i: int|
            0 <= i < spans(p).len() ==> 0 <= (#[trigger] spans(p)[i]).0 < spans(p)[i].1 <= p.len(),
        forall|i: int, j: int|
            0 <= i <= j < spans(p).len() ==> (#[trigger] spans(p)[i]).1 <= (#[trigger] spans(
                p,
            )[j]).1,
{
    if p.len() > 0 {
        lemma_body_spans(p, 1);
    }
    lemma_body_spans(p, 0);
}

/// `base` followed by `rest`.
pub fn join(base: &str, rest: &str) -> (r: String)
    ensures
        r@ == joined(base@, rest@),
{
    let b = chars_of(base);
    let t = chars_of(rest);
    if t.len() > 0 && t[0] == '/' {
        return string_of(&t);
    }
    let mut out = string_of(&b);
    if b.len() > 0 && b[b.len() - 1] != '/' {
        out.push('/');
    }
    vstd::string::StringExecFns::append(&mut out, rest);
    out
}

pub fn is_absolute(p: &str) -> (r: bool)
    ensures
        r == is_absolute_path(p@),
{
    let c = chars_of(p);
    c.len() > 0 && c[0] == '/'
}

/// The places of the components of `p`.
fn component_spans(p: &Vec<char>) -> (r: Vec<(usize, usize)>)
    ensures
        r@.len() == spans(p@).len(),
        forall|i: int|
            0 <= i < r@.len() ==> (#[trigger] r@[i]).0 == spans(p@)[i].0 && r@[i].1 == spans(
                p@,
            )[i].1,
{
    let mut out: Vec<(usize, usize)> = Vec::new();
    let mut from: usize = 0;
    let n = p.len();
    if n > 0 && (p[0] == '/' || (p[0] == '.' && (n == 1 || p[1] == '/'))) {
        out.push((0, 1));
        from = 1;
    }
    let mut more = true;
    let ghost all = spans(p@);
    while more
        invariant
            n == p@.len(),
            0 <= from <= n,
            all == spans(p@),
            all.len() == out@.len() + (if more {
                body_spans(p@, from as int).len() as int
            } else {
                0
            }),
            forall|i: int|
                0 <= i < out@.len() ==> (#[trigger] out@[i]).0 == all[i].0 && out@[i].1
                    == all[i].1,
            more ==> forall|i: int|
                0 <= i < body_spans(p@, from as int).len() ==> #[trigger] body_spans(
                    p@,
                    from as int,
                )[i] == all[out@.len() + i],
        decreases n - from + (if more {
            1int
        } else {
            0
        }),
    {
        let mut end = from;
        while end < n && p[end] != '/'
            invariant
                from <= end <= n,
                n == p@.len(),
                next_separator(p@, from as int) == next_separator(p@, end as int),
            decreases n - end,
        {
            end = end + 1;
        }
        let ghost old_from = from as int;
        let ghost sp = body_spans(p@, old_from);
        assert(end == next_separator(p@, old_from));
        let ghost rest = if end < n {
            body_spans(p@, end + 1)
        } else {
            Seq::empty()
        };
        assert(sp == if names_component(p@, old_from, end as int) {
            seq![(old_from, end as int)] + rest
        } else {
            rest
        });
        let ghost done = out@.len() as int;
        if from < end && !(end == from + 1 && p[from] == '.') {
            assert(sp[0] == all[done]);
            out.push((from, end));
            assert forall|i: int| 0 <= i < rest.len() implies #[trigger] rest[i] == all[done + 1
                + i] by {
                assert(sp[i + 1] == rest[i]);
            }
        } else {
            assert forall|i: int| 0 <= i < rest.len() implies #[trigger] rest[i] == all[done
                + i] by {
                assert(sp[i] == rest[i]);
            }
        }
        if end < n {
            from = end + 1;
        } else {
            more = false;
        }
    }
    out
}

/// Whether the characters of `a` in the span `x` are those of `b` in the span `y`.
fn same_component(a: &Vec<char>, x: (usize, usize), b: &Vec<char>, y: (usize, usize)) -> (r: bool)
    requires
        x.0 <= x.1 <= a@.len(),
        y.0 <= y.1 <= b@.len(),
    ensures
        r == (a@.subrange(x.0 as int, x.1 as int) == b@.subrange(y.0 as int, y.1 as int)),
{
    let ghost left = a@.subrange(x.0 as int, x.1 as int);
    let ghost right = b@.subrange(y.0 as int, y.1 as int);
    if x.1 - x.0 != y.1 - y.0 {
        assert(left.len() != right.len());
        return false;
    }
    let n = x.1 - x.0;
    let mut i: usize = 0;
    while i < n
        invariant
            x.0 <= x.1 <= a@.len(),
            y.0 <= y.1 <= b@.len(),
            n == x.1 - x.0,
            n == y.1 - y.0,
            left == a@.subrange(x.0 as int, x.1 as int),
            right == b@.subrange(y.0 as int, y.1 as int),
            i <= n,
            forall|j: int| 0 <= j < i ==> left[j] == right[j],
        decreases n - i,
    {
        if a[x.0 + i] != b[y.0 + i] {
            assert(left[i as int] != right[i as int]);
            return false;
        }
        i = i + 1;
    }
    assert(left =~= right);
    true
}

/// The text of `p` after the components of `base`, if those are its first components.
pub fn strip_prefix(p: &str, base: &str) -> (r: Option<String>)
    ensures
        r is Some <==> path_starts_with(p@, base@),
        r is Some ==> r->0@ == path_rest(p@, spans(base@).len() as int),
{
    let c = chars_of(p);
    let d = chars_of(base);
    let ps = component_spans(&c);
    let bs = component_spans(&d);
    proof {
        lemma_spans(p@);
        lemma_spans(base@);
    }
    if bs.len() > ps.len() {
        return None;
    }
    let mut i: usize = 0;
    while i < bs.len()
        invariant
            c@ == p@,
            d@ == base@,
            i <= bs@.len() <= ps@.len(),
            ps@.len() == spans(p@).len(),
            bs@.len() == spans(base@).len(),
            forall|k: int|
                0 <= k < ps@.len() ==> (#[trigger] ps@[k]).0 == spans(p@)[k].0 && ps@[k].1 == spans(
                    p@,
                )[k].1,
            forall|k: int|
                0 <= k < bs@.len() ==> (#[trigger] bs@[k]).0 == spans(base@)[k].0 && bs@[k].1
                    == spans(base@)[k].1,
            forall|k: int|
                0 <= k < spans(p@).len() ==> 0 <= (#[trigger] spans(p@)[k]).0 < spans(p@)[k].1
                    <= p@.len(),
            forall|k: int|
                0 <= k < spans(base@).len() ==> 0 <= (#[trigger] spans(base@)[k]).0 < spans(
                    base@,
                )[k].1 <= base@.len(),
            forall|k: int| 0 <= k < i ==> #[trigger] component(p@, k) == component(base@, k),
        decreases bs@.len() - i,
    {
        if !same_component(&c, ps[i], &d, bs[i]) {
            assert(component(p@, i as int) != component(base@, i as int));
            return None;
        }
        assert(component(p@, i as int) == component(base@, i as int));
        i = i + 1;
    }
    if bs.len() < ps.len() {
        let from = ps[bs.len()].0;
        let to = ps[ps.len() - 1].1;
        proof {
            let n = spans(base@).len() as int;
            let last = spans(p@).len() - 1;
            assert(spans(p@)[n].1 <= spans(p@)[last].1);
        }
        let rest = vstd::slice::slice_subrange(c.as_slice(), from, to);
        Some(string_of_slice(rest))
    } else {
        Some(String::new())
    }
}

/// Whether the components of `base` are the first components of `p`.
pub fn starts_with(p: &str, base: &str) -> (r: bool)
    ensures
        r == path_starts_with(p@, base@),
{
    strip_prefix(p, base).is_some()
}

/// Whether two paths have the same components.
pub fn paths_equal(a: &str, b: &str) -> (r: bool)
    ensures
        r == same_path(a@, b@),
{
    starts_with(a, b) && starts_with(b, a)
}

/// Where the last component stands, if it names a file or a directory, and not the root, the same
/// directory or the one above.
pub open spec fn file_name_span(p: Seq<char>) -> Option<(int, int)> {
    let all = spans(p);
    if all.len() == 0 {
        None
    } else {
        let name = component(p, all.len() - 1);
        if name == seq!['/'] || name == seq!['.'] || name == seq!['.', '.'] {
            None
        } else {
            Some(all.last())
        }
    }
}

/// The name of the file or directory that a path leads to.
pub open spec fn file_name_of(p: Seq<char>) -> Option<Seq<char>> {
    match file_name_span(p) {
        Some(span) => Some(p.subrange(span.0, span.1)),
        None => None,
    }
}

fn find_file_name(p: &Vec<char>) -> (r: Option<(usize, usize)>)
    ensures
        r is Some <==> file_name_span(p@) is Some,
        r matches Some((start, end)) ==> file_name_span(p@) == Some((start as int, end as int))
            && start < end <= p@.len(),
{
    let all = component_spans(p);
    if all.len() == 0 {
        return None;
    }
    proof {
        lemma_spans(p@);
    }
    let last = all.len() - 1;
    let (start, end) = all[last];
    let ghost name = component(p@, last as int);
    assert(name =~= p@.subrange(start as int, end as int));
    assert(all@[last as int].0 == spans(p@)[last as int].0);
    if end - start == 1 && (p[start] == '/' || p[start] == '.') {
        assert(name =~= seq!['/'] || name =~= seq!['.']);
        return None;
    }
    if end - start == 2 && p[start] == '.' && p[start + 1] == '.' {
        assert(name =~= seq!['.', '.']);
        return None;
    }
    proof {
        if name == seq!['/'] || name == seq!['.'] {
            assert(name.len() == 1);
            assert(name[0] == p@[start as int]);
        }
        if name == seq!['.', '.'] {
            assert(name.len() == 2);
            assert(name[0] == p@[start as int] && name[1] == p@[start + 1]);
        }
    }
    Some((start, end))
}

/// The name of the file or directory that a path leads to.
pub fn file_name(p: &str) -> (r: Option<String>)
    ensures
        r is Some <==> file_name_of(p@) is Some,
        r is Some ==> Some(r->0@) == file_name_of(p@),
{
    let c = chars_of(p);
    match find_file_name(&c) {
        Some((start, end)) => Some(
            string_of_slice(vstd::slice::slice_subrange(c.as_slice(), start, end)),
        ),
        None => None,
    }
}

/// Whether the components of `tail` are the last components of `p`.
pub open spec fn path_ends_with(p: Seq<char>, tail: Seq<char>) -> bool {
    let skipped = spans(p).len() - spans(tail).len();
    &&& skipped >= 0
    &&& forall|i: int|
        0 <= i < spans(tail).len() ==> component(p, skipped + i) == #[trigger] component(tail, i)
}

pub fn ends_with(p: &str, tail: &str) -> (r: bool)
    ensures
        r == path_ends_with(p@, tail@),
{
    let c = chars_of(p);
    let d = chars_of(tail);
    let left = component_spans(&c);
    let right = component_spans(&d);
    if left.len() < right.len() {
        return false;
    }
    proof {
        lemma_spans(p@);
        lemma_spans(tail@);
    }
    let total = left.len();
    let n = right.len();
    let skipped: usize = total - n;
    let mut i: usize = 0;
    while i < n
        invariant
            c@ == p@,
            d@ == tail@,
            left@.len() == spans(p@).len(),
            right@.len() == spans(tail@).len(),
            forall|k: int|
                0 <= k < left@.len() ==> (#[trigger] left@[k]).0 == spans(p@)[k].0 && left@[k].1
                    == spans(p@)[k].1 && left@[k].0 <= left@[k].1 <= c@.len(),
            forall|k: int|
                0 <= k < right@.len() ==> (#[trigger] right@[k]).0 == spans(tail@)[k].0
                    && right@[k].1 == spans(tail@)[k].1 && right@[k].0 <= right@[k].1 <= d@.len(),
            n == right@.len(),
            total == left@.len(),
            skipped == total - n,
            i <= n,
            forall|k: int|
                0 <= k < i ==> component(p@, skipped + k) == #[trigger] component(tail@, k),
        decreases n - i,
    {
        if !same_component(&c, left[skipped + i], &d, right[i]) {
            assert(component(p@, skipped + i as int) != component(tail@, i as int));
            return false;
        }
        i = i + 1;
    }
    true
}

/// The index of the last dot of `s` before `end`, if there is one.
pub open spec fn last_dot(s: Seq<char>, end: int) -> Option<int>
    decreases end,
{
    if end <= 0 {
        None
    } else if s[end - 1] == '.' {
        Some(end - 1)
    } else {
        last_dot(s, end - 1)
    }
}

/// How much of a file name stands before its extension: a dot at the very start begins none.
pub open spec fn stem_len(name: Seq<char>) -> int {
    match last_dot(name, name.len() as int) {
        Some(i) if i > 0 => i,
        _ => name.len() as int,
    }
}

/// The path with another extension, where it leads to a file.
pub open spec fn extended(p: Seq<char>, extension: Seq<char>) -> Seq<char> {
    match file_name_span(p) {
        Some(span) => p.take(span.0 + stem_len(p.subrange(span.0, span.1))).push('.') + extension,
        None => p,
    }
}

/// The path with another extension, where it leads to a file.
pub fn with_extension(p: &str, extension: &str) -> (r: String)
    requires
        extension@.len() > 0,
    ensures
        r@ == extended(p@, extension@),
{
    let c = chars_of(p);
    match find_file_name(&c) {
        Some((start, end)) => {
            let ghost name = p@.subrange(start as int, end as int);
            let mut i: usize = end;
            while i > start && c[i - 1] != '.'
                invariant
                    c@ == p@,
                    start <= i <= end <= p@.len(),
                    name == p@.subrange(start as int, end as int),
                    last_dot(name, name.len() as int) == last_dot(name, i - start),
                decreases i,
            {
                assert(name[i - start - 1] == p@[i - 1]);
                i = i - 1;
            }
            proof {
                if i > start {
                    assert(name[i - start - 1] == p@[i - 1]);
                }
            }
            let stem: usize = if i > start + 1 {
                i - 1
            } else {
                end
            };
            let mut out = string_of_slice(
                vstd::slice::slice_subrange(c.as_slice(), 0, stem),
            );
            out.push('.');
            append(&mut out, extension);
            assert(out@ =~= extended(p@, extension@));
            out
        },
        None => p.to_owned(),
    }
}

} // verus!
