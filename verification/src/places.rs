//! What holds of paths: of their components, and of what is made of them.

use crate::coverage::{displayed_path, partitionable};
use crate::paths::{
    body_spans, component, extended, file_name_of, file_name_span, is_absolute_path, joined,
    last_dot, names_component, next_separator, path_rest, path_starts_with, spans, starts_with_dot,
    stem_len,
};
use crate::project::shown_path;
use crate::text::{text_ends_with, text_starts_with};
use vstd::prelude::*;

verus! {

/// A path that does not begin at the root is put behind another one, with one separator between them.
pub proof fn law_joined_is_below(base: Seq<char>, rest: Seq<char>)
    requires
        rest.len() == 0 || rest[0] != '/',
    ensures
        text_starts_with(joined(base, rest), base),
        text_ends_with(joined(base, rest), rest),
        base.len() > 0 && base.last() != '/' ==> {
            &&& joined(base, rest).len() == base.len() + 1 + rest.len()
            &&& joined(base, rest)[base.len() as int] == '/'
        },
        base.len() == 0 || base.last() == '/' ==> joined(base, rest).len() == base.len()
            + rest.len(),
{
    let r = joined(base, rest);
    assert(r.subrange(0, base.len() as int) =~= base);
    assert(r.subrange(r.len() - rest.len(), r.len() as int) =~= rest);
}

/// A path that begins at the root stays as it is.
pub proof fn law_absolute_is_kept(base: Seq<char>, rest: Seq<char>)
    requires
        rest.len() > 0,
        rest[0] == '/',
    ensures
        joined(base, rest) == rest,
{
}

/// Whether a part of a path is a name between separators.
pub open spec fn is_name(p: Seq<char>, start: int, end: int) -> bool {
    &&& 0 <= start < end <= p.len()
    &&& start == 0 || p[start - 1] == '/'
    &&& end == p.len() || p[end] == '/'
    &&& forall|i: int| start <= i < end ==> #[trigger] p[i] != '/'
    &&& !(end == start + 1 && p[start] == '.')
}

proof fn lemma_separator(p: Seq<char>, from: int)
    requires
        0 <= from <= p.len(),
    ensures
        from <= next_separator(p, from) <= p.len(),
        next_separator(p, from) < p.len() ==> p[next_separator(p, from)] == '/',
        forall|i: int| from <= i < next_separator(p, from) ==> #[trigger] p[i] != '/',
    decreases p.len() - from,
{
    if from < p.len() && p[from] != '/' {
        lemma_separator(p, from + 1);
    }
}

proof fn lemma_body_names(p: Seq<char>, from: int, k: int)
    requires
        0 <= from <= p.len(),
        from == 0 || p[from - 1] == '/',
        0 <= k < body_spans(p, from).len(),
    ensures
        is_name(p, body_spans(p, from)[k].0, body_spans(p, from)[k].1),
        from <= body_spans(p, from)[k].0,
        forall|j: int|
            k < j < body_spans(p, from).len() ==> body_spans(p, from)[k].1 < (#[trigger] body_spans(
                p,
                from,
            )[j]).0,
    decreases p.len() - from,
{
    lemma_separator(p, from);
    let end = next_separator(p, from);
    let all = body_spans(p, from);
    if end < p.len() {
        let rest = body_spans(p, end + 1);
        if names_component(p, from, end) {
            assert(all =~= seq![(from, end)] + rest);
            if k > 0 {
                lemma_body_names(p, end + 1, k - 1);
                assert forall|j: int| k < j < all.len() implies all[k].1 < (#[trigger] all[j]).0 by {
                    assert(all[j] == rest[j - 1]);
                }
            } else {
                assert forall|j: int| k < j < all.len() implies all[k].1 < (#[trigger] all[j]).0 by {
                    assert(all[j] == rest[j - 1]);
                    lemma_body_names(p, end + 1, j - 1);
                }
            }
        } else {
            assert(all =~= rest);
            lemma_body_names(p, end + 1, k);
        }
    } else {
        assert(all =~= seq![(from, end)]);
    }
}

proof fn lemma_body_has(p: Seq<char>, from: int, start: int, end: int)
    requires
        0 <= from <= start,
        from == 0 || p[from - 1] == '/',
        is_name(p, start, end),
    ensures
        body_spans(p, from).contains((start, end)),
    decreases p.len() - from,
{
    lemma_separator(p, from);
    let next = next_separator(p, from);
    let all = body_spans(p, from);
    if start == from {
        assert(next == end) by {
            if next < end {
                assert(p[next] != '/');
            }
            if end < next {
                assert(p[end] != '/');
            }
        }
        assert(all[0] == (start, end));
    } else {
        assert(next < start) by {
            if next >= start {
                assert(p[start - 1] != '/');
            }
        }
        lemma_body_has(p, next + 1, start, end);
        let rest = body_spans(p, next + 1);
        let k = rest.index_of((start, end));
        if names_component(p, from, next) {
            assert(all[k + 1] == rest[k]);
        } else {
            assert(all[k] == rest[k]);
        }
    }
}

/// The components of a path are the names between its separators, in their order; before them stands
/// the root, or a dot with which the path begins.
pub proof fn law_components_are_names(p: Seq<char>, k: int)
    requires
        0 <= k < spans(p).len(),
    ensures
        0 <= spans(p)[k].0 < spans(p)[k].1 <= p.len(),
        is_name(p, spans(p)[k].0, spans(p)[k].1) || k == 0 && spans(p)[0] == (0int, 1int) && (p[0]
            == '/' || p[0] == '.'),
        forall|j: int| k < j < spans(p).len() ==> spans(p)[k].1 <= (#[trigger] spans(p)[j]).0,
{
    let all = spans(p);
    if is_absolute_path(p) || starts_with_dot(p) {
        let rest = body_spans(p, 1);
        assert(all =~= seq![(0int, 1int)] + rest);
        if starts_with_dot(p) {
            lemma_after_dot(p);
        }
        assert forall|j: int| 0 <= j < rest.len() implies 1 <= (#[trigger] rest[j]).0 && is_name(
            p,
            rest[j].0,
            rest[j].1,
        ) && (forall|l: int| j < l < rest.len() ==> rest[j].1 < (#[trigger] rest[l]).0) by {
            if is_absolute_path(p) {
                lemma_body_names(p, 1, j);
            } else {
                lemma_body_names(p, 2, j);
            }
        }
        if k > 0 {
            assert(all[k] == rest[k - 1]);
        }
        assert forall|j: int| k < j < all.len() implies all[k].1 <= (#[trigger] all[j]).0 by {
            assert(all[j] == rest[j - 1]);
        }
    } else {
        lemma_body_names(p, 0, k);
    }
}

proof fn lemma_after_dot(p: Seq<char>)
    requires
        starts_with_dot(p),
    ensures
        p.len() > 1 ==> body_spans(p, 1) == body_spans(p, 2),
        p.len() == 1 ==> body_spans(p, 1).len() == 0,
{
    lemma_separator(p, 1);
    if p.len() > 1 {
        assert(next_separator(p, 1) == 1);
        assert(body_spans(p, 1) =~= body_spans(p, 2));
    }
}

/// Every name between separators is a component of a path.
pub proof fn law_names_are_components(p: Seq<char>, start: int, end: int)
    requires
        is_name(p, start, end),
    ensures
        spans(p).contains((start, end)),
{
    let all = spans(p);
    if is_absolute_path(p) {
        lemma_body_has(p, 1, start, end);
        let rest = body_spans(p, 1);
        let k = rest.index_of((start, end));
        assert(all[k + 1] == rest[k]);
    } else if starts_with_dot(p) {
        lemma_after_dot(p);
        assert(start > 1) by {
            if start == 0 {
                if end > 1 {
                    assert(p[1] != '/');
                }
            }
        }
        lemma_body_has(p, 2, start, end);
        let rest = body_spans(p, 1);
        let k = rest.index_of((start, end));
        assert(all[k + 1] == rest[k]);
    } else {
        lemma_body_has(p, 0, start, end);
    }
}

/// Whether a text can be the name of a file.
pub open spec fn can_name_file(name: Seq<char>) -> bool {
    &&& name.len() > 0
    &&& forall|i: int| 0 <= i < name.len() ==> #[trigger] name[i] != '/'
    &&& name != seq!['.']
    &&& name != seq!['.', '.']
}

proof fn lemma_name_is_last(dir: Seq<char>, name: Seq<char>)
    requires
        can_name_file(name),
        dir.len() == 0 || dir.last() == '/',
    ensures
        file_name_span(dir + name) == Some((dir.len() as int, (dir.len() + name.len()) as int)),
        file_name_of(dir + name) == Some(name),
{
    let p = dir + name;
    let (start, end) = (dir.len() as int, p.len() as int);
    assert(p.subrange(start, end) =~= name);
    assert(is_name(p, start, end)) by {
        assert forall|i: int| start <= i < end implies #[trigger] p[i] != '/' by {
            assert(name[i - start] != '/');
        }
        if name.len() == 1 && name[0] == '.' {
            assert(name =~= seq!['.']);
        }
    }
    law_names_are_components(p, start, end);
    let k = spans(p).index_of((start, end));
    law_components_are_names(p, k);
    if k < spans(p).len() - 1 {
        law_components_are_names(p, spans(p).len() - 1);
        assert(spans(p)[k].1 <= spans(p)[spans(p).len() - 1].0);
    }
    assert(component(p, spans(p).len() - 1) == name);
    if name == seq!['/'] {
        assert(name[0] == '/');
    }
}

/// The name of a file is what stands behind the last separator of its path.
pub proof fn law_file_name_stands_last(dir: Seq<char>, name: Seq<char>)
    requires
        can_name_file(name),
        dir.len() == 0 || dir.last() == '/',
    ensures
        file_name_of(dir + name) == Some(name),
{
    lemma_name_is_last(dir, name);
}

/// The name of a file that was put in a directory is that of the file.
pub proof fn law_joined_name_is_kept(dir: Seq<char>, name: Seq<char>)
    requires
        can_name_file(name),
    ensures
        file_name_of(joined(dir, name)) == Some(name),
{
    assert(name[0] != '/');
    if dir.len() == 0 || dir.last() == '/' {
        lemma_name_is_last(dir, name);
    } else {
        lemma_name_is_last(dir.push('/'), name);
    }
}

proof fn lemma_last_dot(s: Seq<char>, end: int, at: int)
    requires
        0 <= at < end <= s.len(),
        s[at] == '.',
        forall|i: int| at < i < end ==> #[trigger] s[i] != '.',
    ensures
        last_dot(s, end) == Some(at),
    decreases end,
{
    if at < end - 1 {
        assert(s[end - 1] != '.');
        lemma_last_dot(s, end - 1, at);
    }
}

proof fn lemma_no_dot(s: Seq<char>, end: int)
    requires
        0 <= end <= s.len(),
        forall|i: int| 0 <= i < end ==> #[trigger] s[i] != '.',
    ensures
        last_dot(s, end) is None,
    decreases end,
{
    if end > 0 {
        assert(s[end - 1] != '.');
        lemma_no_dot(s, end - 1);
    }
}

/// Another extension takes the place of that behind the last dot of the name of a file.
pub proof fn law_extension_is_replaced(
    dir: Seq<char>,
    stem: Seq<char>,
    old_extension: Seq<char>,
    extension: Seq<char>,
)
    requires
        dir.len() == 0 || dir.last() == '/',
        stem.len() > 0,
        can_name_file(stem.push('.') + old_extension),
        forall|i: int| 0 <= i < old_extension.len() ==> #[trigger] old_extension[i] != '.',
    ensures
        extended(dir + (stem.push('.') + old_extension), extension) == dir + stem.push('.')
            + extension,
{
    let name = stem.push('.') + old_extension;
    let p = dir + name;
    lemma_name_is_last(dir, name);
    assert(p.subrange(dir.len() as int, p.len() as int) =~= name);
    assert forall|i: int| stem.len() < i < name.len() implies #[trigger] name[i] != '.' by {
        assert(old_extension[i - stem.len() - 1] != '.');
    }
    lemma_last_dot(name, name.len() as int, stem.len() as int);
    assert(p.take((dir.len() + stem.len()) as int) =~= dir + stem);
    assert((dir + stem).push('.') =~= dir + stem.push('.'));
}

/// A file without an extension gets one.
pub proof fn law_extension_is_added(dir: Seq<char>, name: Seq<char>, extension: Seq<char>)
    requires
        dir.len() == 0 || dir.last() == '/',
        can_name_file(name),
        forall|i: int| 0 <= i < name.len() ==> #[trigger] name[i] != '.',
    ensures
        extended(dir + name, extension) == dir + name.push('.') + extension,
{
    let p = dir + name;
    lemma_name_is_last(dir, name);
    assert(p.subrange(dir.len() as int, p.len() as int) =~= name);
    lemma_no_dot(name, name.len() as int);
    assert(stem_len(name) == name.len());
    assert(p.take(p.len() as int) =~= p);
    assert(p.push('.') =~= dir + name.push('.'));
}

/// A path lies below another one only if it has all its components in front.
pub proof fn law_below_shares_components(p: Seq<char>, base: Seq<char>, k: int)
    requires
        path_starts_with(p, base),
        0 <= k < spans(base).len(),
    ensures
        k < spans(p).len(),
        p.subrange(spans(p)[k].0, spans(p)[k].1) == base.subrange(spans(base)[k].0, spans(base)[k].1),
{
    assert(component(p, k) == component(base, k));
}

proof fn lemma_separator_below(root: Seq<char>, rest: Seq<char>, from: int)
    requires
        0 <= from <= root.len(),
    ensures
        next_separator(root.push('/') + rest, from) == next_separator(root, from),
    decreases root.len() - from,
{
    let p = root.push('/') + rest;
    if from < root.len() {
        assert(p[from] == root[from]);
        if root[from] != '/' {
            lemma_separator_below(root, rest, from + 1);
        }
    } else {
        assert(p[from] == '/');
    }
}

proof fn lemma_spans_below(root: Seq<char>, rest: Seq<char>, from: int)
    requires
        0 <= from <= root.len(),
    ensures
        body_spans(root.push('/') + rest, from) == body_spans(root, from) + body_spans(
            root.push('/') + rest,
            root.len() + 1int,
        ),
    decreases root.len() - from,
{
    let p = root.push('/') + rest;
    let below = body_spans(p, root.len() + 1int);
    lemma_separator_below(root, rest, from);
    lemma_separator(root, from);
    lemma_separator(p, from);
    let end = next_separator(root, from);
    assert(names_component(p, from, end) == names_component(root, from, end)) by {
        if from < end {
            assert(p[from] == root[from]);
        }
    }
    if end < root.len() {
        lemma_spans_below(root, rest, end + 1);
        assert(body_spans(p, from) =~= body_spans(root, from) + below);
    } else {
        assert(body_spans(p, from) =~= body_spans(root, from) + below);
    }
}

/// Whether a text is a path that begins and ends with a name.
pub open spec fn is_plain_path(rest: Seq<char>) -> bool {
    &&& exists|end: int| #[trigger] is_name(rest, 0, end)
    &&& exists|start: int| #[trigger] is_name(rest, start, rest.len() as int)
}

proof fn lemma_name_below(root: Seq<char>, rest: Seq<char>, start: int, end: int)
    requires
        is_name(rest, start, end),
    ensures
        is_name(root.push('/') + rest, root.len() + 1int + start, root.len() + 1int + end),
{
    let p = root.push('/') + rest;
    let skipped: int = root.len() + 1int;
    assert forall|i: int| skipped + start <= i < skipped + end implies #[trigger] p[i] != '/' by {
        assert(rest[i - skipped] != '/');
    }
    if start > 0 {
        assert(p[skipped + start - 1] == rest[start - 1]);
    }
    if end < rest.len() {
        assert(p[skipped + end] == rest[end]);
    }
    assert(p[skipped + start] == rest[start]);
}

/// What lies below a directory has all its components in front, and is named from there by what
/// stands behind the directory.
pub proof fn law_below_is_named_from_there(root: Seq<char>, rest: Seq<char>)
    requires
        root.len() > 0,
        root.last() != '/',
        is_plain_path(rest),
    ensures
        path_starts_with(joined(root, rest), root),
        path_rest(joined(root, rest), spans(root).len() as int) == rest,
{
    let p = root.push('/') + rest;
    let skipped: int = root.len() + 1int;
    let first_end = choose|end: int| #[trigger] is_name(rest, 0, end);
    let last_start = choose|start: int| #[trigger] is_name(rest, start, rest.len() as int);
    assert(rest[0] != '/');
    assert(joined(root, rest) == p);
    assert(p[0] == root[0]);
    assert(root.len() == 1 ==> p[1] == '/');
    assert(root.len() > 1 ==> p[1] == root[1]);
    let below = body_spans(p, skipped);
    if is_absolute_path(p) || starts_with_dot(p) {
        lemma_spans_below(root, rest, 1);
    } else {
        lemma_spans_below(root, rest, 0);
    }
    assert(spans(p) =~= spans(root) + below);
    let n = spans(root).len() as int;
    assert forall|i: int| 0 <= i < n implies #[trigger] component(p, i) == component(root, i) by {
        law_components_are_names(root, i);
        assert(spans(p)[i] == spans(root)[i]);
        assert(component(p, i) =~= component(root, i));
    }
    lemma_name_below(root, rest, 0, first_end);
    lemma_name_below(root, rest, last_start, rest.len() as int);
    lemma_body_has(p, skipped, skipped, skipped + first_end);
    lemma_body_has(p, skipped, skipped + last_start, p.len() as int);
    let a = below.index_of((skipped, skipped + first_end));
    let b = below.index_of((skipped + last_start, p.len() as int));
    lemma_body_names(p, skipped, 0);
    assert(a == 0) by {
        if a > 0 {
            assert(below[0].1 < below[a].0);
        }
    }
    assert(b == below.len() - 1) by {
        if b < below.len() - 1 {
            lemma_body_names(p, skipped, b);
            lemma_body_names(p, skipped, below.len() - 1);
            assert(below[b].1 < below[below.len() - 1].0);
        }
    }
    assert(spans(p)[n] == below[0]);
    assert(spans(p).last() == below[b]);
    assert(p.subrange(skipped, p.len() as int) =~= rest);
}

/// A source below the root of the workspace is shown from there.
pub proof fn law_source_is_shown_from_root(root: Seq<char>, rest: Seq<char>)
    requires
        root.len() > 0,
        root[0] == '/',
        root.last() != '/',
        is_plain_path(rest),
    ensures
        displayed_path(joined(root, rest), root) == rest,
        partitionable(Some(joined(root, rest)), root),
        shown_path(joined(root, rest), Some(root)) == rest,
{
    law_below_is_named_from_there(root, rest);
    law_joined_is_below(root, rest);
    assert(joined(root, rest)[0] == root[0]) by {
        let r = joined(root, rest);
        assert(r.subrange(0, root.len() as int)[0] == r[0]);
    }
}

/// A source elsewhere is shown as it is.
pub proof fn law_source_elsewhere_is_shown(file: Seq<char>, root: Seq<char>)
    requires
        !path_starts_with(file, root),
    ensures
        displayed_path(file, root) == file,
        shown_path(file, Some(root)) == file,
        shown_path(file, None) == file,
{
}

} // verus!
