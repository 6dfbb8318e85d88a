//! Sequences made of pieces.

use crate::text::{occurs_at, text_contains};
use vstd::prelude::*;

verus! {

/// The pieces, one behind the other.
pub open spec fn flat<T>(pieces: Seq<Seq<T>>) -> Seq<T>
    decreases pieces.len(),
{
    if pieces.len() == 0 {
        Seq::empty()
    } else {
        flat(pieces.drop_last()) + pieces.last()
    }
}

/// A piece, with what stands before it and behind it.
pub proof fn lemma_flat_split<T>(pieces: Seq<Seq<T>>, i: int)
    requires
        0 <= i < pieces.len(),
    ensures
        flat(pieces) == flat(pieces.take(i)) + pieces[i] + flat(pieces.skip(i + 1)),
    decreases pieces.len(),
{
    let less = pieces.drop_last();
    if i == pieces.len() - 1 {
        assert(pieces.take(i) =~= less);
        assert(pieces.skip(i + 1) =~= Seq::empty());
        assert(flat(pieces) =~= flat(pieces.take(i)) + pieces[i] + flat(pieces.skip(i + 1)));
    } else {
        lemma_flat_split(less, i);
        assert(less.take(i) =~= pieces.take(i));
        assert(pieces.skip(i + 1).drop_last() =~= less.skip(i + 1));
        assert(pieces.skip(i + 1).last() == pieces.last());
        let (a, b, c) = (flat(pieces.take(i)), pieces[i], flat(less.skip(i + 1)));
        assert(a + b + c + pieces.last() =~= a + b + (c + pieces.last()));
    }
}

/// Where all pieces but one are the same, the whole is the same only if that one is.
pub proof fn lemma_flat_differs<T>(a: Seq<Seq<T>>, b: Seq<Seq<T>>, i: int)
    requires
        a.len() == b.len(),
        0 <= i < a.len(),
        forall|k: int| 0 <= k < a.len() && k != i ==> #[trigger] a[k] == b[k],
        flat(a) == flat(b),
    ensures
        a[i] == b[i],
{
    lemma_flat_split(a, i);
    lemma_flat_split(b, i);
    assert(a.take(i) =~= b.take(i));
    assert(a.skip(i + 1) =~= b.skip(i + 1));
    let (p, q) = (flat(a.take(i)), flat(a.skip(i + 1)));
    let (x, y) = (p + a[i] + q, p + b[i] + q);
    assert(x.len() == y.len());
    assert forall|k: int| 0 <= k < a[i].len() implies a[i][k] == b[i][k] by {
        assert(x[p.len() + k] == a[i][k]);
        assert(y[p.len() + k] == b[i][k]);
    }
    assert(a[i] =~= b[i]);
}

/// A text that occurs in a part occurs in the whole.
pub proof fn lemma_contains_within(before: Seq<char>, part: Seq<char>, behind: Seq<char>, s: Seq<char>)
    requires
        text_contains(part, s),
    ensures
        text_contains(before + part + behind, s),
{
    let i = choose|i: int| #[trigger] occurs_at(part, s, i);
    let whole = before + part + behind;
    let at = before.len() + i;
    assert(whole.subrange(at, at + s.len()) =~= part.subrange(i, i + s.len()));
    assert(occurs_at(whole, s, at));
}

/// A text occurs in itself.
pub proof fn lemma_contains_itself(s: Seq<char>)
    ensures
        text_contains(s, s),
{
    assert(s.subrange(0, s.len() as int) =~= s);
    assert(occurs_at(s, s, 0));
}

/// A text that occurs in a piece occurs in the whole.
pub proof fn lemma_flat_contains(pieces: Seq<Seq<char>>, i: int, s: Seq<char>)
    requires
        0 <= i < pieces.len(),
        text_contains(pieces[i], s),
    ensures
        text_contains(flat(pieces), s),
{
    lemma_flat_split(pieces, i);
    lemma_contains_within(flat(pieces.take(i)), pieces[i], flat(pieces.skip(i + 1)), s);
}

} // verus!
