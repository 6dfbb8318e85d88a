//! Taking texts apart: at a separator, and from the space around them.

use crate::text::{chars_of, string_of, texts};
use vstd::prelude::*;

verus! {

/// Whether a character is white space, as Unicode has it.
pub open spec fn is_space(c: char) -> bool {
    ||| '\u{9}' <= c <= '\u{d}'
    ||| c == '\u{20}'
    ||| c == '\u{85}'
    ||| c == '\u{a0}'
    ||| c == '\u{1680}'
    ||| '\u{2000}' <= c <= '\u{200a}'
    ||| c == '\u{2028}'
    ||| c == '\u{2029}'
    ||| c == '\u{202f}'
    ||| c == '\u{205f}'
    ||| c == '\u{3000}'
}

fn is_white(c: char) -> (r: bool)
    ensures
        r == is_space(c),
{
    ('\u{9}' <= c && c <= '\u{d}') || c == '\u{20}' || c == '\u{85}' || c == '\u{a0}' || c
        == '\u{1680}' || ('\u{2000}' <= c && c <= '\u{200a}') || c == '\u{2028}' || c == '\u{2029}'
        || c == '\u{202f}' || c == '\u{205f}' || c == '\u{3000}'
}

/// Whether `part` is what is left of `whole` when the white space at both ends is gone.
pub open spec fn is_trimmed(whole: Seq<char>, part: Seq<char>) -> bool {
    exists|i: int, j: int| #[trigger] is_core(whole, i, j) && part == whole.subrange(i, j)
}

/// Whether there is only white space outside of a range, which does not begin or end with any.
pub open spec fn is_core(s: Seq<char>, i: int, j: int) -> bool {
    &&& 0 <= i <= j <= s.len()
    &&& forall|k: int| 0 <= k < i ==> is_space(#[trigger] s[k])
    &&& forall|k: int| j <= k < s.len() ==> is_space(#[trigger] s[k])
    &&& i < j ==> !is_space(s[i]) && !is_space(s[j - 1])
}

/// A text has one trimmed form.
pub proof fn law_trimmed_is_unique(whole: Seq<char>, a: Seq<char>, b: Seq<char>)
    requires
        is_trimmed(whole, a),
        is_trimmed(whole, b),
    ensures
        a == b,
{
    let (i, j) = choose|i: int, j: int| #[trigger]
        is_core(whole, i, j) && a == whole.subrange(i, j);
    let (k, l) = choose|k: int, l: int| #[trigger]
        is_core(whole, k, l) && b == whole.subrange(k, l);
    if i < j {
        assert(k <= i && j <= l);
        assert(i == k && j == l);
    } else if k < l {
        assert(is_space(whole[k]));
    } else {
        assert(a =~= b);
    }
}

/// The text without white space at its ends.
pub fn trim(s: &str) -> (r: String)
    ensures
        is_trimmed(s@, r@),
{
    let chars = chars_of(s);
    let n = chars.len();
    let mut i: usize = 0;
    while i < n && is_white(chars[i])
        invariant
            n == chars@.len(),
            i <= n,
            forall|k: int| 0 <= k < i ==> is_space(#[trigger] chars@[k]),
        decreases n - i,
    {
        i = i + 1;
    }
    let mut j: usize = n;
    while j > i && is_white(chars[j - 1])
        invariant
            n == chars@.len(),
            i <= j <= n,
            forall|k: int| j <= k < n ==> is_space(#[trigger] chars@[k]),
        decreases j,
    {
        j = j - 1;
    }
    let mut out: Vec<char> = Vec::new();
    let mut at: usize = i;
    while at < j
        invariant
            n == chars@.len(),
            i <= at <= j <= n,
            out@ == chars@.subrange(i as int, at as int),
        decreases j - at,
    {
        out.push(chars[at]);
        at = at + 1;
        assert(out@ =~= chars@.subrange(i as int, at as int));
    }
    assert(is_core(s@, i as int, j as int));
    string_of(&out)
}

/// The pieces of a text between the separators in it.
pub open spec fn pieces(s: Seq<char>, separator: char) -> Seq<Seq<char>>
    decreases s.len(),
{
    if s.len() == 0 {
        seq![Seq::<char>::empty()]
    } else {
        let before = pieces(s.drop_last(), separator);
        if s.last() == separator {
            before.push(Seq::empty())
        } else {
            before.drop_last().push(before.last().push(s.last()))
        }
    }
}

/// What the pieces of a text make together, with separators between them.
pub open spec fn rejoined(parts: Seq<Seq<char>>, separator: char) -> Seq<char>
    decreases parts.len(),
{
    if parts.len() == 0 {
        Seq::empty()
    } else if parts.len() == 1 {
        parts[0]
    } else {
        rejoined(parts.drop_last(), separator).push(separator) + parts.last()
    }
}

/// The pieces of a text hold no separator, and make the text again.
pub proof fn law_pieces_make_the_text(s: Seq<char>, separator: char)
    ensures
        pieces(s, separator).len() > 0,
        rejoined(pieces(s, separator), separator) == s,
        forall|i: int|
            0 <= i < pieces(s, separator).len() ==> !(#[trigger] pieces(s, separator)[i]).contains(
                separator,
            ),
    decreases s.len(),
{
    let all = pieces(s, separator);
    if s.len() == 0 {
        assert(rejoined(all, separator) =~= s);
    } else {
        law_pieces_make_the_text(s.drop_last(), separator);
        let before = pieces(s.drop_last(), separator);
        if s.last() == separator {
            assert(all.drop_last() =~= before);
            assert(rejoined(all, separator) =~= s);
        } else {
            assert(all.drop_last() =~= before.drop_last());
            assert(s =~= s.drop_last().push(s.last()));
            assert(rejoined(all, separator) =~= rejoined(before, separator).push(s.last()));
            let last = before.last().push(s.last());
            assert(!last.contains(separator)) by {
                if last.contains(separator) {
                    let k = choose|k: int| 0 <= k < last.len() && last[k] == separator;
                    assert(before[before.len() - 1][k] == separator);
                    assert(before[before.len() - 1].contains(separator));
                }
            }
            assert forall|i: int| 0 <= i < all.len() implies !(#[trigger] all[i]).contains(
                separator,
            ) by {
                if i < all.len() - 1 {
                    assert(all[i] == before[i]);
                }
            }
        }
    }
}

/// Whether the parts are the pieces of a text, each without white space at its ends.
pub open spec fn are_patterns(s: Seq<char>, parts: Seq<Seq<char>>) -> bool {
    &&& parts.len() == pieces(s, ',').len()
    &&& forall|i: int| 0 <= i < parts.len() ==> is_trimmed(pieces(s, ',')[i], #[trigger] parts[i])
}

/// The patterns that are listed in a text, separated by commas.
pub fn split_patterns(s: &str) -> (r: Vec<String>)
    ensures
        are_patterns(s@, texts(r@)),
{
    let chars = chars_of(s);
    let n = chars.len();
    let mut out: Vec<String> = Vec::new();
    let mut current: String = String::new();
    let mut i: usize = 0;
    assert(chars@.take(0) =~= Seq::empty());
    while i < n
        invariant
            n == chars@.len(),
            chars@ == s@,
            i <= n,
            ({
                let so_far = pieces(chars@.take(i as int), ',');
                &&& so_far.len() == out@.len() + 1
                &&& so_far.last() == current@
                &&& forall|k: int|
                    0 <= k < out@.len() ==> is_trimmed(so_far[k], #[trigger] texts(out@)[k])
            }),
        decreases n - i,
    {
        let c = chars[i];
        let ghost before = pieces(chars@.take(i as int), ',');
        let ghost done = texts(out@);
        assert(chars@.take(i + 1).drop_last() =~= chars@.take(i as int));
        if c == ',' {
            let piece = trim(current.as_str());
            out.push(piece);
            current = String::new();
        } else {
            current.push(c);
        }
        proof {
            let after = pieces(chars@.take(i + 1), ',');
            assert forall|k: int| 0 <= k < out@.len() implies is_trimmed(
                after[k],
                #[trigger] texts(out@)[k],
            ) by {
                if k < done.len() {
                    assert(texts(out@)[k] == done[k]);
                    assert(after[k] == before[k]);
                }
            }
        }
        i = i + 1;
    }
    assert(chars@.take(n as int) =~= s@);
    let ghost done = texts(out@);
    let last = trim(current.as_str());
    out.push(last);
    assert forall|k: int| 0 <= k < out@.len() implies is_trimmed(
        pieces(s@, ',')[k],
        #[trigger] texts(out@)[k],
    ) by {
        if k < done.len() {
            assert(texts(out@)[k] == done[k]);
        }
    }
    out
}

} // verus!
