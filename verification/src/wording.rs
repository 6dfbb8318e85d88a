//! What holds of texts, of numbers that are written out, and of names.

use crate::symbols::{demangled, last_named, name_at};
use crate::text::{
    decimal, digit, hexadecimal, number_text, occurs_at, text_contains, text_ends_with, text_lt,
    text_starts_with, zero_padded,
};
use crate::trace::{artifact_stem, sanitized};
use vstd::prelude::*;

verus! {

/// Where two texts first differ, the lesser character comes first.
pub proof fn law_first_difference_decides(a: Seq<char>, b: Seq<char>, k: int)
    requires
        0 <= k < a.len(),
        k < b.len(),
        forall|i: int| 0 <= i < k ==> a[i] == b[i],
        a[k] < b[k],
    ensures
        text_lt(a, b),
        !text_lt(b, a),
    decreases k,
{
    if k > 0 {
        assert(a[0] == b[0]);
        assert forall|i: int| 0 <= i < k - 1 implies a.drop_first()[i] == b.drop_first()[i] by {
            assert(a[i + 1] == b[i + 1]);
        }
        law_first_difference_decides(a.drop_first(), b.drop_first(), k - 1);
    }
}

/// A text comes before every longer text that begins with it.
pub proof fn law_beginning_comes_first(a: Seq<char>, more: Seq<char>)
    requires
        more.len() > 0,
    ensures
        text_lt(a, a + more),
        !text_lt(a + more, a),
    decreases a.len(),
{
    if a.len() > 0 {
        law_beginning_comes_first(a.drop_first(), more);
        assert((a + more).drop_first() =~= a.drop_first() + more);
    } else {
        assert(a + more =~= more);
    }
}

/// A text contains every text that stands somewhere in it, begins with every text that stands at its
/// front, and ends with every text that stands at its end.
pub proof fn law_parts_are_contained(before: Seq<char>, part: Seq<char>, after: Seq<char>)
    ensures
        text_contains(before + part + after, part),
        text_starts_with(part + after, part),
        text_ends_with(before + part, part),
{
    assert((before + part + after).subrange(before.len() as int, (before.len() + part.len()) as int)
        =~= part);
    assert(occurs_at(before + part + after, part, before.len() as int));
    assert((part + after).subrange(0, part.len() as int) =~= part);
    assert((before + part).subrange(before.len() as int, (before.len() + part.len()) as int)
        =~= part);
}

/// A text that contains another one is that with something before and something after it.
pub proof fn law_contained_is_part(whole: Seq<char>, part: Seq<char>)
    requires
        text_contains(whole, part),
    ensures
        exists|before: Seq<char>, after: Seq<char>| whole == #[trigger] (before + part + after),
{
    let i = choose|i: int| #[trigger] occurs_at(whole, part, i);
    let before = whole.take(i);
    let after = whole.skip(i + part.len());
    assert forall|k: int| 0 <= k < part.len() implies whole[i + k] == part[k] by {
        assert(whole.subrange(i, i + part.len())[k] == part[k]);
    }
    assert(whole =~= before + part + after);
}

proof fn lemma_digit(d: nat)
    requires
        d < 16,
    ensures
        d < 10 ==> digit(d) as int == 48 + d,
        d >= 10 ==> digit(d) as int == 87 + d,
{
}

/// A number is written with the digits of its base, each of which stands for what it is worth: the
/// last digit for the remainder, what stands before it for the quotient. It begins with 0 only if
/// it is 0.
pub proof fn law_number_has_digits(n: nat, base: nat)
    requires
        2 <= base <= 16,
    ensures
        n < base ==> number_text(n, base).len() == 1,
        n >= base ==> number_text(n, base).drop_last() == number_text(n / base, base),
        n % base < 10 ==> number_text(n, base).last() as int == 48 + n % base,
        n % base >= 10 ==> number_text(n, base).last() as int == 87 + n % base,
        n > 0 ==> number_text(n, base)[0] != '0',
    decreases n,
{
    if n < base {
        assert(n % base == n) by (nonlinear_arith)
            requires
                0 <= n < base,
        ;
        lemma_digit(n);
    } else {
        assert(0 <= n % base < base && 0 < n / base < n) by (nonlinear_arith)
            requires
                2 <= base <= n,
        ;
        lemma_digit(n % base);
        law_number_has_digits(n / base, base);
        let less = number_text(n / base, base);
        assert(less.push(digit(n % base)).drop_last() =~= less);
        lemma_has_a_digit(n / base, base);
    }
}

proof fn lemma_has_a_digit(n: nat, base: nat)
    requires
        2 <= base,
    ensures
        number_text(n, base).len() > 0,
{
}

/// Numbers are counted with ten digits, and addresses are written with sixteen.
pub proof fn law_bases(n: nat)
    ensures
        decimal(n).last() as int == 48 + n % 10,
        n >= 10 ==> decimal(n).drop_last() == decimal(n / 10),
        n % 16 < 10 ==> hexadecimal(n).last() as int == 48 + n % 16,
        n % 16 >= 10 ==> hexadecimal(n).last() as int == 87 + n % 16,
        n >= 16 ==> hexadecimal(n).drop_last() == hexadecimal(n / 16),
{
    law_number_has_digits(n, 10);
    law_number_has_digits(n, 16);
}

/// A text is filled up with zeros in front of it to a width that it does not have, and never cut.
pub proof fn law_zeros_fill_up(s: Seq<char>, width: nat)
    ensures
        s.len() >= width ==> zero_padded(s, width) == s,
        s.len() < width ==> {
            &&& zero_padded(s, width).len() == width
            &&& zero_padded(s, width).skip(width - s.len()) == s
            &&& forall|i: int| 0 <= i < width - s.len() ==> zero_padded(s, width)[i] == '0'
        },
{
    let r = zero_padded(s, width);
    if s.len() >= width {
        assert(r =~= s);
    } else {
        assert(r.skip(width - s.len()) =~= s);
    }
}

/// Whether a character is a letter or a digit of ASCII, a hyphen or an underscore.
pub open spec fn is_safe(c: char) -> bool {
    ||| 97 <= c as int <= 122
    ||| 65 <= c as int <= 90
    ||| 48 <= c as int <= 57
    ||| c as int == 45
    ||| c as int == 95
}

/// A text is made safe by putting an underscore for every character that is not.
pub proof fn law_unsafe_characters_are_replaced(s: Seq<char>)
    ensures
        sanitized(s).len() == s.len(),
        forall|i: int| 0 <= i < s.len() && is_safe(s[i]) ==> #[trigger] sanitized(s)[i] == s[i],
        forall|i: int| 0 <= i < s.len() && !is_safe(s[i]) ==> #[trigger] sanitized(s)[i] == '_',
        forall|i: int| 0 <= i < s.len() ==> is_safe(#[trigger] sanitized(s)[i]),
{
}

proof fn lemma_digits_safe(n: nat)
    ensures
        forall|i: int| 0 <= i < decimal(n).len() ==> is_safe(#[trigger] decimal(n)[i]),
    decreases n,
{
    lemma_digit(n % 10);
    if n < 10 {
        lemma_digit(n);
        assert(decimal(n) =~= seq![digit(n)]);
    } else {
        lemma_digits_safe(n / 10);
        assert(decimal(n) =~= decimal(n / 10).push(digit(n % 10)));
    }
}

/// The stem of the files of a seed can stand in the name of any file, and begins with "seed-".
pub proof fn law_stem_is_safe(index: nat, seed_path: Seq<char>)
    ensures
        text_starts_with(artifact_stem(index, seed_path), "seed-"@),
        forall|i: int|
            0 <= i < artifact_stem(index, seed_path).len() ==> is_safe(
                #[trigger] artifact_stem(index, seed_path)[i],
            ),
{
    reveal_strlit("seed-");
    reveal_strlit("-");
    let name = match crate::paths::file_name_of(seed_path) {
        Some(name) => name,
        None => "seed"@,
    };
    law_unsafe_characters_are_replaced(name);
    lemma_digits_safe(index);
    let number = zero_padded(decimal(index), 5);
    assert forall|i: int| 0 <= i < number.len() implies is_safe(#[trigger] number[i]) by {
        if number.len() > decimal(index).len() && i >= number.len() - decimal(index).len() {
            assert(number[i] == decimal(index)[i - (number.len() - decimal(index).len())]);
        }
    }
    let a = "seed-"@ + number;
    let b = a + "-"@;
    let r = b + sanitized(name);
    assert forall|i: int| 0 <= i < r.len() implies is_safe(#[trigger] r[i]) by {
        if i < 5 {
            assert(r[i] == "seed-"@[i]);
        } else if i < a.len() {
            assert(r[i] == number[i - 5]);
        } else if i < b.len() {
            assert(r[i] == "-"@[i - a.len()]);
        } else {
            assert(r[i] == sanitized(name)[i - b.len()]);
        }
    }
    assert(r.subrange(0, 5) =~= "seed-"@);
}

/// A name that the debug information gives counts, whatever the table of symbols says.
pub proof fn law_frame_names_address(pc: u64, frame: Seq<char>, symbol: Option<Seq<char>>)
    ensures
        name_at(pc, Some(frame), symbol) == demangled(frame),
{
}

/// Without one, the name of the symbol counts, unless it is empty or one of a coverage record.
pub proof fn law_symbol_names_address(pc: u64, symbol: Seq<char>)
    ensures
        symbol.len() > 0 && !text_starts_with(symbol, "__covrec_"@) ==> name_at(
            pc,
            None,
            Some(symbol),
        ) == demangled(symbol),
        symbol.len() == 0 || text_starts_with(symbol, "__covrec_"@) ==> name_at(
            pc,
            None,
            Some(symbol),
        ) == name_at(pc, None, None),
{
}

/// Without either, the address stands for itself, in hexadecimal.
pub proof fn law_unknown_address_stands_for_itself(pc: u64)
    ensures
        name_at(pc, None, None).take(10) == "unknown_0x"@,
        name_at(pc, None, None).skip(10) == hexadecimal(pc as nat),
{
    reveal_strlit("unknown_0x");
    let name = "unknown_0x"@ + hexadecimal(pc as nat);
    assert(name.take(10) =~= "unknown_0x"@);
    assert(name.skip(10) =~= hexadecimal(pc as nat));
}

/// Of the frames of an address the outermost counts that has a name: the last of them.
pub proof fn law_outermost_frame_counts(frames: Seq<Option<String>>, i: int)
    requires
        0 <= i < frames.len(),
        frames[i] is Some,
        forall|k: int| i < k < frames.len() ==> #[trigger] frames[k] is None,
    ensures
        last_named(frames) == Some(frames[i]->0@),
    decreases frames.len(),
{
    let less = frames.drop_last();
    if i < less.len() {
        assert(frames[frames.len() - 1] is None);
        assert forall|k: int| i < k < less.len() implies #[trigger] less[k] is None by {
            assert(less[k] == frames[k]);
        }
        law_outermost_frame_counts(less, i);
    }
}

/// Frames without names name nothing.
pub proof fn law_nameless_frames_name_nothing(frames: Seq<Option<String>>)
    requires
        forall|k: int| 0 <= k < frames.len() ==> #[trigger] frames[k] is None,
    ensures
        last_named(frames) is None,
    decreases frames.len(),
{
    if frames.len() > 0 {
        let less = frames.drop_last();
        assert(frames[frames.len() - 1] is None);
        assert forall|k: int| 0 <= k < less.len() implies #[trigger] less[k] is None by {
            assert(less[k] == frames[k]);
        }
        law_nameless_frames_name_nothing(less);
    }
}

} // verus!
