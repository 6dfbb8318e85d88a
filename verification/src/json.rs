//! Writing text in JSON documents.

use crate::text::{
    append, chars_of, decimal, decimal_text, digits_value, hexadecimal, hexadecimal_text,
    law_number_reads_back, lemma_padded_value, number_text, zero_pad, zero_padded,
};
use vstd::prelude::*;

verus! {

/// Control characters of Unicode.
pub open spec fn is_control(c: char) -> bool {
    c as u32 <= 0x1f || 0x7f <= c as u32 <= 0x9f
}

/// How a character is written in a JSON string.
pub open spec fn escaped_char(c: char) -> Seq<char> {
    if c == '\\' {
        seq!['\\', '\\']
    } else if c == '"' {
        seq!['\\', '"']
    } else if c == '\n' {
        seq!['\\', 'n']
    } else if c == '\r' {
        seq!['\\', 'r']
    } else if c == '\t' {
        seq!['\\', 't']
    } else if is_control(c) {
        seq!['\\', 'u'] + zero_padded(hexadecimal(c as nat), 4)
    } else {
        seq![c]
    }
}

/// How a text is written in a JSON string.
pub open spec fn escaped(s: Seq<char>) -> Seq<char>
    decreases s.len(),
{
    if s.len() == 0 {
        Seq::empty()
    } else {
        escaped(s.drop_last()) + escaped_char(s.last())
    }
}

fn push_escaped(out: &mut String, c: char)
    ensures
        final(out)@ == old(out)@ + escaped_char(c),
{
    let ghost before = out@;
    if c == '\\' {
        out.push('\\');
        out.push('\\');
    } else if c == '"' {
        out.push('\\');
        out.push('"');
    } else if c == '\n' {
        out.push('\\');
        out.push('n');
    } else if c == '\r' {
        out.push('\\');
        out.push('r');
    } else if c == '\t' {
        out.push('\\');
        out.push('t');
    } else {
        let code: u32 = c as u32;
        if code <= 0x1f || (0x7f <= code && code <= 0x9f) {
            out.push('\\');
            out.push('u');
            let number = hexadecimal_text(code as u64);
            let padded = zero_pad(number.as_str(), 4);
            append(out, padded.as_str());
        } else {
            out.push(c);
        }
    }
    assert(out@ =~= before + escaped_char(c));
}

/// A text as it is written between the quotes of a JSON string.
pub fn json_escape(s: &str) -> (r: String)
    ensures
        r@ == escaped(s@),
{
    let c = chars_of(s);
    let n = c.len();
    let mut out = String::new();
    let mut i: usize = 0;
    assert(s@.take(0) =~= Seq::empty());
    while i < n
        invariant
            c@ == s@,
            n == c@.len(),
            i <= n,
            out@ == escaped(s@.take(i as int)),
        decreases n - i,
    {
        push_escaped(&mut out, c[i]);
        assert(s@.take(i + 1).drop_last() =~= s@.take(i as int));
        i = i + 1;
    }
    assert(s@.take(n as int) =~= s@);
    out
}

/// The first `n` of the lines, each with a comma behind it but the last of all.
pub open spec fn rows_up_to(lines: Seq<Seq<char>>, n: int) -> Seq<char>
    decreases n,
{
    if n <= 0 {
        Seq::empty()
    } else {
        rows_up_to(lines, n - 1) + lines[n - 1] + (if n == lines.len() {
            ""@
        } else {
            ","@
        }) + "\n"@
    }
}

/// The lines of a list.
pub open spec fn rows(lines: Seq<Seq<char>>) -> Seq<char> {
    rows_up_to(lines, lines.len() as int)
}

/// Writes the next line of a list.
pub(crate) fn push_row(
    out: &mut String,
    line: &str,
    last: bool,
    Ghost(before): Ghost<Seq<char>>,
    Ghost(lines): Ghost<Seq<Seq<char>>>,
    Ghost(n): Ghost<int>,
)
    requires
        0 <= n < lines.len(),
        old(out)@ == before + rows_up_to(lines, n),
        line@ == lines[n],
        last == (n + 1 == lines.len()),
    ensures
        final(out)@ == before + rows_up_to(lines, n + 1),
{
    append(out, line);
    append(out, if last {
        ""
    } else {
        ","
    });
    append(out, "\n");
    assert(out@ =~= before + rows_up_to(lines, n + 1));
}

/// A text in quotes.
pub open spec fn quoted(s: Seq<char>) -> Seq<char> {
    "\""@ + escaped(s) + "\""@
}

/// Writes a text in quotes.
pub(crate) fn append_quoted(out: &mut String, s: &str)
    ensures
        final(out)@ == old(out)@ + quoted(s@),
{
    let ghost before = out@;
    let text = json_escape(s);
    append(out, "\"");
    append(out, text.as_str());
    append(out, "\"");
    assert(out@ =~= before + quoted(s@));
}

/// Writes a number.
pub(crate) fn append_number(out: &mut String, n: u64)
    ensures
        final(out)@ == old(out)@ + decimal(n as nat),
{
    let text = decimal_text(n);
    append(out, text.as_str());
}

/// What a JSON string says, if what stands between its quotes is well formed.
pub open spec fn unescaped(s: Seq<char>) -> Option<Seq<char>>
    decreases s.len(),
{
    if s.len() == 0 {
        Some(Seq::empty())
    } else {
        let (c, rest) = if s[0] == '\\' && s.len() >= 2 {
            if s[1] == 'u' && s.len() >= 6 {
                (Some(digits_value(s.subrange(2, 6), 16) as char), s.skip(6))
            } else if s[1] == 'n' {
                (Some('\n'), s.skip(2))
            } else if s[1] == 'r' {
                (Some('\r'), s.skip(2))
            } else if s[1] == 't' {
                (Some('\t'), s.skip(2))
            } else if s[1] == '\\' || s[1] == '"' {
                (Some(s[1]), s.skip(2))
            } else {
                (None, s.skip(2))
            }
        } else if s[0] == '\\' || s[0] == '"' || s[0] as u32 <= 0x1f {
            (None, s.skip(1))
        } else {
            (Some(s[0]), s.skip(1))
        };
        match (c, unescaped(rest)) {
            (Some(c), Some(text)) => Some(seq![c] + text),
            _ => None,
        }
    }
}

/// What stands for a character is read as that character, whatever follows.
proof fn lemma_unescape_char(c: char, t: Seq<char>)
    requires
        unescaped(t) is Some,
    ensures
        unescaped(escaped_char(c) + t) == Some(seq![c] + unescaped(t)->0),
{
    let e = escaped_char(c);
    let s = e + t;
    if c == '\\' || c == '"' || c == '\n' || c == '\r' || c == '\t' {
        assert(s.skip(2) =~= t);
        assert(s[0] == e[0] && s[1] == e[1]);
    } else if is_control(c) {
        let number = hexadecimal(c as nat);
        let padded = zero_padded(number, 4);
        lemma_two_digits(c as nat);
        assert(e.len() == 6);
        assert(s[0] == e[0] && s[1] == e[1]);
        assert(s.skip(6) =~= t);
        assert(s.subrange(2, 6) =~= padded);
        lemma_padded_value(number, 4, 16);
        law_number_reads_back(c as nat, 16);
        assert(digits_value(padded, 16) == c as nat);
    } else {
        assert(s[0] == c);
        assert(s.skip(1) =~= t);
    }
}

/// A number below 256 has at most two hexadecimal digits.
proof fn lemma_two_digits(n: nat)
    requires
        n < 256,
    ensures
        hexadecimal(n).len() <= 2,
{
    reveal_with_fuel(number_text, 3);
}

/// The first character is written first.
proof fn lemma_escaped_front(s: Seq<char>)
    requires
        s.len() > 0,
    ensures
        escaped(s) == escaped_char(s[0]) + escaped(s.drop_first()),
    decreases s.len(),
{
    if s.len() == 1 {
        assert(s.drop_last() =~= Seq::empty());
        assert(s.drop_first() =~= Seq::empty());
        assert(escaped(s) =~= escaped_char(s[0]) + escaped(s.drop_first()));
    } else {
        lemma_escaped_front(s.drop_last());
        assert(s.drop_last().drop_first() =~= s.drop_first().drop_last());
        assert(escaped(s) =~= escaped_char(s[0]) + escaped(s.drop_first()));
    }
}

/// A text that was written in a JSON string can be read back from it. In particular it does not end
/// the string.
pub proof fn law_escaped_reads_back(s: Seq<char>)
    ensures
        unescaped(escaped(s)) == Some(s),
    decreases s.len(),
{
    if s.len() > 0 {
        lemma_escaped_front(s);
        law_escaped_reads_back(s.drop_first());
        lemma_unescape_char(s[0], escaped(s.drop_first()));
        assert(s =~= seq![s[0]] + s.drop_first());
    } else {
        assert(s =~= Seq::empty());
    }
}

/// A text of small letters and underscores stays as it is.
pub proof fn lemma_plain_escaped(s: Seq<char>)
    requires
        forall|i: int| 0 <= i < s.len() ==> 'a' <= (#[trigger] s[i]) <= 'z' || s[i] == '_',
    ensures
        escaped(s) == s,
    decreases s.len(),
{
    if s.len() > 0 {
        lemma_plain_escaped(s.drop_last());
        let c = s[s.len() - 1];
        assert(escaped_char(c) == seq![c]);
        assert(escaped(s) =~= s);
    } else {
        assert(escaped(s) =~= s);
    }
}

} // verus!
