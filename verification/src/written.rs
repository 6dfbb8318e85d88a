//! JSON texts, taken apart: what a text says, whatever white space it is laid out with.

use crate::json::{quoted, rows, rows_up_to};
use crate::text::decimal;
use crate::tree::TreeModel;
use vstd::prelude::*;
use vstd::utf8::encode_utf8;

verus! {

/// A value with the white space before it.
pub struct Written {
    pub space: Seq<char>,
    pub value: WrittenValue,
}

/// A value.
pub enum WrittenValue {
    Null,
    Number(u64),
    /// A number with decimals: what stands before the point, and the digits behind it.
    Decimal(u64, Seq<char>),
    Text(Seq<char>),
    /// The items, and the white space behind the last of them.
    List(Seq<Written>, Seq<char>),
    /// The entries, and the white space behind the last of them.
    Table(Seq<WrittenEntry>, Seq<char>),
}

/// A key with the white space before it, and its value.
pub struct WrittenEntry {
    pub space: Seq<char>,
    pub key: Seq<char>,
    pub value: Written,
}

/// White space as JSON has it.
pub open spec fn is_blank(s: Seq<char>) -> bool {
    forall|i: int|
        0 <= i < s.len() ==> (#[trigger] s[i]) == ' ' || s[i] == '\n' || s[i] == '\r' || s[i]
            == '\t'
}

/// The decimals of a number: digits, neither none nor too many.
pub open spec fn are_decimals(s: Seq<char>) -> bool {
    0 < s.len() <= 100 && forall|i: int| 0 <= i < s.len() ==> '0' <= (#[trigger] s[i]) <= '9'
}

/// The text.
pub open spec fn written_text(w: Written) -> Seq<char>
    decreases w, 0nat,
{
    w.space + (match w.value {
        WrittenValue::Null => "null"@,
        WrittenValue::Number(n) => decimal(n as nat),
        WrittenValue::Decimal(n, digits) => decimal(n as nat) + "."@ + digits,
        WrittenValue::Text(s) => quoted(s),
        WrittenValue::List(items, end) => "["@ + items_text(items, items.len()) + end + "]"@,
        WrittenValue::Table(entries, end) => "{"@ + entries_text(entries, entries.len()) + end
            + "}"@,
    })
}

/// The first items of a list, with commas between them.
pub open spec fn items_text(items: Seq<Written>, n: nat) -> Seq<char>
    decreases items, n,
{
    if n == 0 || n > items.len() {
        Seq::empty()
    } else {
        items_text(items, (n - 1) as nat) + (if n == 1 {
            ""@
        } else {
            ","@
        }) + written_text(items[n - 1])
    }
}

/// The first entries of a table, with commas between them.
pub open spec fn entries_text(entries: Seq<WrittenEntry>, n: nat) -> Seq<char>
    decreases entries, n,
{
    if n == 0 || n > entries.len() {
        Seq::empty()
    } else {
        entries_text(entries, (n - 1) as nat) + (if n == 1 {
            ""@
        } else {
            ","@
        }) + entries[n - 1].space + quoted(entries[n - 1].key) + ":"@ + written_text(
            entries[n - 1].value,
        )
    }
}

/// What the text says.
pub open spec fn written_model(w: Written) -> TreeModel
    decreases w, 0nat,
{
    match w.value {
        WrittenValue::Null => TreeModel::Null,
        WrittenValue::Number(n) => TreeModel::Unsigned(n),
        WrittenValue::Decimal(_, _) => TreeModel::Other,
        WrittenValue::Text(s) => TreeModel::Text(s),
        WrittenValue::List(items, _) => TreeModel::List(items_model(items, items.len())),
        WrittenValue::Table(entries, _) => TreeModel::Table(entries_model(entries, entries.len())),
    }
}

/// What the first items of a list say.
pub open spec fn items_model(items: Seq<Written>, n: nat) -> Seq<TreeModel>
    decreases items, n,
{
    if n == 0 || n > items.len() {
        Seq::empty()
    } else {
        items_model(items, (n - 1) as nat).push(written_model(items[n - 1]))
    }
}

/// What the first entries of a table say.
pub open spec fn entries_model(entries: Seq<WrittenEntry>, n: nat) -> Map<Seq<char>, TreeModel>
    decreases entries, n,
{
    if n == 0 || n > entries.len() {
        Map::empty()
    } else {
        entries_model(entries, (n - 1) as nat).insert(
            entries[n - 1].key,
            written_model(entries[n - 1].value),
        )
    }
}

/// Whether the white space and the decimals are such, no table has a key twice, and lists and tables lie at most
/// `depth` deep in each other.
pub open spec fn is_proper(w: Written, depth: nat) -> bool
    decreases depth,
{
    is_blank(w.space) && match w.value {
        WrittenValue::Null => true,
        WrittenValue::Number(_) => true,
        WrittenValue::Decimal(_, digits) => are_decimals(digits),
        WrittenValue::Text(_) => true,
        WrittenValue::List(items, end) => depth > 0 && is_blank(end) && forall|i: int|
            0 <= i < items.len() ==> is_proper(#[trigger] items[i], (depth - 1) as nat),
        WrittenValue::Table(entries, end) => depth > 0 && is_blank(end) && (forall|i: int|
            0 <= i < entries.len() ==> is_blank((#[trigger] entries[i]).space) && is_proper(
                entries[i].value,
                (depth - 1) as nat,
            )) && forall|i: int, j: int|
            0 <= i < j < entries.len() ==> (#[trigger] entries[i]).key != (#[trigger] entries[j]).key,
    }
}

/// Whether bytes are a document that is written so, with white space behind it.
pub open spec fn is_written(bytes: Seq<u8>, w: Written, after: Seq<char>) -> bool {
    is_proper(w, 100) && is_blank(after) && bytes == encode_utf8(written_text(w) + after)
}

/// An entry on the line where the one before it stands.
pub open spec fn entry(key: Seq<char>, value: WrittenValue) -> WrittenEntry {
    WrittenEntry { space: Seq::empty(), key, value: Written { space: Seq::empty(), value } }
}

/// A list of which every item stands on a line of its own.
pub open spec fn line_items(values: Seq<WrittenValue>) -> Seq<Written> {
    Seq::new(values.len(), |i: int| Written { space: "\n    "@, value: values[i] })
}

/// A number or a text, and what it says.
pub proof fn lemma_plain_value(w: Written)
    ensures
        w.value matches WrittenValue::Number(n) ==> written_text(w) == w.space + decimal(n as nat)
            && written_model(w) == TreeModel::Unsigned(n) && (is_blank(w.space) ==> forall|d: nat|
            #[trigger] is_proper(w, d)),
        w.value matches WrittenValue::Text(s) ==> written_text(w) == w.space + quoted(s)
            && written_model(w) == TreeModel::Text(s) && (is_blank(w.space) ==> forall|d: nat|
            #[trigger] is_proper(w, d)),
{
}

/// One more entry of a table, on the line where the one before it stands.
pub proof fn lemma_next_entry(entries: Seq<WrittenEntry>, n: int, key: Seq<char>, value: WrittenValue)
    requires
        0 <= n < entries.len(),
        entries[n] == entry(key, value),
    ensures
        entries_text(entries, (n + 1) as nat) == entries_text(entries, n as nat) + ((if n == 0 {
            ""@
        } else {
            ","@
        }) + quoted(key) + ":"@) + written_text(entries[n].value),
        entries_model(entries, (n + 1) as nat) == entries_model(entries, n as nat).insert(
            key,
            written_model(entries[n].value),
        ),
        entries_text(entries, 0) == Seq::<char>::empty(),
        entries_model(entries, 0) == Map::<Seq<char>, TreeModel>::empty(),
{
    assert(entries_text(entries, (n + 1) as nat) =~= entries_text(entries, n as nat) + ((if n == 0 {
        ""@
    } else {
        ","@
    }) + quoted(key) + ":"@) + written_text(entries[n].value));
}

/// One more entry of a table, with white space before it.
pub proof fn lemma_next_spaced(entries: Seq<WrittenEntry>, n: int)
    requires
        0 <= n < entries.len(),
    ensures
        entries_text(entries, (n + 1) as nat) == entries_text(entries, n as nat) + ((if n == 0 {
            ""@
        } else {
            ","@
        }) + entries[n].space + quoted(entries[n].key) + ":"@) + written_text(entries[n].value),
        entries_model(entries, (n + 1) as nat) == entries_model(entries, n as nat).insert(
            entries[n].key,
            written_model(entries[n].value),
        ),
        entries_text(entries, 0) == Seq::<char>::empty(),
        entries_model(entries, 0) == Map::<Seq<char>, TreeModel>::empty(),
{
    assert(entries_text(entries, (n + 1) as nat) =~= entries_text(entries, n as nat) + ((if n == 0 {
        ""@
    } else {
        ","@
    }) + entries[n].space + quoted(entries[n].key) + ":"@) + written_text(entries[n].value));
}

/// A table on a line of its own, where the line begins with `start`.
pub proof fn lemma_line_of_table(
    w: Written,
    inside: Seq<char>,
    rest: Seq<char>,
    first: Seq<char>,
    start: Seq<char>,
)
    requires
        w.value is Table,
        w.value->Table_1 == Seq::<char>::empty(),
        inside == entries_text(w.value->Table_0, w.value->Table_0.len()),
        inside == first + rest,
        w.space + "{"@ + first == "\n"@ + start,
    ensures
        written_text(w) == "\n"@ + (start + rest + "}"@),
{
    let all = "{"@ + inside + Seq::<char>::empty() + "}"@;
    assert(written_text(w) == w.space + all);
    assert(w.space + all =~= (w.space + "{"@ + first) + rest + "}"@);
    assert(("\n"@ + start) + rest + "}"@ =~= "\n"@ + (start + rest + "}"@));
}

/// What separates the first `n` of some lines from what comes next.
spec fn line_end(n: int, len: int) -> Seq<char> {
    if n == 0 || n == len {
        "\n"@
    } else {
        ",\n"@
    }
}

proof fn lemma_lines_up_to(lines: Seq<Seq<char>>, items: Seq<Written>, n: int)
    requires
        lines.len() == items.len(),
        0 <= n <= lines.len(),
        forall|i: int|
            0 <= i < items.len() ==> written_text(#[trigger] items[i]) == "\n"@ + lines[i],
    ensures
        "\n"@ + rows_up_to(lines, n) == items_text(items, n as nat) + line_end(n, lines.len() as int),
    decreases n,
{
    reveal_strlit("");
    reveal_strlit(",");
    reveal_strlit("\n");
    reveal_strlit(",\n");
    if n > 0 {
        lemma_lines_up_to(lines, items, n - 1);
        let len = lines.len() as int;
        let comma = if n == len {
            ""@
        } else {
            ","@
        };
        assert(written_text(items[n - 1]) == "\n"@ + lines[n - 1]);
        assert("\n"@ + rows_up_to(lines, n) =~= ("\n"@ + rows_up_to(lines, n - 1)) + lines[n - 1]
            + comma + "\n"@);
        assert(comma + "\n"@ =~= line_end(n, len));
        let before = if n == 1 {
            ""@
        } else {
            ","@
        };
        assert(line_end(n - 1, len) =~= before + "\n"@);
        assert(items_text(items, n as nat) == items_text(items, (n - 1) as nat) + before + (
        "\n"@ + lines[n - 1]));
        assert((items_text(items, (n - 1) as nat) + (before + "\n"@)) + lines[n - 1] + comma + "\n"@
            =~= items_text(items, n as nat) + (comma + "\n"@));
    } else {
        assert("\n"@ + rows_up_to(lines, 0) =~= items_text(items, 0) + "\n"@);
    }
}

/// The lines of a list are the items of a list.
pub proof fn lemma_lines_are_items(lines: Seq<Seq<char>>, items: Seq<Written>)
    requires
        lines.len() == items.len(),
        forall|i: int|
            0 <= i < items.len() ==> written_text(#[trigger] items[i]) == "\n"@ + lines[i],
    ensures
        "\n"@ + rows(lines) == items_text(items, items.len()) + "\n"@,
{
    lemma_lines_up_to(lines, items, lines.len() as int);
}

/// What the items of a list say, one by one.
pub proof fn lemma_items_model(items: Seq<Written>, n: nat)
    requires
        n <= items.len(),
    ensures
        items_model(items, n).len() == n,
        forall|i: int| 0 <= i < n ==> #[trigger] items_model(items, n)[i] == written_model(items[i]),
    decreases n,
{
    if n > 0 {
        lemma_items_model(items, (n - 1) as nat);
    }
}

} // verus!
