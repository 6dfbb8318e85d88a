//! JSON texts, put together piece by piece.

use crate::json::{lemma_plain_escaped, quoted, rows};
use crate::text::decimal;
use crate::tree::TreeModel;
use crate::written::{
    are_decimals, entries_model, entries_text, is_blank, is_proper, is_written, items_model,
    items_text, lemma_items_model, lemma_lines_are_items, lemma_next_spaced, written_model,
    written_text, Written, WrittenEntry, WrittenValue,
};
use vstd::prelude::*;
use vstd::utf8::encode_utf8;

verus! {

/// Whether a document is written with this text, says this, and goes no deeper than `depth`.
pub open spec fn says(w: Written, text: Seq<char>, model: TreeModel, depth: nat) -> bool {
    &&& written_text(w) == text
    &&& written_model(w) == model
    &&& is_proper(w, depth)
}

/// Whether a text is JSON that says this, and goes no deeper than `depth`.
pub open spec fn is_json(text: Seq<char>, model: TreeModel, depth: nat) -> bool {
    exists|w: Written| says(w, text, model, depth)
}

/// Whether a text, as it is written to a file, is a JSON document that is read as this.
pub open spec fn reads_as(text: Seq<char>, model: TreeModel) -> bool {
    exists|w: Written, after: Seq<char>| #[trigger]
        is_written(encode_utf8(text), w, after) && written_model(w) == model
}

/// A JSON text with the end of a line behind it is a document.
pub proof fn lemma_json_document(text: Seq<char>, model: TreeModel)
    requires
        is_json(text, model, 100),
    ensures
        reads_as(text + "\n"@, model),
{
    let w = choose|w: Written| says(w, text, model, 100);
    assert(is_blank("\n"@)) by {
        reveal_strlit("\n");
    }
    assert(is_written(encode_utf8(text + "\n"@), w, "\n"@));
}

proof fn lemma_bare(value: WrittenValue, text: Seq<char>, model: TreeModel, depth: nat)
    requires
        ({
            let w = Written { space: Seq::empty(), value };
            &&& written_text(w) == Seq::<char>::empty() + text
            &&& written_model(w) == model
            &&& is_proper(w, depth)
        }),
    ensures
        is_json(text, model, depth),
{
    let w = Written { space: Seq::empty(), value };
    assert(Seq::<char>::empty() + text =~= text);
    assert(says(w, text, model, depth));
}

pub proof fn lemma_json_null(depth: nat)
    ensures
        is_json("null"@, TreeModel::Null, depth),
{
    lemma_bare(WrittenValue::Null, "null"@, TreeModel::Null, depth);
}

pub proof fn lemma_json_number(n: u64, depth: nat)
    ensures
        is_json(decimal(n as nat), TreeModel::Unsigned(n), depth),
{
    lemma_bare(WrittenValue::Number(n), decimal(n as nat), TreeModel::Unsigned(n), depth);
}

pub proof fn lemma_json_text(s: Seq<char>, depth: nat)
    ensures
        is_json(quoted(s), TreeModel::Text(s), depth),
{
    lemma_bare(WrittenValue::Text(s), quoted(s), TreeModel::Text(s), depth);
}

/// Whether a text is a number with decimals.
pub open spec fn is_decimal_text(text: Seq<char>) -> bool {
    exists|n: u64, digits: Seq<char>|
        are_decimals(digits) && text == #[trigger] decimal_parts(n, digits)
}

pub open spec fn decimal_parts(n: u64, digits: Seq<char>) -> Seq<char> {
    decimal(n as nat) + "."@ + digits
}

pub proof fn lemma_json_decimal(text: Seq<char>, depth: nat)
    requires
        is_decimal_text(text),
    ensures
        is_json(text, TreeModel::Other, depth),
{
    let (n, digits) = choose|n: u64, digits: Seq<char>|
        are_decimals(digits) && text == #[trigger] decimal_parts(n, digits);
    lemma_bare(WrittenValue::Decimal(n, digits), text, TreeModel::Other, depth);
}

/// White space may stand before a value.
pub proof fn lemma_json_spaced(space: Seq<char>, text: Seq<char>, model: TreeModel, depth: nat)
    requires
        is_blank(space),
        is_json(text, model, depth),
    ensures
        is_json(space + text, model, depth),
{
    let w = choose|w: Written| says(w, text, model, depth);
    let spaced = Written { space: space + w.space, value: w.value };
    assert(written_text(spaced) =~= space + written_text(w));
    assert(is_blank(spaced.space));
    assert(says(spaced, space + text, model, depth));
}

/// A value may stand on a line of its own.
pub proof fn lemma_json_line(indent: Seq<char>, text: Seq<char>, model: TreeModel, depth: nat)
    requires
        is_blank(indent),
        is_json(text, model, depth),
    ensures
        is_json("\n"@ + (indent + text), model, depth),
{
    reveal_strlit("\n");
    lemma_json_spaced("\n"@ + indent, text, model, depth);
    assert(("\n"@ + indent) + text =~= "\n"@ + (indent + text));
}

/// A list in brackets, each item on a line of its own.
pub open spec fn listed(open: Seq<char>, lines: Seq<Seq<char>>, close: Seq<char>) -> Seq<char> {
    open + rows(lines) + close
}

/// Lines in brackets are a list.
pub proof fn lemma_json_list(
    space: Seq<char>,
    open: Seq<char>,
    lines: Seq<Seq<char>>,
    indent: Seq<char>,
    close: Seq<char>,
    models: Seq<TreeModel>,
    depth: nat,
)
    requires
        lines.len() == models.len(),
        forall|i: int| 0 <= i < lines.len() ==> is_json("\n"@ + #[trigger] lines[i], models[i], depth),
        is_blank(space),
        is_blank(indent),
        open == space + "["@ + "\n"@,
        close == indent + "]"@,
    ensures
        is_json(listed(open, lines, close), TreeModel::List(models), depth + 1),
{
    let items = Seq::new(
        lines.len(),
        |i: int| choose|w: Written| says(w, "\n"@ + lines[i], models[i], depth),
    );
    let end = "\n"@ + indent;
    let w = Written { space, value: WrittenValue::List(items, end) };
    assert forall|i: int| 0 <= i < items.len() implies says(
        #[trigger] items[i],
        "\n"@ + lines[i],
        models[i],
        depth,
    ) by {
        assert(is_json("\n"@ + lines[i], models[i], depth));
    }
    assert forall|i: int| 0 <= i < items.len() implies written_text(#[trigger] items[i]) == "\n"@
        + lines[i] by {
        assert(says(items[i], "\n"@ + lines[i], models[i], depth));
    }
    lemma_lines_are_items(lines, items);
    lemma_items_model(items, items.len());
    assert forall|i: int| 0 <= i < items.len() implies #[trigger] items_model(items, items.len())[i]
        == models[i] by {
        assert(says(items[i], "\n"@ + lines[i], models[i], depth));
    }
    assert(items_model(items, items.len()) =~= models);
    assert(is_blank(end)) by {
        reveal_strlit("\n");
    }
    assert forall|i: int| 0 <= i < items.len() implies is_proper(#[trigger] items[i], depth) by {
        assert(says(items[i], "\n"@ + lines[i], models[i], depth));
    }
    assert(is_proper(w, depth + 1));
    let inner = items_text(items, items.len());
    assert(written_text(w) == space + ("["@ + inner + end + "]"@));
    lemma_list_text(space, inner, rows(lines), indent);
    assert(says(w, listed(open, lines, close), TreeModel::List(models), depth + 1));
}

proof fn lemma_list_text(space: Seq<char>, inner: Seq<char>, lines: Seq<char>, indent: Seq<char>)
    requires
        "\n"@ + lines == inner + "\n"@,
    ensures
        space + ("["@ + inner + ("\n"@ + indent) + "]"@) == space + "["@ + "\n"@ + lines + (indent
            + "]"@),
{
    assert(space + ("["@ + inner + ("\n"@ + indent) + "]"@) =~= space + "["@ + (inner + "\n"@) + (
    indent + "]"@));
    assert(space + "["@ + ("\n"@ + lines) + (indent + "]"@) =~= space + "["@ + "\n"@ + lines + (
    indent + "]"@));
}

/// A key of a table with its value: what stands before the value, the white space before the key,
/// the key, the text of the value, and what it says.
pub struct Field {
    pub label: Seq<char>,
    pub space: Seq<char>,
    pub key: Seq<char>,
    pub text: Seq<char>,
    pub model: TreeModel,
}

/// A field on the line where the one before it stands.
pub open spec fn field(label: Seq<char>, key: Seq<char>, text: Seq<char>, model: TreeModel) -> Field {
    Field { label, space: Seq::empty(), key, text, model }
}

/// A field on a line of its own.
pub open spec fn line_field(
    label: Seq<char>,
    key: Seq<char>,
    text: Seq<char>,
    model: TreeModel,
) -> Field {
    Field { label, space: "\n  "@, key, text, model }
}

/// The first fields, one after the other.
pub open spec fn fields_text(fields: Seq<Field>, n: nat) -> Seq<char>
    decreases n,
{
    if n == 0 || n > fields.len() {
        Seq::empty()
    } else {
        fields_text(fields, (n - 1) as nat) + fields[n - 1].label + fields[n - 1].text
    }
}

/// What the first of some keys and values say.
pub open spec fn entries_of(entries: Seq<(Seq<char>, TreeModel)>, n: nat) -> Map<
    Seq<char>,
    TreeModel,
>
    decreases n,
{
    if n == 0 || n > entries.len() {
        Map::empty()
    } else {
        entries_of(entries, (n - 1) as nat).insert(entries[n - 1].0, entries[n - 1].1)
    }
}

/// A table of keys and values.
pub open spec fn record(entries: Seq<(Seq<char>, TreeModel)>) -> TreeModel {
    TreeModel::Table(entries_of(entries, entries.len()))
}

/// What stands before a value: white space, the key in quotes and a colon.
pub open spec fn label_of(open: Seq<char>, space: Seq<char>, key: Seq<char>) -> Seq<char> {
    open + space + quoted(key) + ":"@
}

/// Whether the labels are those of the keys. `before` is what stands before the first.
pub open spec fn labels_ok(before: Seq<char>, space: Seq<char>, fields: Seq<Field>) -> bool {
    &&& fields.len() > 0
    &&& before + fields[0].label == space + label_of("{"@, fields[0].space, fields[0].key)
    &&& forall|i: int|
        0 < i < fields.len() ==> (#[trigger] fields[i]).label == label_of(
            ","@,
            fields[i].space,
            fields[i].key,
        )
}

/// Whether the fields are those of a table.
pub open spec fn fields_ok(fields: Seq<Field>, depth: nat) -> bool {
    &&& forall|i: int|
        0 <= i < fields.len() ==> is_blank((#[trigger] fields[i]).space) && is_json(
            fields[i].text,
            fields[i].model,
            depth,
        )
    &&& forall|i: int, j: int|
        0 <= i < j < fields.len() ==> (#[trigger] fields[i]).key != (#[trigger] fields[j]).key
}

/// A key of small letters and underscores stands in quotes as it is.
pub proof fn lemma_label(open: Seq<char>, space: Seq<char>, key: Seq<char>)
    requires
        forall|i: int| 0 <= i < key.len() ==> 'a' <= (#[trigger] key[i]) <= 'z' || key[i] == '_',
    ensures
        label_of(open, space, key) == open + space + seq!['"'] + key + seq!['"', ':'],
{
    lemma_plain_escaped(key);
    assert("\""@ =~= seq!['"']) by {
        reveal_strlit("\"");
    }
    assert(":"@ =~= seq![':']) by {
        reveal_strlit(":");
    }
    assert(open + space + (seq!['"'] + key + seq!['"']) + seq![':'] =~= open + space + seq!['"']
        + key + seq!['"', ':']);
}

/// Fields in braces are a table.
pub proof fn lemma_json_table(
    before: Seq<char>,
    space: Seq<char>,
    fields: Seq<Field>,
    end: Seq<char>,
    close: Seq<char>,
    entries: Seq<(Seq<char>, TreeModel)>,
    depth: nat,
)
    requires
        labels_ok(before, space, fields),
        fields_ok(fields, depth),
        is_blank(space),
        is_blank(end),
        close == end + "}"@,
        entries.len() == fields.len(),
        forall|i: int|
            0 <= i < fields.len() ==> (#[trigger] entries[i]).0 == fields[i].key && entries[i].1
                == fields[i].model,
    ensures
        is_json(before + (fields_text(fields, fields.len()) + close), record(entries), depth + 1),
{
    let n = fields.len();
    let inside = Seq::new(
        n,
        |i: int|
            WrittenEntry {
                space: fields[i].space,
                key: fields[i].key,
                value: choose|w: Written| says(w, fields[i].text, fields[i].model, depth),
            },
    );
    let w = Written { space, value: WrittenValue::Table(inside, end) };
    assert forall|i: int| 0 <= i < n implies says(
        (#[trigger] inside[i]).value,
        fields[i].text,
        fields[i].model,
        depth,
    ) by {
        assert(is_json(fields[i].text, fields[i].model, depth));
    }
    lemma_fields_text(before, space, fields, inside, n);
    lemma_fields_model(fields, inside, entries, n);
    assert(written_text(w) == space + ("{"@ + entries_text(inside, n) + end + "}"@));
    assert(space + ("{"@ + entries_text(inside, n) + end + "}"@) =~= (space + ("{"@ + entries_text(
        inside,
        n,
    ))) + (end + "}"@));
    assert(before + fields_text(fields, n) + close =~= before + (fields_text(fields, n) + close));
    assert forall|i: int| 0 <= i < n implies is_blank((#[trigger] inside[i]).space) && is_proper(
        inside[i].value,
        depth,
    ) by {
        assert(is_blank(fields[i].space));
        assert(says(inside[i].value, fields[i].text, fields[i].model, depth));
    }
    assert forall|i: int, j: int| 0 <= i < j < n implies (#[trigger] inside[i]).key != (
    #[trigger] inside[j]).key by {
        assert(fields[i].key != fields[j].key);
    }
    assert(is_proper(w, depth + 1));
    assert(says(
        w,
        before + (fields_text(fields, n) + close),
        record(entries),
        depth + 1,
    ));
}

proof fn lemma_fields_text(
    before: Seq<char>,
    space: Seq<char>,
    fields: Seq<Field>,
    inside: Seq<WrittenEntry>,
    n: nat,
)
    requires
        labels_ok(before, space, fields),
        inside.len() == fields.len(),
        0 < n <= fields.len(),
        forall|i: int|
            0 <= i < fields.len() ==> (#[trigger] inside[i]).space == fields[i].space
                && inside[i].key == fields[i].key && written_text(inside[i].value)
                == fields[i].text,
    ensures
        space + ("{"@ + entries_text(inside, n)) == before + fields_text(fields, n),
    decreases n,
{
    let k = (n - 1) as nat;
    lemma_next_spaced(inside, k as int);
    let (last, f) = (inside[k as int], fields[k as int]);
    assert(last.space == f.space);
    if n == 1 {
        reveal_strlit("");
        let none = Seq::<char>::empty();
        assert(fields_text(fields, 1) == none + f.label + f.text) by {
            reveal_with_fuel(fields_text, 2);
        }
        assert(before + (none + f.label + f.text) =~= (before + f.label) + f.text);
        assert((space + ("{"@ + f.space + quoted(f.key) + ":"@)) + f.text =~= space + ("{"@ + (none
            + (""@ + f.space + quoted(f.key) + ":"@) + f.text)));
    } else {
        lemma_fields_text(before, space, fields, inside, k);
        let so_far = entries_text(inside, k);
        assert(space + ("{"@ + (so_far + f.label + f.text)) =~= (space + ("{"@ + so_far)) + f.label
            + f.text);
        assert(before + (fields_text(fields, k) + f.label + f.text) =~= (before + fields_text(
            fields,
            k,
        )) + f.label + f.text);
    }
}

proof fn lemma_fields_model(
    fields: Seq<Field>,
    inside: Seq<WrittenEntry>,
    entries: Seq<(Seq<char>, TreeModel)>,
    n: nat,
)
    requires
        inside.len() == fields.len() == entries.len(),
        n <= fields.len(),
        forall|i: int|
            0 <= i < fields.len() ==> (#[trigger] inside[i]).key == fields[i].key && written_model(
                inside[i].value,
            ) == fields[i].model,
        forall|i: int|
            0 <= i < fields.len() ==> (#[trigger] entries[i]).0 == fields[i].key && entries[i].1
                == fields[i].model,
    ensures
        entries_model(inside, n) == entries_of(entries, n),
    decreases n,
{
    if n > 0 {
        lemma_fields_model(fields, inside, entries, (n - 1) as nat);
        assert(inside[n - 1].key == fields[n - 1].key);
        assert(entries[n - 1].0 == fields[n - 1].key);
    }
}

} // verus!
