//! The cache of names: which function stands at which address of a binary.

use crate::json::{
    append_number, append_quoted, lemma_plain_escaped, push_row, quoted, rows, rows_up_to,
};
use crate::ordered::{ascending, entries_map, lemma_entries_step, SortedMap};
use crate::symbols::{symbol_names, SymbolTable};
use crate::text::{append, decimal};
use crate::tree::{item_models, json_document, parse_json, Tree, TreeModel};
use crate::written::{
    entries_model, entries_text, entry, is_blank, is_proper, is_written, items_model, items_text,
    lemma_items_model, lemma_line_of_table, lemma_lines_are_items, lemma_next_entry,
    lemma_next_spaced, lemma_plain_value, line_items, written_model, written_text, Written,
    WrittenEntry, WrittenValue,
};
use vstd::prelude::*;
use vstd::seq_lib::lemma_concat_associative;
use vstd::utf8::encode_utf8;

verus! {

/// Which form the symbol cache has.
pub const SYMBOL_CACHE_VERSION: u64 = 2;

/// Whether a cache was made for a binary of that size and time.
pub open spec fn cache_is_current(doc: TreeModel, size: u64, mtime_ns: u64) -> bool {
    &&& doc.number_at("version"@) == Some(SYMBOL_CACHE_VERSION)
    &&& doc.number_at("binary_size"@) == Some(size)
    &&& doc.number_at("binary_mtime_ns"@) == Some(mtime_ns)
}

/// The names in a list of symbols. Of several names for an address the last counts.
pub open spec fn listed_symbols(list: Seq<TreeModel>) -> Map<u64, Seq<char>>
    decreases list.len(),
{
    if list.len() == 0 {
        Map::empty()
    } else {
        let before = listed_symbols(list.drop_last());
        match (list.last().number_at("pc"@), list.last().text_at("name"@)) {
            (Some(pc), Some(name)) => before.insert(pc, name),
            _ => before,
        }
    }
}

/// The names in a cache that was made for a binary of that size and time; none in any other.
pub open spec fn cached_names(doc: TreeModel, size: u64, mtime_ns: u64) -> Map<u64, Seq<char>> {
    if cache_is_current(doc, size, mtime_ns) {
        listed_symbols(doc.items_at("symbols"@))
    } else {
        Map::empty()
    }
}

fn has_number(doc: &Tree, key: &str, n: u64) -> (r: bool)
    ensures
        r == (doc@.number_at(key@) == Some(n)),
{
    match doc.number_at(key) {
        Some(m) => m == n,
        None => false,
    }
}

pub fn cached_symbols(doc: &Tree, size: u64, mtime_ns: u64) -> (r: SymbolTable)
    ensures
        symbol_names(r@) == cached_names(doc@, size, mtime_ns),
{
    let mut table: SymbolTable = SortedMap::new();
    assert(symbol_names(table@) =~= Map::empty());
    if !(has_number(doc, "version", SYMBOL_CACHE_VERSION) && has_number(doc, "binary_size", size)
        && has_number(doc, "binary_mtime_ns", mtime_ns)) {
        return table;
    }
    let ghost all = doc@.items_at("symbols"@);
    if let Some(list) = doc.items_at("symbols") {
        let n = list.len();
        let mut i: usize = 0;
        assert(all.take(0).len() == 0);
        while i < n
            invariant
                all == item_models(list@),
                n == list@.len(),
                i <= n,
                symbol_names(table@) == listed_symbols(all.take(i as int)),
            decreases n - i,
        {
            let entry = &list[i];
            assert(all[i as int] == entry@);
            assert(all.take(i + 1).drop_last() =~= all.take(i as int));
            if let Some(pc) = entry.number_at("pc") {
                if let Some(name) = entry.text_at("name") {
                    let ghost before = table@;
                    table.insert(pc, name.to_owned());
                    assert(symbol_names(table@) =~= symbol_names(before).insert(pc, name@));
                }
            }
            i = i + 1;
        }
        assert(all.take(n as int) =~= all);
    } else {
        assert(all =~= Seq::empty());
    }
    table
}

/// Reads a symbol cache for a binary of that size and time; gives none where the bytes are no JSON
/// document.
pub fn load_symbol_cache(bytes: &[u8], size: u64, mtime_ns: u64) -> (r: Option<SymbolTable>)
    ensures
        r is None <==> json_document(bytes@) is None,
        r matches Some(table) ==> symbol_names(table@) == cached_names(
            json_document(bytes@)->0,
            size,
            mtime_ns,
        ),
        forall|table: SymbolTable|
            table.ok() && bytes@ == encode_utf8(
                #[trigger] symbol_cache_text(size, mtime_ns, table.seq()),
            ) ==> r is Some && symbol_names(r->0@) == symbol_names(table@),
{
    proof {
        assert forall|table: SymbolTable|
            table.ok() && bytes@ == encode_utf8(
                #[trigger] symbol_cache_text(size, mtime_ns, table.seq()),
            ) implies is_written(bytes@, cache_written(size, mtime_ns, table.seq()), "\n"@)
            && cached_names(
            written_model(cache_written(size, mtime_ns, table.seq())),
            size,
            mtime_ns,
        ) == symbol_names(table@) by {
            lemma_cache_written(size, mtime_ns, table.seq());
            lemma_cache_model(size, mtime_ns, table.seq());
        }
    }
    match parse_json(bytes) {
        Some(doc) => Some(cached_symbols(&doc, size, mtime_ns)),
        None => None,
    }
}

/// One symbol of a cache.
pub open spec fn symbol_row(pc: u64, name: Seq<char>) -> Seq<char> {
    "    {\"pc\":"@ + decimal(pc as nat) + ",\"name\":"@ + quoted(name) + "}"@
}

/// A symbol cache as it is written.
pub open spec fn symbol_cache_text(
    size: u64,
    mtime_ns: u64,
    symbols: Seq<(u64, String)>,
) -> Seq<char> {
    "{\n  \"version\":"@ + decimal(SYMBOL_CACHE_VERSION as nat) + ",\n  \"binary_size\":"@ + decimal(
        size as nat,
    ) + ",\n  \"binary_mtime_ns\":"@ + decimal(mtime_ns as nat) + ",\n  \"symbols\": [\n"@ + rows(
        Seq::new(symbols.len(), |i: int| symbol_row(symbols[i].0, symbols[i].1@)),
    ) + "  ]\n}\n"@
}

fn symbol_line(pc: u64, name: &str) -> (r: String)
    ensures
        r@ == symbol_row(pc, name@),
{
    let mut line = "    {\"pc\":".to_owned();
    append_number(&mut line, pc);
    append(&mut line, ",\"name\":");
    append_quoted(&mut line, name);
    append(&mut line, "}");
    line
}

/// Writes a symbol cache for a binary of that size and time.
pub fn write_symbol_cache(size: u64, mtime_ns: u64, pc_to_func: &SymbolTable) -> (r: String)
    ensures
        r@ == symbol_cache_text(size, mtime_ns, pc_to_func.seq()),
{
    let ghost all = pc_to_func.seq();
    let ghost lines = Seq::new(all.len(), |i: int| symbol_row(all[i].0, all[i].1@));
    let mut out = "{\n  \"version\":".to_owned();
    append_number(&mut out, SYMBOL_CACHE_VERSION);
    append(&mut out, ",\n  \"binary_size\":");
    append_number(&mut out, size);
    append(&mut out, ",\n  \"binary_mtime_ns\":");
    append_number(&mut out, mtime_ns);
    append(&mut out, ",\n  \"symbols\": [\n");
    let ghost head = out@;
    let n = pc_to_func.len();
    let mut i: usize = 0;
    assert(out@ =~= head + rows_up_to(lines, 0));
    while i < n
        invariant
            all == pc_to_func.seq(),
            lines == Seq::new(all.len(), |i: int| symbol_row(all[i].0, all[i].1@)),
            n == all.len(),
            i <= n,
            out@ == head + rows_up_to(lines, i as int),
        decreases n - i,
    {
        let line = symbol_line(*pc_to_func.key_at(i), pc_to_func.value_at(i).as_str());
        push_row(&mut out, line.as_str(), i + 1 == n, Ghost(head), Ghost(lines), Ghost(i as int));
        i = i + 1;
    }
    append(&mut out, "  ]\n}\n");
    out
}

/// A symbol as a table.
spec fn symbol_value(pc: u64, name: Seq<char>) -> WrittenValue {
    WrittenValue::Table(
        seq![entry("pc"@, WrittenValue::Number(pc)), entry("name"@, WrittenValue::Text(name))],
        Seq::empty(),
    )
}

spec fn symbol_values(symbols: Seq<(u64, String)>) -> Seq<WrittenValue> {
    Seq::new(symbols.len(), |i: int| symbol_value(symbols[i].0, symbols[i].1@))
}

spec fn number_entry(key: Seq<char>, n: u64) -> WrittenEntry {
    WrittenEntry {
        space: "\n  "@,
        key,
        value: Written { space: Seq::empty(), value: WrittenValue::Number(n) },
    }
}

/// A cache as a document.
spec fn cache_written(size: u64, mtime_ns: u64, symbols: Seq<(u64, String)>) -> Written {
    Written {
        space: Seq::empty(),
        value: WrittenValue::Table(
            seq![
                number_entry("version"@, SYMBOL_CACHE_VERSION),
                number_entry("binary_size"@, size),
                number_entry("binary_mtime_ns"@, mtime_ns),
                WrittenEntry {
                    space: "\n  "@,
                    key: "symbols"@,
                    value: Written {
                        space: " "@,
                        value: WrittenValue::List(line_items(symbol_values(symbols)), "\n  "@),
                    },
                },
            ],
            "\n"@,
        ),
    }
}

proof fn lemma_symbol_keys()
    ensures
        ""@ + quoted("pc"@) + ":"@ == "\"pc\":"@,
        ","@ + quoted("name"@) + ":"@ == ",\"name\":"@,
        "\n    "@ + "{"@ + "\"pc\":"@ == "\n"@ + "    {\"pc\":"@,
        "pc"@ != "name"@,
        is_blank("\n    "@),
{
    reveal_strlit("");
    reveal_strlit(",");
    reveal_strlit(":");
    reveal_strlit("\"");
    reveal_strlit("pc");
    reveal_strlit("name");
    lemma_plain_escaped("pc"@);
    lemma_plain_escaped("name"@);
    assert(""@ + quoted("pc"@) + ":"@ =~= "\"pc\":"@) by {
        reveal_strlit("\"pc\":");
    }
    assert(","@ + quoted("name"@) + ":"@ =~= ",\"name\":"@) by {
        reveal_strlit(",\"name\":");
    }
    assert("\n    "@ + "{"@ + "\"pc\":"@ =~= "\n"@ + "    {\"pc\":"@) by {
        reveal_strlit("{");
        reveal_strlit("\n");
        reveal_strlit("\n    ");
        reveal_strlit("\"pc\":");
        reveal_strlit("    {\"pc\":");
    }
    assert(is_blank("\n    "@)) by {
        reveal_strlit("\n    ");
    }
    assert("pc"@.len() == 2 && "name"@.len() == 4);
}

proof fn lemma_symbol_written(pc: u64, name: Seq<char>)
    ensures
        ({
            let w = Written { space: "\n    "@, value: symbol_value(pc, name) };
            &&& written_text(w) == "\n"@ + symbol_row(pc, name)
            &&& is_proper(w, 98)
            &&& written_model(w).number_at("pc"@) == Some(pc)
            &&& written_model(w).text_at("name"@) == Some(name)
        }),
{
    let w = Written { space: "\n    "@, value: symbol_value(pc, name) };
    let entries = w.value->Table_0;
    lemma_symbol_keys();
    lemma_plain_value(entries[0].value);
    lemma_plain_value(entries[1].value);
    lemma_next_entry(entries, 0, "pc"@, WrittenValue::Number(pc));
    lemma_next_entry(entries, 1, "name"@, WrittenValue::Text(name));
    let inside = entries_text(entries, 2);
    let rest = decimal(pc as nat) + ",\"name\":"@ + quoted(name);
    assert(inside =~= "\"pc\":"@ + rest);
    lemma_line_of_table(w, inside, rest, "\"pc\":"@, "    {\"pc\":"@);
    assert(symbol_row(pc, name) =~= "    {\"pc\":"@ + rest + "}"@);
    assert(written_model(w).table() == entries_model(entries, 2));
    assert forall|i: int| 0 <= i < entries.len() implies is_blank((#[trigger] entries[i]).space)
        && is_proper(entries[i].value, 97) by {
        assert(i == 0 || i == 1);
    }
}

proof fn lemma_cache_keys()
    ensures
        "{"@ + (""@ + "\n  "@ + quoted("version"@) + ":"@) == "{\n  \"version\":"@,
        ","@ + "\n  "@ + quoted("binary_size"@) + ":"@ == ",\n  \"binary_size\":"@,
        ","@ + "\n  "@ + quoted("binary_mtime_ns"@) + ":"@ == ",\n  \"binary_mtime_ns\":"@,
        (","@ + "\n  "@ + quoted("symbols"@) + ":"@) + (" "@ + "["@ + "\n"@)
            == ",\n  \"symbols\": [\n"@,
        "\n  "@ + "]"@ + "\n"@ + "}"@ + "\n"@ == "\n"@ + "  ]\n}\n"@,
        "version"@ != "binary_size"@,
        "version"@ != "binary_mtime_ns"@,
        "version"@ != "symbols"@,
        "binary_size"@ != "binary_mtime_ns"@,
        "binary_size"@ != "symbols"@,
        "binary_mtime_ns"@ != "symbols"@,
        is_blank(" "@),
        is_blank("\n"@),
        is_blank("\n  "@),
{
    reveal_strlit("");
    reveal_strlit(" ");
    reveal_strlit(",");
    reveal_strlit(":");
    reveal_strlit("\"");
    reveal_strlit("\n");
    reveal_strlit("\n  ");
    reveal_strlit("version");
    reveal_strlit("binary_size");
    reveal_strlit("binary_mtime_ns");
    reveal_strlit("symbols");
    lemma_plain_escaped("version"@);
    lemma_plain_escaped("binary_size"@);
    lemma_plain_escaped("binary_mtime_ns"@);
    lemma_plain_escaped("symbols"@);
    assert("{"@ + (""@ + "\n  "@ + quoted("version"@) + ":"@) =~= "{\n  \"version\":"@) by {
        reveal_strlit("{");
        reveal_strlit("{\n  \"version\":");
    }
    assert(","@ + "\n  "@ + quoted("binary_size"@) + ":"@ =~= ",\n  \"binary_size\":"@) by {
        reveal_strlit(",\n  \"binary_size\":");
    }
    assert(","@ + "\n  "@ + quoted("binary_mtime_ns"@) + ":"@ =~= ",\n  \"binary_mtime_ns\":"@) by {
        reveal_strlit(",\n  \"binary_mtime_ns\":");
    }
    assert((","@ + "\n  "@ + quoted("symbols"@) + ":"@) + (" "@ + "["@ + "\n"@)
        =~= ",\n  \"symbols\": [\n"@) by {
        reveal_strlit("[");
        reveal_strlit(",\n  \"symbols\": [\n");
    }
    assert("\n  "@ + "]"@ + "\n"@ + "}"@ + "\n"@ =~= "\n"@ + "  ]\n}\n"@) by {
        reveal_strlit("]");
        reveal_strlit("}");
        reveal_strlit("  ]\n}\n");
    }
    assert("version"@[0] == 'v' && "binary_size"@[0] == 'b' && "symbols"@[0] == 's');
    assert("binary_size"@.len() == 11 && "binary_mtime_ns"@.len() == 15);
}

/// A cache as it is written is a document.
proof fn lemma_cache_written(size: u64, mtime_ns: u64, symbols: Seq<(u64, String)>)
    ensures
        is_written(
            encode_utf8(symbol_cache_text(size, mtime_ns, symbols)),
            cache_written(size, mtime_ns, symbols),
            "\n"@,
        ),
{
    let w = cache_written(size, mtime_ns, symbols);
    let entries = w.value->Table_0;
    let items = line_items(symbol_values(symbols));
    let lines = Seq::new(symbols.len(), |i: int| symbol_row(symbols[i].0, symbols[i].1@));
    lemma_cache_keys();
    assert forall|i: int| 0 <= i < items.len() implies written_text(#[trigger] items[i]) == "\n"@
        + lines[i] && is_proper(items[i], 98) by {
        lemma_symbol_written(symbols[i].0, symbols[i].1@);
    }
    lemma_lines_are_items(lines, items);
    lemma_plain_value(entries[0].value);
    lemma_plain_value(entries[1].value);
    lemma_plain_value(entries[2].value);
    lemma_next_spaced(entries, 0);
    lemma_next_spaced(entries, 1);
    lemma_next_spaced(entries, 2);
    lemma_next_spaced(entries, 3);
    let list = entries[3].value;
    let inner = items_text(items, items.len());
    assert(written_text(list) == " "@ + ("["@ + inner + "\n  "@ + "]"@));
    assert(written_text(w) == Seq::<char>::empty() + ("{"@ + entries_text(entries, 4) + "\n"@
        + "}"@));
    lemma_cache_text(
        entries_text(entries, 4),
        decimal(SYMBOL_CACHE_VERSION as nat),
        decimal(size as nat),
        decimal(mtime_ns as nat),
        inner,
        rows(lines),
    );
    assert(symbol_cache_text(size, mtime_ns, symbols) == "{\n  \"version\":"@ + decimal(
        SYMBOL_CACHE_VERSION as nat,
    ) + ",\n  \"binary_size\":"@ + decimal(size as nat) + ",\n  \"binary_mtime_ns\":"@ + decimal(
        mtime_ns as nat,
    ) + ",\n  \"symbols\": [\n"@ + rows(lines) + "  ]\n}\n"@);
    assert(is_proper(list, 99));
    assert forall|i: int| 0 <= i < entries.len() implies is_blank((#[trigger] entries[i]).space)
        && is_proper(entries[i].value, 99) by {
        assert(i == 0 || i == 1 || i == 2 || i == 3);
    }
    assert(is_proper(w, 100));
}

/// The pieces of a cache, put together in two ways.
proof fn lemma_cache_text(
    inside: Seq<char>,
    version: Seq<char>,
    size: Seq<char>,
    mtime: Seq<char>,
    inner: Seq<char>,
    lines: Seq<char>,
)
    requires
        "\n"@ + lines == inner + "\n"@,
        inside == Seq::<char>::empty() + (""@ + "\n  "@ + quoted("version"@) + ":"@) + (
        Seq::<char>::empty() + version) + (","@ + "\n  "@ + quoted("binary_size"@) + ":"@) + (
        Seq::<char>::empty() + size) + (","@ + "\n  "@ + quoted("binary_mtime_ns"@) + ":"@) + (
        Seq::<char>::empty() + mtime) + (","@ + "\n  "@ + quoted("symbols"@) + ":"@) + (" "@ + ("["@
            + inner + "\n  "@ + "]"@)),
    ensures
        Seq::<char>::empty() + ("{"@ + inside + "\n"@ + "}"@) + "\n"@ == "{\n  \"version\":"@ + version
            + ",\n  \"binary_size\":"@ + size + ",\n  \"binary_mtime_ns\":"@ + mtime
            + ",\n  \"symbols\": [\n"@ + lines + "  ]\n}\n"@,
{
    lemma_cache_keys();
    let none = Seq::<char>::empty();
    let (k0, k1) = (""@ + "\n  "@ + quoted("version"@) + ":"@, ","@ + "\n  "@ + quoted(
        "binary_size"@,
    ) + ":"@);
    let (k2, k3) = (","@ + "\n  "@ + quoted("binary_mtime_ns"@) + ":"@, ","@ + "\n  "@ + quoted(
        "symbols"@,
    ) + ":"@);
    let tail = " "@ + ("["@ + inner + "\n  "@ + "]"@);
    lemma_behind("{"@, k0, version, k1, size, k2, mtime, k3, tail);
    assert(none + k0 =~= k0);
    assert(none + version =~= version);
    assert(none + size =~= size);
    assert(none + mtime =~= mtime);
    let head = ("{"@ + k0) + version + k1 + size + k2 + mtime;
    let end = "\n"@ + "}"@ + "\n"@;
    assert(none + ("{"@ + inside + "\n"@ + "}"@) + "\n"@ =~= ("{"@ + inside) + end);
    lemma_concat_associative(head + k3, tail, end);
    lemma_list_end(inner, lines, end);
    lemma_concat_associative(head, k3, (" "@ + "["@ + "\n"@) + lines + "  ]\n}\n"@);
    assert(k3 + ((" "@ + "["@ + "\n"@) + lines + "  ]\n}\n"@) =~= (k3 + (" "@ + "["@ + "\n"@))
        + lines + "  ]\n}\n"@);
    let k4 = ",\n  \"symbols\": [\n"@;
    assert(head + (k4 + lines + "  ]\n}\n"@) =~= head + k4 + lines + "  ]\n}\n"@);
}

/// The end of a list of lines, put together in two ways.
proof fn lemma_list_end(inner: Seq<char>, lines: Seq<char>, end: Seq<char>)
    requires
        "\n"@ + lines == inner + "\n"@,
        end == "\n"@ + "}"@ + "\n"@,
    ensures
        (" "@ + ("["@ + inner + "\n  "@ + "]"@)) + end == (" "@ + "["@ + "\n"@) + lines + "  ]\n}\n"@,
{
    lemma_cache_keys();
    let open = " "@ + "["@;
    assert((" "@ + ("["@ + inner + "\n  "@ + "]"@)) + end =~= open + inner + ("\n  "@ + "]"@ + "\n"@
        + "}"@ + "\n"@));
    assert(open + inner + ("\n"@ + "  ]\n}\n"@) =~= open + (inner + "\n"@) + "  ]\n}\n"@);
    assert(open + ("\n"@ + lines) + "  ]\n}\n"@ =~= (open + "\n"@) + lines + "  ]\n}\n"@);
}

/// One text before many.
proof fn lemma_behind(
    open: Seq<char>,
    a: Seq<char>,
    b: Seq<char>,
    c: Seq<char>,
    d: Seq<char>,
    e: Seq<char>,
    f: Seq<char>,
    g: Seq<char>,
    h: Seq<char>,
)
    ensures
        open + (a + b + c + d + e + f + g + h) == (open + a) + b + c + d + e + f + g + h,
{
    lemma_concat_associative(open, a, b);
    lemma_concat_associative(open, a + b, c);
    lemma_concat_associative(open, a + b + c, d);
    lemma_concat_associative(open, a + b + c + d, e);
    lemma_concat_associative(open, a + b + c + d + e, f);
    lemma_concat_associative(open, a + b + c + d + e + f, g);
    lemma_concat_associative(open, a + b + c + d + e + f + g, h);
}

/// The names in a cache that was written are those that were written.
proof fn lemma_cache_model(size: u64, mtime_ns: u64, symbols: Seq<(u64, String)>)
    requires
        ascending::<u64, String>(symbols),
    ensures
        cached_names(written_model(cache_written(size, mtime_ns, symbols)), size, mtime_ns)
            == symbol_names(entries_map(symbols)),
{
    let w = cache_written(size, mtime_ns, symbols);
    let entries = w.value->Table_0;
    let items = line_items(symbol_values(symbols));
    let list = items_model(items, items.len());
    lemma_cache_keys();
    lemma_items_model(items, items.len());
    lemma_plain_value(entries[0].value);
    lemma_plain_value(entries[1].value);
    lemma_plain_value(entries[2].value);
    lemma_next_spaced(entries, 0);
    lemma_next_spaced(entries, 1);
    lemma_next_spaced(entries, 2);
    lemma_next_spaced(entries, 3);
    assert(written_model(w).table() == entries_model(entries, 4));
    assert(written_model(entries[3].value) == TreeModel::List(list));
    assert(cache_is_current(written_model(w), size, mtime_ns));
    assert(written_model(w).items_at("symbols"@) == list);
    lemma_listed_symbols(symbols, list, symbols.len() as int);
    assert(list.take(symbols.len() as int) =~= list);
    assert(symbols.take(symbols.len() as int) =~= symbols);
}

proof fn lemma_listed_symbols(symbols: Seq<(u64, String)>, list: Seq<TreeModel>, n: int)
    requires
        ascending::<u64, String>(symbols),
        list.len() == symbols.len(),
        forall|i: int|
            0 <= i < list.len() ==> #[trigger] list[i] == written_model(
                line_items(symbol_values(symbols))[i],
            ),
        0 <= n <= symbols.len(),
    ensures
        listed_symbols(list.take(n)) == symbol_names(entries_map(symbols.take(n))),
    decreases n,
{
    if n == 0 {
        assert(symbol_names(entries_map(symbols.take(0))) =~= Map::empty());
    } else {
        lemma_listed_symbols(symbols, list, n - 1);
        let (pc, name) = symbols[n - 1];
        lemma_symbol_written(pc, name@);
        assert(list[n - 1] == written_model(line_items(symbol_values(symbols))[n - 1]));
        assert(list.take(n).drop_last() =~= list.take(n - 1));
        lemma_entries_step::<u64, String>(symbols, n);
        assert(symbol_names(entries_map(symbols.take(n))) =~= symbol_names(
            entries_map(symbols.take(n - 1)),
        ).insert(pc, name@));
    }
}

} // verus!
