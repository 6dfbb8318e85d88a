//! What is remembered of the coverage of functions from one run to the next.

use crate::coverage::{CoverageState, FunctionCoverage};
use crate::json::{
    append_number, append_quoted, lemma_plain_escaped, push_row, quoted, rows, rows_up_to,
};
use crate::linkage::state_of;
use crate::llvm_cov::number_or;
use crate::ordered::{
    ascending, entries_map, has_key, lemma_entries_step, lemma_has_key_take, SortedMap,
};
use crate::text::{append, decimal};
use crate::tree::{item_models, json_document, parse_json, Tree, TreeModel};
use crate::written::{
    entries_model, entries_text, entry, is_blank, is_proper, is_written, items_model, items_text,
    lemma_items_model, lemma_line_of_table, lemma_lines_are_items, lemma_next_entry,
    lemma_plain_value, line_items, written_model, written_text, Written, WrittenEntry, WrittenValue,
};
use vstd::prelude::*;
use vstd::seq_lib::lemma_concat_associative;
use vstd::utf8::encode_utf8;

verus! {

/// The states of functions, by name.
pub type CoverageStates = SortedMap<String, CoverageState>;

/// The states in a list. Of several entries for a name the last counts.
pub open spec fn listed_states(list: Seq<TreeModel>) -> Map<Seq<char>, CoverageState>
    decreases list.len(),
{
    if list.len() == 0 {
        Map::empty()
    } else {
        let before = listed_states(list.drop_last());
        match list.last().text_at("name"@) {
            Some(name) => before.insert(
                name,
                CoverageState {
                    line_covered: number_or(list.last().number_at("line_covered"@), 0),
                    no_gain_cycles: number_or(list.last().number_at("no_gain_cycles"@), 0),
                },
            ),
            None => before,
        }
    }
}

fn number_at_or_zero(t: &Tree, key: &str) -> (r: u64)
    ensures
        r == number_or(t@.number_at(key@), 0),
{
    match t.number_at(key) {
        Some(n) => n,
        None => 0,
    }
}

/// The states in a document.
pub fn states_of_document(doc: &Tree) -> (r: CoverageStates)
    ensures
        r@ == listed_states(doc@.items_at("functions"@)),
{
    let mut states: CoverageStates = SortedMap::new();
    let ghost all = doc@.items_at("functions"@);
    if let Some(list) = doc.items_at("functions") {
        let n = list.len();
        let mut i: usize = 0;
        assert(all.take(0).len() == 0);
        while i < n
            invariant
                all == item_models(list@),
                n == list@.len(),
                i <= n,
                states@ == listed_states(all.take(i as int)),
            decreases n - i,
        {
            let entry = &list[i];
            assert(all[i as int] == entry@);
            assert(all.take(i + 1).drop_last() =~= all.take(i as int));
            if let Some(name) = entry.text_at("name") {
                let state = CoverageState {
                    line_covered: number_at_or_zero(entry, "line_covered"),
                    no_gain_cycles: number_at_or_zero(entry, "no_gain_cycles"),
                };
                states.insert(name.to_owned(), state);
            }
            i = i + 1;
        }
        assert(all.take(n as int) =~= all);
    } else {
        assert(all =~= Seq::empty());
    }
    states
}

/// Reads the states that were written; gives none where the bytes are no JSON document.
pub fn load_coverage_state(bytes: &[u8]) -> (r: Option<CoverageStates>)
    ensures
        r is None <==> json_document(bytes@) is None,
        r matches Some(states) ==> states@ == listed_states(
            json_document(bytes@)->0.items_at("functions"@),
        ),
        forall|states: CoverageStates|
            states.ok() && bytes@ == encode_utf8(#[trigger] states_text(states.seq())) ==> r is Some
                && r->0@ == states@,
{
    proof {
        assert forall|states: CoverageStates|
            states.ok() && bytes@ == encode_utf8(
                #[trigger] states_text(states.seq()),
            ) implies is_written(bytes@, states_written(states.seq()), "\n"@) && listed_states(
            written_model(states_written(states.seq())).items_at("functions"@),
        ) == states@ by {
            lemma_states_written(states.seq());
            lemma_states_model(states.seq());
        }
    }
    match parse_json(bytes) {
        Some(doc) => Some(states_of_document(&doc)),
        None => None,
    }
}

/// The state of a function after a run.
pub open spec fn next_state(cov: FunctionCoverage, prev: CoverageState) -> CoverageState {
    CoverageState {
        line_covered: cov.line_covered,
        no_gain_cycles: if cov.line_covered > prev.line_covered {
            0
        } else if prev.no_gain_cycles == u64::MAX {
            u64::MAX
        } else {
            (prev.no_gain_cycles + 1) as u64
        },
    }
}

/// The states of the functions after a run.
pub open spec fn next_states(
    coverage: Map<Seq<char>, FunctionCoverage>,
    prev: Map<Seq<char>, CoverageState>,
) -> Map<Seq<char>, CoverageState> {
    Map::new(
        |name: Seq<char>| coverage.contains_key(name),
        |name: Seq<char>| next_state(coverage[name], state_of(prev, name)),
    )
}

pub fn build_coverage_state(
    coverage_by_function: &SortedMap<String, FunctionCoverage>,
    previous_state: &CoverageStates,
) -> (r: CoverageStates)
    ensures
        r@ == next_states(coverage_by_function@, previous_state@),
{
    let ghost coverage = coverage_by_function@;
    let ghost prev = previous_state@;
    let ghost all = coverage_by_function.seq();
    let n = coverage_by_function.len();
    let mut out: CoverageStates = SortedMap::new();
    let mut i: usize = 0;
    while i < n
        invariant
            coverage == coverage_by_function@,
            prev == previous_state@,
            all == coverage_by_function.seq(),
            n == all.len(),
            i <= n,
            forall|name: Seq<char>| #[trigger]
                out@.contains_key(name) <==> has_key(all.take(i as int), name),
            forall|name: Seq<char>| #[trigger]
                out@.contains_key(name) ==> out@[name] == next_state(
                    coverage[name],
                    state_of(prev, name),
                ),
        decreases n - i,
    {
        let name = coverage_by_function.key_at(i);
        let cov = coverage_by_function.value_at(i);
        let before = match previous_state.get(name) {
            Some(state) => *state,
            None => CoverageState { line_covered: 0, no_gain_cycles: 0 },
        };
        let state = CoverageState {
            line_covered: cov.line_covered,
            no_gain_cycles: if cov.line_covered > before.line_covered {
                0
            } else {
                before.no_gain_cycles.saturating_add(1)
            },
        };
        let ghost out0 = out@;
        out.insert(name.clone(), state);
        proof {
            assert forall|k: Seq<char>| #[trigger]
                out@.contains_key(k) <==> has_key(all.take(i + 1), k) by {
                lemma_has_key_take(all, i as int, k);
                assert(out0.contains_key(k) <==> has_key(all.take(i as int), k));
            }
        }
        i = i + 1;
    }
    proof {
        assert(all.take(n as int) =~= all);
        assert(out@ =~= next_states(coverage, prev));
    }
    out
}

/// One line of the states that are written.
pub open spec fn state_row(name: Seq<char>, state: CoverageState) -> Seq<char> {
    "    {\"name\":"@ + quoted(name) + ",\"line_covered\":"@ + decimal(state.line_covered as nat)
        + ",\"no_gain_cycles\":"@ + decimal(state.no_gain_cycles as nat) + "}"@
}

/// The states as they are written.
pub open spec fn states_text(states: Seq<(Seq<char>, CoverageState)>) -> Seq<char> {
    "{\n  \"functions\": [\n"@ + rows(
        Seq::new(states.len(), |i: int| state_row(states[i].0, states[i].1)),
    ) + "  ]\n}\n"@
}

fn state_line(name: &str, state: &CoverageState) -> (r: String)
    ensures
        r@ == state_row(name@, *state),
{
    let mut line = "    {\"name\":".to_owned();
    append_quoted(&mut line, name);
    append(&mut line, ",\"line_covered\":");
    append_number(&mut line, state.line_covered);
    append(&mut line, ",\"no_gain_cycles\":");
    append_number(&mut line, state.no_gain_cycles);
    append(&mut line, "}");
    line
}

/// The states as they are written, in the order of the names.
pub fn write_coverage_state(states: &CoverageStates) -> (r: String)
    ensures
        r@ == states_text(states.seq()),
{
    let ghost all = states.seq();
    let ghost lines = Seq::new(all.len(), |i: int| state_row(all[i].0, all[i].1));
    let mut out = "{\n  \"functions\": [\n".to_owned();
    let ghost before = out@;
    let n = states.len();
    let mut i: usize = 0;
    assert(out@ =~= before + rows_up_to(lines, 0));
    while i < n
        invariant
            all == states.seq(),
            lines == Seq::new(all.len(), |i: int| state_row(all[i].0, all[i].1)),
            n == all.len(),
            i <= n,
            out@ == before + rows_up_to(lines, i as int),
        decreases n - i,
    {
        let line = state_line(states.key_at(i).as_str(), states.value_at(i));
        push_row(&mut out, line.as_str(), i + 1 == n, Ghost(before), Ghost(lines), Ghost(i as int));
        i = i + 1;
    }
    append(&mut out, "  ]\n}\n");
    out
}

/// A state as a table.
spec fn state_value(name: Seq<char>, state: CoverageState) -> WrittenValue {
    WrittenValue::Table(
        seq![
            entry("name"@, WrittenValue::Text(name)),
            entry("line_covered"@, WrittenValue::Number(state.line_covered)),
            entry("no_gain_cycles"@, WrittenValue::Number(state.no_gain_cycles)),
        ],
        Seq::empty(),
    )
}

spec fn state_values(states: Seq<(Seq<char>, CoverageState)>) -> Seq<WrittenValue> {
    Seq::new(states.len(), |i: int| state_value(states[i].0, states[i].1))
}

/// The states as a document.
spec fn states_written(states: Seq<(Seq<char>, CoverageState)>) -> Written {
    Written {
        space: Seq::empty(),
        value: WrittenValue::Table(
            seq![
                WrittenEntry {
                    space: "\n  "@,
                    key: "functions"@,
                    value: Written {
                        space: " "@,
                        value: WrittenValue::List(line_items(state_values(states)), "\n  "@),
                    },
                },
            ],
            "\n"@,
        ),
    }
}

proof fn lemma_state_keys()
    ensures
        ""@ + quoted("name"@) + ":"@ == "\"name\":"@,
        ","@ + quoted("line_covered"@) + ":"@ == ",\"line_covered\":"@,
        ","@ + quoted("no_gain_cycles"@) + ":"@ == ",\"no_gain_cycles\":"@,
        "\n    "@ + "{"@ + "\"name\":"@ == "\n"@ + "    {\"name\":"@,
        "name"@ != "line_covered"@,
        "name"@ != "no_gain_cycles"@,
        "line_covered"@ != "no_gain_cycles"@,
        is_blank("\n    "@),
{
    reveal_strlit("");
    reveal_strlit(",");
    reveal_strlit(":");
    reveal_strlit("\"");
    reveal_strlit("name");
    reveal_strlit("line_covered");
    reveal_strlit("no_gain_cycles");
    lemma_plain_escaped("name"@);
    lemma_plain_escaped("line_covered"@);
    lemma_plain_escaped("no_gain_cycles"@);
    assert(""@ + quoted("name"@) + ":"@ =~= "\"name\":"@) by {
        reveal_strlit("\"name\":");
    }
    assert(","@ + quoted("line_covered"@) + ":"@ =~= ",\"line_covered\":"@) by {
        reveal_strlit(",\"line_covered\":");
    }
    assert(","@ + quoted("no_gain_cycles"@) + ":"@ =~= ",\"no_gain_cycles\":"@) by {
        reveal_strlit(",\"no_gain_cycles\":");
    }
    assert("\n    "@ + "{"@ + "\"name\":"@ =~= "\n"@ + "    {\"name\":"@) by {
        reveal_strlit("{");
        reveal_strlit("\n");
        reveal_strlit("\n    ");
        reveal_strlit("\"name\":");
        reveal_strlit("    {\"name\":");
    }
    assert(is_blank("\n    "@)) by {
        reveal_strlit("\n    ");
    }
    assert("name"@.len() == 4 && "line_covered"@.len() == 12 && "no_gain_cycles"@.len() == 14);
}

/// Three keys and values, put together in two ways.
proof fn lemma_three_pieces(
    k0: Seq<char>,
    v0: Seq<char>,
    k1: Seq<char>,
    v1: Seq<char>,
    k2: Seq<char>,
    v2: Seq<char>,
)
    ensures
        ({
            let none = Seq::<char>::empty();
            none + k0 + (none + v0) + k1 + (none + v1) + k2 + (none + v2) == k0 + (v0 + k1 + v1 + k2
                + v2)
        }),
{
    let none = Seq::<char>::empty();
    assert(none + k0 =~= k0);
    assert(none + v0 =~= v0);
    assert(none + v1 =~= v1);
    assert(none + v2 =~= v2);
    lemma_row_pieces(k0, v0, k1, v1, k2, v2);
}

/// What the row of a state is made of.
proof fn lemma_state_text(name: Seq<char>, state: CoverageState)
    ensures
        ({
            let w = Written { space: "\n    "@, value: state_value(name, state) };
            written_text(w) == "\n"@ + state_row(name, state)
        }),
{
    let w = Written { space: "\n    "@, value: state_value(name, state) };
    let entries = w.value->Table_0;
    let (lines, cycles) = (decimal(state.line_covered as nat), decimal(state.no_gain_cycles as nat));
    let (k0, k1, k2) = ("\"name\":"@, ",\"line_covered\":"@, ",\"no_gain_cycles\":"@);
    lemma_state_keys();
    lemma_plain_value(entries[0].value);
    lemma_plain_value(entries[1].value);
    lemma_plain_value(entries[2].value);
    lemma_next_entry(entries, 0, "name"@, WrittenValue::Text(name));
    lemma_next_entry(entries, 1, "line_covered"@, WrittenValue::Number(state.line_covered));
    lemma_next_entry(entries, 2, "no_gain_cycles"@, WrittenValue::Number(state.no_gain_cycles));
    let rest = quoted(name) + k1 + lines + k2 + cycles;
    lemma_three_pieces(k0, quoted(name), k1, lines, k2, cycles);
    lemma_line_of_table(w, entries_text(entries, 3), rest, k0, "    {\"name\":"@);
    lemma_row_pieces("    {\"name\":"@, quoted(name), k1, lines, k2, cycles);
    assert(state_row(name, state) == "    {\"name\":"@ + quoted(name) + k1 + lines + k2 + cycles
        + "}"@);
}

/// A row, put together in two ways.
proof fn lemma_row_pieces(
    k0: Seq<char>,
    v0: Seq<char>,
    k1: Seq<char>,
    v1: Seq<char>,
    k2: Seq<char>,
    v2: Seq<char>,
)
    ensures
        k0 + v0 + k1 + v1 + k2 + v2 == k0 + (v0 + k1 + v1 + k2 + v2),
{
    lemma_concat_associative(k0, v0, k1);
    lemma_concat_associative(k0, v0 + k1, v1);
    lemma_concat_associative(k0, v0 + k1 + v1, k2);
    lemma_concat_associative(k0, v0 + k1 + v1 + k2, v2);
}

/// What the row of a state says.
proof fn lemma_state_model(name: Seq<char>, state: CoverageState)
    ensures
        ({
            let w = Written { space: "\n    "@, value: state_value(name, state) };
            &&& is_proper(w, 98)
            &&& written_model(w).text_at("name"@) == Some(name)
            &&& written_model(w).number_at("line_covered"@) == Some(state.line_covered)
            &&& written_model(w).number_at("no_gain_cycles"@) == Some(state.no_gain_cycles)
        }),
{
    let w = Written { space: "\n    "@, value: state_value(name, state) };
    let entries = w.value->Table_0;
    lemma_state_keys();
    lemma_plain_value(entries[0].value);
    lemma_plain_value(entries[1].value);
    lemma_plain_value(entries[2].value);
    lemma_next_entry(entries, 0, "name"@, WrittenValue::Text(name));
    lemma_next_entry(entries, 1, "line_covered"@, WrittenValue::Number(state.line_covered));
    lemma_next_entry(entries, 2, "no_gain_cycles"@, WrittenValue::Number(state.no_gain_cycles));
    assert(written_model(w).table() == entries_model(entries, 3));
    assert forall|i: int| 0 <= i < entries.len() implies is_blank((#[trigger] entries[i]).space)
        && is_proper(entries[i].value, 97) by {
        assert(i == 0 || i == 1 || i == 2);
    }
}

/// The states as they are written are a document.
proof fn lemma_states_written(states: Seq<(Seq<char>, CoverageState)>)
    ensures
        is_written(encode_utf8(states_text(states)), states_written(states), "\n"@),
{
    reveal_strlit("");
    reveal_strlit(" ");
    reveal_strlit(":");
    reveal_strlit("[");
    reveal_strlit("]");
    reveal_strlit("{");
    reveal_strlit("}");
    reveal_strlit("\"");
    reveal_strlit("\n");
    reveal_strlit("\n  ");
    reveal_strlit("functions");
    reveal_strlit("  ]\n}\n");
    reveal_strlit("{\n  \"functions\": [\n");
    let w = states_written(states);
    let items = line_items(state_values(states));
    let lines = Seq::new(states.len(), |i: int| state_row(states[i].0, states[i].1));
    assert forall|i: int| 0 <= i < items.len() implies written_text(#[trigger] items[i]) == "\n"@
        + lines[i] && is_proper(items[i], 98) by {
        lemma_state_text(states[i].0, states[i].1);
        lemma_state_model(states[i].0, states[i].1);
    }
    lemma_lines_are_items(lines, items);
    lemma_plain_escaped("functions"@);
    let entries = match w.value {
        WrittenValue::Table(entries, _) => entries,
        _ => Seq::empty(),
    };
    let list = entries[0].value;
    assert(written_text(list) == " "@ + ("["@ + items_text(items, items.len()) + "\n  "@ + "]"@));
    assert(entries_text(entries, 0) =~= Seq::empty());
    assert(entries_text(entries, 1) =~= "\n  "@ + quoted("functions"@) + ":"@ + written_text(list));
    assert(written_text(w) == Seq::<char>::empty() + ("{"@ + entries_text(entries, 1) + "\n"@
        + "}"@));
    let head = "{"@ + "\n  "@ + quoted("functions"@) + ":"@ + " "@ + "["@;
    assert(written_text(w) + "\n"@ =~= head + (items_text(items, items.len()) + "\n"@) + ("  ]\n}\n"@)) by {
        assert("\n  "@ + "]"@ + "\n"@ + "}"@ + "\n"@ =~= "\n"@ + "  ]\n}\n"@);
    }
    assert(head + "\n"@ =~= "{\n  \"functions\": [\n"@);
    assert(states_text(states) =~= head + ("\n"@ + rows(lines)) + "  ]\n}\n"@);
    assert(is_proper(list, 99));
    assert(is_proper(w, 100));
}

/// The states in a document that was written are those that were written.
proof fn lemma_states_model(states: Seq<(Seq<char>, CoverageState)>)
    requires
        ascending::<String, CoverageState>(states),
    ensures
        listed_states(written_model(states_written(states)).items_at("functions"@)) == entries_map(
            states,
        ),
{
    let w = states_written(states);
    let items = line_items(state_values(states));
    let entries = match w.value {
        WrittenValue::Table(entries, _) => entries,
        _ => Seq::empty(),
    };
    let list = items_model(items, items.len());
    lemma_items_model(items, items.len());
    assert(entries_model(entries, 0) == Map::<Seq<char>, TreeModel>::empty());
    assert(entries_model(entries, 1) =~= Map::<Seq<char>, TreeModel>::empty().insert(
        "functions"@,
        written_model(entries[0].value),
    ));
    assert(written_model(entries[0].value) == TreeModel::List(list));
    assert(written_model(w).items_at("functions"@) == list);
    lemma_listed(states, list, states.len() as int);
    assert(list.take(states.len() as int) =~= list);
    assert(states.take(states.len() as int) =~= states);
}

proof fn lemma_listed(states: Seq<(Seq<char>, CoverageState)>, list: Seq<TreeModel>, n: int)
    requires
        ascending::<String, CoverageState>(states),
        list.len() == states.len(),
        forall|i: int|
            0 <= i < list.len() ==> #[trigger] list[i] == written_model(
                line_items(state_values(states))[i],
            ),
        0 <= n <= states.len(),
    ensures
        listed_states(list.take(n)) == entries_map(states.take(n)),
    decreases n,
{
    if n == 0 {
        assert(entries_map(states.take(0)) =~= Map::empty());
    } else {
        lemma_listed(states, list, n - 1);
        let (name, state) = states[n - 1];
        lemma_state_model(name, state);
        assert(list[n - 1] == written_model(line_items(state_values(states))[n - 1]));
        assert(list.take(n).drop_last() =~= list.take(n - 1));
        lemma_entries_step::<String, CoverageState>(states, n);
    }
}

/// A function that gains lines starts to count again, and one that does not is one further.
pub proof fn law_no_gain_is_counted(
    coverage: Map<Seq<char>, FunctionCoverage>,
    prev: Map<Seq<char>, CoverageState>,
    name: Seq<char>,
)
    requires
        coverage.contains_key(name),
        state_of(prev, name).no_gain_cycles < u64::MAX,
    ensures
        ({
            let next = state_of(next_states(coverage, prev), name);
            let before = state_of(prev, name);
            if coverage[name].line_covered > before.line_covered {
                next.no_gain_cycles == 0
            } else {
                next.no_gain_cycles == before.no_gain_cycles + 1
            }
        }),
{
}

} // verus!
