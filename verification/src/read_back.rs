//! What the documents say when they are read.

use crate::coverage::FunctionCoverage;
use crate::documents::{
    call_row, callgraph_text, function_row, id_call_row, id_row, lemma_seed_order, node_row,
    seed_block, seed_hits_text, seed_order,
};
use crate::ids::{numbered, FunctionIds};
use crate::json::quoted;
use crate::layout::{
    field, fields_text, is_decimal_text, is_json, label_of, labels_ok, lemma_json_decimal,
    lemma_json_document, lemma_json_line, lemma_json_list, lemma_json_null, lemma_json_number,
    lemma_json_table, lemma_json_text, lemma_label, line_field, listed, reads_as, record,
};
use crate::linkage::coverage_of;
use crate::ordered::keys;
use crate::partition_files::{
    lemma_shared_order, lemma_task_order, link_row, member_row,
    partition_block, partition_order, partitions_text, seed_row, shared_row, source_text,
    sourced_row,
};
use crate::placement::PartitionPlan;
use crate::text::{decimal, texts};
use crate::trace::{call_views, SeedTraceSummary};
use crate::tree::TreeModel;
use crate::written::is_blank;
use vstd::prelude::*;

verus! {

/// The pieces that documents are laid out with.
proof fn lemma_blanks()
    ensures
        is_blank(Seq::<char>::empty()),
        is_blank(" "@),
        is_blank("  "@),
        is_blank("    "@),
        is_blank("      "@),
        is_blank("\n"@),
        is_blank("\n  "@),
        is_blank("\n    "@),
        is_blank("\n      "@),
        "[\n"@ == Seq::<char>::empty() + "["@ + "\n"@,
        " [\n"@ == " "@ + "["@ + "\n"@,
        "  ]"@ == "  "@ + "]"@,
        "    ]"@ == "    "@ + "]"@,
        "}"@ == Seq::<char>::empty() + "}"@,
        "\n}"@ == "\n"@ + "}"@,
{
    reveal_strlit(" ");
    reveal_strlit("  ");
    reveal_strlit("    ");
    reveal_strlit("      ");
    reveal_strlit("\n");
    reveal_strlit("\n  ");
    reveal_strlit("\n    ");
    reveal_strlit("\n      ");
    reveal_strlit("[");
    reveal_strlit("]");
    reveal_strlit("}");
    reveal_strlit("[\n");
    reveal_strlit(" [\n");
    reveal_strlit("  ]");
    reveal_strlit("    ]");
    reveal_strlit("\n}");
    assert("[\n"@ =~= Seq::<char>::empty() + "["@ + "\n"@);
    assert(" [\n"@ =~= " "@ + "["@ + "\n"@);
    assert("  ]"@ =~= "  "@ + "]"@);
    assert("    ]"@ =~= "    "@ + "]"@);
    assert("}"@ =~= Seq::<char>::empty() + "}"@);
    assert("\n}"@ =~= "\n"@ + "}"@);
}

/// The place of a name in a list.
proof fn lemma_json_index(i: int, depth: nat)
    requires
        0 <= i <= u64::MAX,
    ensures
        is_json(decimal(i as nat), TreeModel::Unsigned(i as u64), depth),
{
    lemma_json_number(i as u64, depth);
}

/// What is said of a function of a call graph. The share of executed regions is a number with
/// decimals.
pub open spec fn node_model(name: Seq<char>, cov: FunctionCoverage) -> TreeModel {
    record(
        seq![
            ("name"@, TreeModel::Text(name)),
            ("count"@, TreeModel::Unsigned(cov.count)),
            ("region_total"@, TreeModel::Unsigned(cov.region_total)),
            ("region_covered"@, TreeModel::Unsigned(cov.region_covered)),
            ("coverage_ratio"@, TreeModel::Other),
            ("file"@, file_model(cov)),
        ],
    )
}

pub open spec fn file_model(cov: FunctionCoverage) -> TreeModel {
    match cov.file {
        Some(file) => TreeModel::Text(file@),
        None => TreeModel::Null,
    }
}

/// What is said of a call.
pub open spec fn call_model(call: ((Seq<char>, Seq<char>), u64)) -> TreeModel {
    record(
        seq![
            ("caller"@, TreeModel::Text(call.0.0)),
            ("callee"@, TreeModel::Text(call.0.1)),
            ("count"@, TreeModel::Unsigned(call.1)),
        ],
    )
}

/// What the document on a call graph says.
pub open spec fn callgraph_model(
    names: Seq<Seq<char>>,
    calls: Seq<((Seq<char>, Seq<char>), u64)>,
    coverage: Map<Seq<char>, FunctionCoverage>,
) -> TreeModel {
    record(
        seq![
            (
                "nodes"@,
                TreeModel::List(
                    Seq::new(
                        names.len(),
                        |i: int| node_model(names[i], coverage_of(coverage, names[i])),
                    ),
                ),
            ),
            ("edges"@, TreeModel::List(Seq::new(calls.len(), |i: int| call_model(calls[i])))),
        ],
    )
}

proof fn lemma_node_labels()
    ensures
        "\n"@ + "    {\"name\":"@ == "\n    "@ + label_of("{"@, Seq::<char>::empty(), "name"@),
        ",\"count\":"@ == label_of(","@, Seq::<char>::empty(), "count"@),
        ",\"region_total\":"@ == label_of(","@, Seq::<char>::empty(), "region_total"@),
        ",\"region_covered\":"@ == label_of(","@, Seq::<char>::empty(), "region_covered"@),
        ",\"coverage_ratio\":"@ == label_of(","@, Seq::<char>::empty(), "coverage_ratio"@),
        ",\"file\":"@ == label_of(","@, Seq::<char>::empty(), "file"@),
        "name"@ != "count"@,
        "name"@ != "region_total"@,
        "name"@ != "region_covered"@,
        "name"@ != "coverage_ratio"@,
        "name"@ != "file"@,
        "count"@ != "region_total"@,
        "count"@ != "region_covered"@,
        "count"@ != "coverage_ratio"@,
        "count"@ != "file"@,
        "region_total"@ != "region_covered"@,
        "region_total"@ != "coverage_ratio"@,
        "region_total"@ != "file"@,
        "region_covered"@ != "coverage_ratio"@,
        "region_covered"@ != "file"@,
        "coverage_ratio"@ != "file"@,
{
    reveal_strlit("name");
    reveal_strlit("count");
    reveal_strlit("region_total");
    reveal_strlit("region_covered");
    reveal_strlit("coverage_ratio");
    reveal_strlit("file");
    assert("\n"@ + "    {\"name\":"@ =~= "\n    "@ + label_of("{"@, Seq::<char>::empty(
        ),
        "name"@,
    )) by {
        lemma_label("{"@, Seq::<char>::empty(), "name"@);
        reveal_strlit("{");
        reveal_strlit("    {\"name\":");
        reveal_strlit("\n");
        reveal_strlit("\n    ");
    }
    assert(",\"count\":"@ =~= label_of(","@, Seq::<char>::empty(), "count"@)) by {
        lemma_label(","@, Seq::<char>::empty(), "count"@);
        reveal_strlit(",");
        reveal_strlit(",\"count\":");
    }
    assert(",\"region_total\":"@ =~= label_of(","@, Seq::<char>::empty(), "region_total"@)) by {
        lemma_label(","@, Seq::<char>::empty(), "region_total"@);
        reveal_strlit(",");
        reveal_strlit(",\"region_total\":");
    }
    assert(",\"region_covered\":"@ =~= label_of(","@, Seq::<char>::empty(), "region_covered"@)) by {
        lemma_label(","@, Seq::<char>::empty(), "region_covered"@);
        reveal_strlit(",");
        reveal_strlit(",\"region_covered\":");
    }
    assert(",\"coverage_ratio\":"@ =~= label_of(","@, Seq::<char>::empty(), "coverage_ratio"@)) by {
        lemma_label(","@, Seq::<char>::empty(), "coverage_ratio"@);
        reveal_strlit(",");
        reveal_strlit(",\"coverage_ratio\":");
    }
    assert(",\"file\":"@ =~= label_of(","@, Seq::<char>::empty(), "file"@)) by {
        lemma_label(","@, Seq::<char>::empty(), "file"@);
        reveal_strlit(",");
        reveal_strlit(",\"file\":");
    }
    assert("name"@[0] != "file"@[0]);
    assert("region_covered"@[0] != "coverage_ratio"@[0]);
}

proof fn lemma_file_json(cov: FunctionCoverage, depth: nat)
    ensures
        is_json(
            match cov.file {
                Some(file) => quoted(file@),
                None => "null"@,
            },
            file_model(cov),
            depth,
        ),
{
    match cov.file {
        Some(file) => lemma_json_text(file@, depth),
        None => lemma_json_null(depth),
    }
}

proof fn lemma_node_json(name: Seq<char>, cov: FunctionCoverage, ratio: Seq<char>)
    requires
        is_decimal_text(ratio),
    ensures
        is_json("\n"@ + node_row(name, cov, ratio), node_model(name, cov), 98),
{
    let file = match cov.file {
        Some(file) => quoted(file@),
        None => "null"@,
    };
    let fields = seq![
        field("    {\"name\":"@, "name"@, quoted(name), TreeModel::Text(name)),
        field(",\"count\":"@, "count"@, decimal(cov.count as nat), TreeModel::Unsigned(cov.count)),
        field(
            ",\"region_total\":"@,
            "region_total"@,
            decimal(cov.region_total as nat),
            TreeModel::Unsigned(cov.region_total),
        ),
        field(
            ",\"region_covered\":"@,
            "region_covered"@,
            decimal(cov.region_covered as nat),
            TreeModel::Unsigned(cov.region_covered),
        ),
        field(",\"coverage_ratio\":"@, "coverage_ratio"@, ratio, TreeModel::Other),
        field(",\"file\":"@, "file"@, file, file_model(cov)),
    ];
    let entries = seq![
        ("name"@, TreeModel::Text(name)),
        ("count"@, TreeModel::Unsigned(cov.count)),
        ("region_total"@, TreeModel::Unsigned(cov.region_total)),
        ("region_covered"@, TreeModel::Unsigned(cov.region_covered)),
        ("coverage_ratio"@, TreeModel::Other),
        ("file"@, file_model(cov)),
    ];
    lemma_node_labels();
    lemma_blanks();
    lemma_json_text(name, 97);
    lemma_json_number(cov.count, 97);
    lemma_json_number(cov.region_total, 97);
    lemma_json_number(cov.region_covered, 97);
    lemma_json_decimal(ratio, 97);
    lemma_file_json(cov, 97);
    lemma_json_table("\n"@, "\n    "@, fields, Seq::<char>::empty(), "}"@, entries, 97);
    assert(node_row(name, cov, ratio) == fields_text(fields, 6) + "}"@) by {
        reveal_with_fuel(fields_text, 7);
        assert(Seq::<char>::empty() + "    {\"name\":"@ =~= "    {\"name\":"@);
    }
}

proof fn lemma_call_labels()
    ensures
        "\n"@ + "    {\"caller\":"@ == "\n    "@ + label_of("{"@, Seq::<char>::empty(), "caller"@),
        ",\"callee\":"@ == label_of(","@, Seq::<char>::empty(), "callee"@),
        ",\"count\":"@ == label_of(","@, Seq::<char>::empty(), "count"@),
        "caller"@ != "callee"@,
        "caller"@ != "count"@,
        "callee"@ != "count"@,
{
    reveal_strlit("caller");
    reveal_strlit("callee");
    reveal_strlit("count");
    assert("\n"@ + "    {\"caller\":"@ =~= "\n    "@ + label_of("{"@, Seq::<char>::empty(
        ),
        "caller"@,
    )) by {
        lemma_label("{"@, Seq::<char>::empty(), "caller"@);
        reveal_strlit("{");
        reveal_strlit("    {\"caller\":");
        reveal_strlit("\n");
        reveal_strlit("\n    ");
    }
    assert(",\"callee\":"@ =~= label_of(","@, Seq::<char>::empty(), "callee"@)) by {
        lemma_label(","@, Seq::<char>::empty(), "callee"@);
        reveal_strlit(",");
        reveal_strlit(",\"callee\":");
    }
    assert(",\"count\":"@ =~= label_of(","@, Seq::<char>::empty(), "count"@)) by {
        lemma_label(","@, Seq::<char>::empty(), "count"@);
        reveal_strlit(",");
        reveal_strlit(",\"count\":");
    }
    assert("caller"@[5] != "callee"@[5]);
}

proof fn lemma_call_json(call: ((Seq<char>, Seq<char>), u64))
    ensures
        is_json("\n"@ + call_row(call), call_model(call), 98),
{
    let fields = seq![
        field("    {\"caller\":"@, "caller"@, quoted(call.0.0), TreeModel::Text(call.0.0)),
        field(",\"callee\":"@, "callee"@, quoted(call.0.1), TreeModel::Text(call.0.1)),
        field(",\"count\":"@, "count"@, decimal(call.1 as nat), TreeModel::Unsigned(call.1)),
    ];
    let entries = seq![
        ("caller"@, TreeModel::Text(call.0.0)),
        ("callee"@, TreeModel::Text(call.0.1)),
        ("count"@, TreeModel::Unsigned(call.1)),
    ];
    lemma_call_labels();
    lemma_blanks();
    lemma_json_text(call.0.0, 97);
    lemma_json_text(call.0.1, 97);
    lemma_json_number(call.1, 97);
    lemma_json_table("\n"@, "\n    "@, fields, Seq::<char>::empty(), "}"@, entries, 97);
    assert(call_row(call) == fields_text(fields, 3) + "}"@) by {
        reveal_with_fuel(fields_text, 4);
        assert(Seq::<char>::empty() + "    {\"caller\":"@ =~= "    {\"caller\":"@);
    }
}

proof fn lemma_callgraph_labels()
    ensures
        "{\n  \"nodes\":"@ == label_of("{"@, "\n  "@, "nodes"@),
        ",\n  \"edges\":"@ == label_of(","@, "\n  "@, "edges"@),
        "nodes"@ != "edges"@,
{
    reveal_strlit("nodes");
    reveal_strlit("edges");
    assert("{\n  \"nodes\":"@ =~= label_of("{"@, "\n  "@, "nodes"@)) by {
        lemma_label("{"@, "\n  "@, "nodes"@);
        reveal_strlit("{");
        reveal_strlit("{\n  \"nodes\":");
        reveal_strlit("\n  ");
    }
    assert(",\n  \"edges\":"@ =~= label_of(","@, "\n  "@, "edges"@)) by {
        lemma_label(","@, "\n  "@, "edges"@);
        reveal_strlit(",");
        reveal_strlit(",\n  \"edges\":");
        reveal_strlit("\n  ");
    }
    assert("nodes"@[0] != "edges"@[0]);
}

/// A call graph as it is written is JSON, and is read as what was written.
pub proof fn law_callgraph_reads_back(
    names: Seq<Seq<char>>,
    calls: Seq<((Seq<char>, Seq<char>), u64)>,
    coverage: Map<Seq<char>, FunctionCoverage>,
    ratios: Map<Seq<char>, String>,
)
    requires
        forall|i: int| 0 <= i < names.len() ==> is_decimal_text(ratios[#[trigger] names[i]]@),
    ensures
        reads_as(
            callgraph_text(names, calls, coverage, ratios),
            callgraph_model(names, calls, coverage),
        ),
{
    let text = callgraph_text(names, calls, coverage, ratios);
    let nodes = Seq::new(
        names.len(),
        |i: int| node_row(names[i], coverage_of(coverage, names[i]), ratios[names[i]]@),
    );
    let node_models = Seq::new(
        names.len(),
        |i: int| node_model(names[i], coverage_of(coverage, names[i])),
    );
    let edges = Seq::new(calls.len(), |i: int| call_row(calls[i]));
    let edge_models = Seq::new(calls.len(), |i: int| call_model(calls[i]));
    lemma_blanks();
    lemma_callgraph_labels();
    assert forall|i: int| 0 <= i < nodes.len() implies is_json(
        "\n"@ + #[trigger] nodes[i],
        node_models[i],
        98,
    ) by {
        assert(is_decimal_text(ratios[names[i]]@));
        lemma_node_json(names[i], coverage_of(coverage, names[i]), ratios[names[i]]@);
    }
    assert forall|i: int| 0 <= i < edges.len() implies is_json(
        "\n"@ + #[trigger] edges[i],
        edge_models[i],
        98,
    ) by {
        lemma_call_json(calls[i]);
    }
    lemma_json_list(" "@, " [\n"@, nodes, "  "@, "  ]"@, node_models, 98);
    lemma_json_list(" "@, " [\n"@, edges, "  "@, "  ]"@, edge_models, 98);
    let fields = seq![
        line_field(
            "{\n  \"nodes\":"@,
            "nodes"@,
            listed(" [\n"@, nodes, "  ]"@),
            TreeModel::List(node_models),
        ),
        line_field(
            ",\n  \"edges\":"@,
            "edges"@,
            listed(" [\n"@, edges, "  ]"@),
            TreeModel::List(edge_models),
        ),
    ];
    let entries = seq![
        ("nodes"@, TreeModel::List(node_models)),
        ("edges"@, TreeModel::List(edge_models)),
    ];
    assert(labels_ok(Seq::empty(), Seq::empty(), fields)) by {
        let (first, label) = (fields[0].label, label_of("{"@, "\n  "@, fields[0].key));
        assert(Seq::<char>::empty() + first =~= first);
        assert(Seq::<char>::empty() + label =~= label);
    }
    lemma_json_table(Seq::empty(), Seq::empty(), fields, "\n"@, "\n}"@, entries, 99);
    let body = fields_text(fields, 2) + "\n}"@;
    assert(Seq::<char>::empty() + body =~= body);
    lemma_json_document(body, record(entries));
    assert(text == body + "\n"@) by {
        reveal_with_fuel(fields_text, 3);
        assert(Seq::<char>::empty() + "{\n  \"nodes\":"@ =~= "{\n  \"nodes\":"@);
    }
}

/// What is said of a function and its number.
pub open spec fn function_model(id: u64, name: Seq<char>) -> TreeModel {
    record(seq![("id"@, TreeModel::Unsigned(id)), ("name"@, TreeModel::Text(name))])
}

/// What is said of a call by the numbers of the functions.
pub open spec fn id_call_model(
    order: Seq<Seq<char>>,
    call: ((Seq<char>, Seq<char>), u64),
) -> TreeModel {
    record(
        seq![
            ("caller_id"@, TreeModel::Unsigned(order.index_of(call.0.0) as u64)),
            ("callee_id"@, TreeModel::Unsigned(order.index_of(call.0.1) as u64)),
            ("count"@, TreeModel::Unsigned(call.1)),
        ],
    )
}

/// The numbers of some functions.
pub open spec fn id_models(order: Seq<Seq<char>>, names: Seq<Seq<char>>) -> Seq<TreeModel> {
    Seq::new(names.len(), |i: int| TreeModel::Unsigned(order.index_of(names[i]) as u64))
}

/// What is said of a seed.
pub open spec fn seed_model(order: Seq<Seq<char>>, seed: SeedTraceSummary) -> TreeModel {
    let calls = call_views(seed.edge_hits@);
    record(
        seq![
            ("seed"@, TreeModel::Text(seed.seed_path@)),
            ("artifact"@, TreeModel::Text(seed.artifact_stem@)),
            (
                "function_ids"@,
                TreeModel::List(id_models(order, keys(seed.function_hits.seq()))),
            ),
            (
                "edges"@,
                TreeModel::List(Seq::new(calls.len(), |i: int| id_call_model(order, calls[i]))),
            ),
        ],
    )
}

/// What the document on the seeds says.
pub open spec fn seed_hits_model(
    ids: Seq<(Seq<char>, u64)>,
    seeds: Seq<SeedTraceSummary>,
) -> TreeModel {
    record(
        seq![
            (
                "functions"@,
                TreeModel::List(
                    Seq::new(ids.len(), |i: int| function_model(ids[i].1, ids[i].0)),
                ),
            ),
            (
                "seeds"@,
                TreeModel::List(
                    Seq::new(seeds.len(), |i: int| seed_model(seed_order(seeds), seeds[i])),
                ),
            ),
        ],
    )
}

/// Whether the place of each of the names in a list is a number of 64 bits.
spec fn places_fit(order: Seq<Seq<char>>, names: Seq<Seq<char>>) -> bool {
    forall|i: int| 0 <= i < names.len() ==> place_fits(order, #[trigger] names[i])
}

spec fn place_fits(order: Seq<Seq<char>>, name: Seq<char>) -> bool {
    0 <= order.index_of(name) <= u64::MAX
}

proof fn lemma_place_fits(ids: FunctionIds, order: Seq<Seq<char>>, name: Seq<char>)
    requires
        numbered(ids, order),
        order.contains(name),
    ensures
        place_fits(order, name),
{
    assert(ids@.contains_key(name));
    assert(ids@[name] == order.index_of(name));
}

proof fn lemma_function_labels()
    ensures
        "\n"@ + "    {\"id\":"@ == "\n    "@ + label_of("{"@, Seq::<char>::empty(), "id"@),
        ",\"name\":"@ == label_of(","@, Seq::<char>::empty(), "name"@),
        "id"@ != "name"@,
{
    reveal_strlit("id");
    reveal_strlit("name");
    assert("\n"@ + "    {\"id\":"@ =~= "\n    "@ + label_of("{"@, Seq::<char>::empty(), "id"@)) by {
        lemma_label("{"@, Seq::<char>::empty(), "id"@);
        reveal_strlit("{");
        reveal_strlit("    {\"id\":");
        reveal_strlit("\n");
        reveal_strlit("\n    ");
    }
    assert(",\"name\":"@ =~= label_of(","@, Seq::<char>::empty(), "name"@)) by {
        lemma_label(","@, Seq::<char>::empty(), "name"@);
        reveal_strlit(",");
        reveal_strlit(",\"name\":");
    }
}

proof fn lemma_function_json(id: u64, name: Seq<char>)
    ensures
        is_json("\n"@ + function_row(id, name), function_model(id, name), 98),
{
    let fields = seq![
        field("    {\"id\":"@, "id"@, decimal(id as nat), TreeModel::Unsigned(id)),
        field(",\"name\":"@, "name"@, quoted(name), TreeModel::Text(name)),
    ];
    let entries = seq![
        ("id"@, TreeModel::Unsigned(id)),
        ("name"@, TreeModel::Text(name)),
    ];
    lemma_function_labels();
    lemma_blanks();
    lemma_json_number(id, 97);
    lemma_json_text(name, 97);
    lemma_json_table("\n"@, "\n    "@, fields, Seq::<char>::empty(), "}"@, entries, 97);
    assert(function_row(id, name) == fields_text(fields, 2) + "}"@) by {
        reveal_with_fuel(fields_text, 3);
        assert(Seq::<char>::empty() + "    {\"id\":"@ =~= "    {\"id\":"@);
    }
}

proof fn lemma_id_call_labels()
    ensures
        "\n"@ + "      {\"caller_id\":"@ == "\n      "@ + label_of("{"@, Seq::<char>::empty(
            ),
            "caller_id"@,
        ),
        ",\"callee_id\":"@ == label_of(","@, Seq::<char>::empty(), "callee_id"@),
        ",\"count\":"@ == label_of(","@, Seq::<char>::empty(), "count"@),
        "caller_id"@ != "callee_id"@,
        "caller_id"@ != "count"@,
        "callee_id"@ != "count"@,
{
    reveal_strlit("caller_id");
    reveal_strlit("callee_id");
    reveal_strlit("count");
    assert("\n"@ + "      {\"caller_id\":"@ =~= "\n      "@ + label_of("{"@, Seq::<char>::empty(
        ),
        "caller_id"@,
    )) by {
        lemma_label("{"@, Seq::<char>::empty(), "caller_id"@);
        reveal_strlit("{");
        reveal_strlit("      {\"caller_id\":");
        reveal_strlit("\n");
        reveal_strlit("\n      ");
    }
    assert(",\"callee_id\":"@ =~= label_of(","@, Seq::<char>::empty(), "callee_id"@)) by {
        lemma_label(","@, Seq::<char>::empty(), "callee_id"@);
        reveal_strlit(",");
        reveal_strlit(",\"callee_id\":");
    }
    assert(",\"count\":"@ =~= label_of(","@, Seq::<char>::empty(), "count"@)) by {
        lemma_label(","@, Seq::<char>::empty(), "count"@);
        reveal_strlit(",");
        reveal_strlit(",\"count\":");
    }
    assert("caller_id"@[5] != "callee_id"@[5]);
}

proof fn lemma_id_call_json(order: Seq<Seq<char>>, call: ((Seq<char>, Seq<char>), u64))
    requires
        place_fits(order, call.0.0),
        place_fits(order, call.0.1),
    ensures
        is_json("\n"@ + id_call_row(order, call), id_call_model(order, call), 96),
{
    let fields = seq![
        field(
            "      {\"caller_id\":"@,
            "caller_id"@,
            decimal(order.index_of(call.0.0) as nat),
            TreeModel::Unsigned(order.index_of(call.0.0) as u64),
        ),
        field(
            ",\"callee_id\":"@,
            "callee_id"@,
            decimal(order.index_of(call.0.1) as nat),
            TreeModel::Unsigned(order.index_of(call.0.1) as u64),
        ),
        field(",\"count\":"@, "count"@, decimal(call.1 as nat), TreeModel::Unsigned(call.1)),
    ];
    let entries = seq![
        ("caller_id"@, TreeModel::Unsigned(order.index_of(call.0.0) as u64)),
        ("callee_id"@, TreeModel::Unsigned(order.index_of(call.0.1) as u64)),
        ("count"@, TreeModel::Unsigned(call.1)),
    ];
    lemma_id_call_labels();
    lemma_blanks();
    lemma_json_index(order.index_of(call.0.0), 95);
    lemma_json_index(order.index_of(call.0.1), 95);
    lemma_json_number(call.1, 95);
    lemma_json_table("\n"@, "\n      "@, fields, Seq::<char>::empty(), "}"@, entries, 95);
    assert(id_call_row(order, call) == fields_text(fields, 3) + "}"@) by {
        reveal_with_fuel(fields_text, 4);
        assert(Seq::<char>::empty() + "      {\"caller_id\":"@ =~= "      {\"caller_id\":"@);
    }
}

/// The numbers of some functions, each on a line of its own.
proof fn lemma_ids_json(order: Seq<Seq<char>>, names: Seq<Seq<char>>)
    requires
        places_fit(order, names),
    ensures
        is_json(
            listed(
                "[\n"@,
                Seq::new(names.len(), |i: int| id_row(order.index_of(names[i]))),
                "    ]"@,
            ),
            TreeModel::List(id_models(order, names)),
            97,
        ),
{
    let lines = Seq::new(names.len(), |i: int| id_row(order.index_of(names[i])));
    let models = id_models(order, names);
    lemma_blanks();
    assert forall|i: int| 0 <= i < lines.len() implies is_json(
        "\n"@ + #[trigger] lines[i],
        models[i],
        96,
    ) by {
        assert(place_fits(order, names[i]));
        let id = order.index_of(names[i]);
        lemma_json_index(id, 96);
        lemma_json_line("      "@, decimal(id as nat), TreeModel::Unsigned(id as u64), 96);
    }
    lemma_json_list(Seq::empty(), "[\n"@, lines, "    "@, "    ]"@, models, 96);
}

proof fn lemma_seed_labels()
    ensures
        "\n"@ + "    {\"seed\":"@ == "\n    "@ + label_of("{"@, Seq::<char>::empty(), "seed"@),
        ",\"artifact\":"@ == label_of(","@, Seq::<char>::empty(), "artifact"@),
        ",\"function_ids\":"@ == label_of(","@, Seq::<char>::empty(), "function_ids"@),
        ",\"edges\":"@ == label_of(","@, Seq::<char>::empty(), "edges"@),
        "seed"@ != "artifact"@,
        "seed"@ != "function_ids"@,
        "seed"@ != "edges"@,
        "artifact"@ != "function_ids"@,
        "artifact"@ != "edges"@,
        "function_ids"@ != "edges"@,
{
    reveal_strlit("seed");
    reveal_strlit("artifact");
    reveal_strlit("function_ids");
    reveal_strlit("edges");
    assert("\n"@ + "    {\"seed\":"@ =~= "\n    "@ + label_of("{"@, Seq::<char>::empty(
        ),
        "seed"@,
    )) by {
        lemma_label("{"@, Seq::<char>::empty(), "seed"@);
        reveal_strlit("{");
        reveal_strlit("    {\"seed\":");
        reveal_strlit("\n");
        reveal_strlit("\n    ");
    }
    assert(",\"artifact\":"@ =~= label_of(","@, Seq::<char>::empty(), "artifact"@)) by {
        lemma_label(","@, Seq::<char>::empty(), "artifact"@);
        reveal_strlit(",");
        reveal_strlit(",\"artifact\":");
    }
    assert(",\"function_ids\":"@ =~= label_of(","@, Seq::<char>::empty(), "function_ids"@)) by {
        lemma_label(","@, Seq::<char>::empty(), "function_ids"@);
        reveal_strlit(",");
        reveal_strlit(",\"function_ids\":");
    }
    assert(",\"edges\":"@ =~= label_of(","@, Seq::<char>::empty(), "edges"@)) by {
        lemma_label(","@, Seq::<char>::empty(), "edges"@);
        reveal_strlit(",");
        reveal_strlit(",\"edges\":");
    }
}

proof fn lemma_seed_json(order: Seq<Seq<char>>, seed: SeedTraceSummary)
    requires
        places_fit(order, keys(seed.function_hits.seq())),
        forall|i: int|
            0 <= i < call_views(seed.edge_hits@).len() ==> place_fits(
                order,
                (#[trigger] call_views(seed.edge_hits@)[i]).0.0,
            ) && place_fits(order, call_views(seed.edge_hits@)[i].0.1),
    ensures
        is_json("\n"@ + seed_block(order, seed), seed_model(order, seed), 98),
{
    let names = keys(seed.function_hits.seq());
    let calls = call_views(seed.edge_hits@);
    let lines = Seq::new(names.len(), |i: int| id_row(order.index_of(names[i])));
    let edges = Seq::new(calls.len(), |i: int| id_call_row(order, calls[i]));
    let edge_models = Seq::new(calls.len(), |i: int| id_call_model(order, calls[i]));
    assert forall|i: int| 0 <= i < edges.len() implies is_json(
        "\n"@ + #[trigger] edges[i],
        edge_models[i],
        96,
    ) by {
        lemma_id_call_json(order, calls[i]);
    }
    let fields = seq![
        field(
            "    {\"seed\":"@,
            "seed"@,
            quoted(seed.seed_path@),
            TreeModel::Text(seed.seed_path@),
        ),
        field(
            ",\"artifact\":"@,
            "artifact"@,
            quoted(seed.artifact_stem@),
            TreeModel::Text(seed.artifact_stem@),
        ),
        field(
            ",\"function_ids\":"@,
            "function_ids"@,
            listed("[\n"@, lines, "    ]"@),
            TreeModel::List(id_models(order, names)),
        ),
        field(
            ",\"edges\":"@,
            "edges"@,
            listed("[\n"@, edges, "    ]"@),
            TreeModel::List(edge_models),
        ),
    ];
    let entries = seq![
        ("seed"@, TreeModel::Text(seed.seed_path@)),
        ("artifact"@, TreeModel::Text(seed.artifact_stem@)),
        ("function_ids"@, TreeModel::List(id_models(order, names))),
        ("edges"@, TreeModel::List(edge_models)),
    ];
    lemma_seed_labels();
    lemma_blanks();
    lemma_json_text(seed.seed_path@, 97);
    lemma_json_text(seed.artifact_stem@, 97);
    lemma_ids_json(order, names);
    lemma_json_list(Seq::empty(), "[\n"@, edges, "    "@, "    ]"@, edge_models, 96);
    lemma_json_table("\n"@, "\n    "@, fields, Seq::<char>::empty(), "}"@, entries, 97);
    assert(seed_block(order, seed) == fields_text(fields, 4) + "}"@) by {
        reveal_with_fuel(fields_text, 5);
        assert(Seq::<char>::empty() + "    {\"seed\":"@ =~= "    {\"seed\":"@);
    }
}

proof fn lemma_seed_hits_labels()
    ensures
        "{\n  \"functions\":"@ == label_of("{"@, "\n  "@, "functions"@),
        ",\n  \"seeds\":"@ == label_of(","@, "\n  "@, "seeds"@),
        "functions"@ != "seeds"@,
{
    reveal_strlit("functions");
    reveal_strlit("seeds");
    assert("{\n  \"functions\":"@ =~= label_of("{"@, "\n  "@, "functions"@)) by {
        lemma_label("{"@, "\n  "@, "functions"@);
        reveal_strlit("{");
        reveal_strlit("{\n  \"functions\":");
        reveal_strlit("\n  ");
    }
    assert(",\n  \"seeds\":"@ =~= label_of(","@, "\n  "@, "seeds"@)) by {
        lemma_label(","@, "\n  "@, "seeds"@);
        reveal_strlit(",");
        reveal_strlit(",\n  \"seeds\":");
        reveal_strlit("\n  ");
    }
}

/// What the seeds reach, as it is written, is JSON, and is read as what was written.
pub proof fn law_seed_hits_read_back(ids: FunctionIds, seeds: Seq<SeedTraceSummary>)
    requires
        numbered(ids, seed_order(seeds)),
    ensures
        reads_as(seed_hits_text(ids.seq(), seeds), seed_hits_model(ids.seq(), seeds)),
{
    let text = seed_hits_text(ids.seq(), seeds);
    let all = ids.seq();
    let order = seed_order(seeds);
    let functions = Seq::new(all.len(), |i: int| function_row(all[i].1, all[i].0));
    let function_models = Seq::new(all.len(), |i: int| function_model(all[i].1, all[i].0));
    let blocks = Seq::new(seeds.len(), |i: int| seed_block(order, seeds[i]));
    let block_models = Seq::new(seeds.len(), |i: int| seed_model(order, seeds[i]));
    lemma_blanks();
    lemma_seed_hits_labels();
    assert forall|i: int| 0 <= i < functions.len() implies is_json(
        "\n"@ + #[trigger] functions[i],
        function_models[i],
        98,
    ) by {
        lemma_function_json(all[i].1, all[i].0);
    }
    assert forall|i: int| 0 <= i < blocks.len() implies is_json(
        "\n"@ + #[trigger] blocks[i],
        block_models[i],
        98,
    ) by {
        lemma_seed_order(seeds, i);
        let names = keys(seeds[i].function_hits.seq());
        let calls = call_views(seeds[i].edge_hits@);
        assert forall|k: int| 0 <= k < names.len() implies place_fits(
            order,
            #[trigger] names[k],
        ) by {
            lemma_place_fits(ids, order, names[k]);
        }
        assert forall|k: int| 0 <= k < calls.len() implies place_fits(
            order,
            (#[trigger] calls[k]).0.0,
        ) && place_fits(order, calls[k].0.1) by {
            lemma_place_fits(ids, order, calls[k].0.0);
            lemma_place_fits(ids, order, calls[k].0.1);
        }
        lemma_seed_json(order, seeds[i]);
    }
    lemma_json_list(" "@, " [\n"@, functions, "  "@, "  ]"@, function_models, 98);
    lemma_json_list(" "@, " [\n"@, blocks, "  "@, "  ]"@, block_models, 98);
    let fields = seq![
        line_field(
            "{\n  \"functions\":"@,
            "functions"@,
            listed(" [\n"@, functions, "  ]"@),
            TreeModel::List(function_models),
        ),
        line_field(
            ",\n  \"seeds\":"@,
            "seeds"@,
            listed(" [\n"@, blocks, "  ]"@),
            TreeModel::List(block_models),
        ),
    ];
    let entries = seq![
        ("functions"@, TreeModel::List(function_models)),
        ("seeds"@, TreeModel::List(block_models)),
    ];
    assert(labels_ok(Seq::empty(), Seq::empty(), fields)) by {
        let (first, label) = (fields[0].label, label_of("{"@, "\n  "@, fields[0].key));
        assert(Seq::<char>::empty() + first =~= first);
        assert(Seq::<char>::empty() + label =~= label);
    }
    lemma_json_table(Seq::empty(), Seq::empty(), fields, "\n"@, "\n}"@, entries, 99);
    let body = fields_text(fields, 2) + "\n}"@;
    assert(Seq::<char>::empty() + body =~= body);
    lemma_json_document(body, record(entries));
    assert(text == body + "\n"@) by {
        reveal_with_fuel(fields_text, 3);
        assert(Seq::<char>::empty() + "{\n  \"functions\":"@ =~= "{\n  \"functions\":"@);
    }
}

/// What is said of a function, its number and where it stands.
pub open spec fn sourced_model(id: u64, name: Seq<char>, source: Seq<char>) -> TreeModel {
    record(
        seq![
            ("id"@, TreeModel::Unsigned(id)),
            ("name"@, TreeModel::Text(name)),
            ("source"@, TreeModel::Text(source)),
        ],
    )
}

/// What is said of a function of a partition.
pub open spec fn member_model(name: Seq<char>, source: Seq<char>) -> TreeModel {
    record(seq![("name"@, TreeModel::Text(name)), ("source"@, TreeModel::Text(source))])
}

/// What is said of a link of a partition.
pub open spec fn link_model(caller: Seq<char>, callee: Seq<char>) -> TreeModel {
    record(seq![("caller"@, TreeModel::Text(caller)), ("callee"@, TreeModel::Text(callee))])
}

/// What is said of a partition.
pub open spec fn partition_model(
    order: Seq<Seq<char>>,
    plan: PartitionPlan,
    task: Seq<Seq<char>>,
    coverage: Map<Seq<char>, FunctionCoverage>,
    root: Seq<char>,
    p: int,
) -> TreeModel {
    let names = texts(plan.partitions@[p]@);
    let links = plan.partition_edges@[p]@;
    let seeds = texts(plan.seed_assignments@[p]@);
    record(
        seq![
            ("id"@, TreeModel::Unsigned((p + 1) as u64)),
            ("load"@, TreeModel::Unsigned(plan.loads@[p])),
            (
                "partition_functions"@,
                TreeModel::List(
                    Seq::new(
                        names.len(),
                        |i: int| member_model(names[i], source_text(coverage, root, names[i])),
                    ),
                ),
            ),
            ("task_function_ids"@, TreeModel::List(id_models(order, task))),
            (
                "partition_edges"@,
                TreeModel::List(
                    Seq::new(links.len(), |i: int| link_model(links[i].0@, links[i].1@)),
                ),
            ),
            ("seeds"@, TreeModel::List(Seq::new(seeds.len(), |i: int| TreeModel::Text(seeds[i])))),
        ],
    )
}

/// What the document on the partitions says.
pub open spec fn partitions_model(
    ids: Seq<(Seq<char>, u64)>,
    plan: PartitionPlan,
    tasks: Seq<Vec<String>>,
    shared: Seq<Seq<char>>,
    coverage: Map<Seq<char>, FunctionCoverage>,
    root: Seq<char>,
) -> TreeModel {
    let order = partition_order(tasks, shared);
    record(
        seq![
            ("partitioner"@, TreeModel::Text(plan.algorithm@)),
            (
                "functions"@,
                TreeModel::List(
                    Seq::new(
                        ids.len(),
                        |i: int|
                            sourced_model(
                                ids[i].1,
                                ids[i].0,
                                source_text(coverage, root, ids[i].0),
                            ),
                    ),
                ),
            ),
            ("shared_function_ids"@, TreeModel::List(id_models(order, shared))),
            (
                "partitions"@,
                TreeModel::List(
                    Seq::new(
                        plan.partitions@.len(),
                        |p: int|
                            partition_model(order, plan, texts(tasks[p]@), coverage, root, p),
                    ),
                ),
            ),
        ],
    )
}

proof fn lemma_sourced_labels()
    ensures
        "\n"@ + "    {\"id\":"@ == "\n    "@ + label_of("{"@, Seq::<char>::empty(), "id"@),
        ",\"name\":"@ == label_of(","@, Seq::<char>::empty(), "name"@),
        ",\"source\":"@ == label_of(","@, Seq::<char>::empty(), "source"@),
        "id"@ != "name"@,
        "id"@ != "source"@,
        "name"@ != "source"@,
{
    reveal_strlit("id");
    reveal_strlit("name");
    reveal_strlit("source");
    assert("\n"@ + "    {\"id\":"@ =~= "\n    "@ + label_of("{"@, Seq::<char>::empty(), "id"@)) by {
        lemma_label("{"@, Seq::<char>::empty(), "id"@);
        reveal_strlit("{");
        reveal_strlit("    {\"id\":");
        reveal_strlit("\n");
        reveal_strlit("\n    ");
    }
    assert(",\"name\":"@ =~= label_of(","@, Seq::<char>::empty(), "name"@)) by {
        lemma_label(","@, Seq::<char>::empty(), "name"@);
        reveal_strlit(",");
        reveal_strlit(",\"name\":");
    }
    assert(",\"source\":"@ =~= label_of(","@, Seq::<char>::empty(), "source"@)) by {
        lemma_label(","@, Seq::<char>::empty(), "source"@);
        reveal_strlit(",");
        reveal_strlit(",\"source\":");
    }
}

proof fn lemma_sourced_json(id: u64, name: Seq<char>, source: Seq<char>)
    ensures
        is_json("\n"@ + sourced_row(id, name, source), sourced_model(id, name, source), 98),
{
    let fields = seq![
        field("    {\"id\":"@, "id"@, decimal(id as nat), TreeModel::Unsigned(id)),
        field(",\"name\":"@, "name"@, quoted(name), TreeModel::Text(name)),
        field(",\"source\":"@, "source"@, quoted(source), TreeModel::Text(source)),
    ];
    let entries = seq![
        ("id"@, TreeModel::Unsigned(id)),
        ("name"@, TreeModel::Text(name)),
        ("source"@, TreeModel::Text(source)),
    ];
    lemma_sourced_labels();
    lemma_blanks();
    lemma_json_number(id, 97);
    lemma_json_text(name, 97);
    lemma_json_text(source, 97);
    lemma_json_table("\n"@, "\n    "@, fields, Seq::<char>::empty(), "}"@, entries, 97);
    assert(sourced_row(id, name, source) == fields_text(fields, 3) + "}"@) by {
        reveal_with_fuel(fields_text, 4);
        assert(Seq::<char>::empty() + "    {\"id\":"@ =~= "    {\"id\":"@);
    }
}

proof fn lemma_member_labels()
    ensures
        "\n"@ + "      {\"name\":"@ == "\n      "@ + label_of("{"@, Seq::<char>::empty(), "name"@),
        ",\"source\":"@ == label_of(","@, Seq::<char>::empty(), "source"@),
        "name"@ != "source"@,
{
    reveal_strlit("name");
    reveal_strlit("source");
    assert("\n"@ + "      {\"name\":"@ =~= "\n      "@ + label_of("{"@, Seq::<char>::empty(
        ),
        "name"@,
    )) by {
        lemma_label("{"@, Seq::<char>::empty(), "name"@);
        reveal_strlit("{");
        reveal_strlit("      {\"name\":");
        reveal_strlit("\n");
        reveal_strlit("\n      ");
    }
    assert(",\"source\":"@ =~= label_of(","@, Seq::<char>::empty(), "source"@)) by {
        lemma_label(","@, Seq::<char>::empty(), "source"@);
        reveal_strlit(",");
        reveal_strlit(",\"source\":");
    }
}

proof fn lemma_member_json(name: Seq<char>, source: Seq<char>)
    ensures
        is_json("\n"@ + member_row(name, source), member_model(name, source), 96),
{
    let fields = seq![
        field("      {\"name\":"@, "name"@, quoted(name), TreeModel::Text(name)),
        field(",\"source\":"@, "source"@, quoted(source), TreeModel::Text(source)),
    ];
    let entries = seq![
        ("name"@, TreeModel::Text(name)),
        ("source"@, TreeModel::Text(source)),
    ];
    lemma_member_labels();
    lemma_blanks();
    lemma_json_text(name, 95);
    lemma_json_text(source, 95);
    lemma_json_table("\n"@, "\n      "@, fields, Seq::<char>::empty(), "}"@, entries, 95);
    assert(member_row(name, source) == fields_text(fields, 2) + "}"@) by {
        reveal_with_fuel(fields_text, 3);
        assert(Seq::<char>::empty() + "      {\"name\":"@ =~= "      {\"name\":"@);
    }
}

proof fn lemma_link_labels()
    ensures
        "\n"@ + "      {\"caller\":"@ == "\n      "@ + label_of("{"@, Seq::<char>::empty(
            ),
            "caller"@,
        ),
        ",\"callee\":"@ == label_of(","@, Seq::<char>::empty(), "callee"@),
        "caller"@ != "callee"@,
{
    reveal_strlit("caller");
    reveal_strlit("callee");
    assert("\n"@ + "      {\"caller\":"@ =~= "\n      "@ + label_of("{"@, Seq::<char>::empty(
        ),
        "caller"@,
    )) by {
        lemma_label("{"@, Seq::<char>::empty(), "caller"@);
        reveal_strlit("{");
        reveal_strlit("      {\"caller\":");
        reveal_strlit("\n");
        reveal_strlit("\n      ");
    }
    assert(",\"callee\":"@ =~= label_of(","@, Seq::<char>::empty(), "callee"@)) by {
        lemma_label(","@, Seq::<char>::empty(), "callee"@);
        reveal_strlit(",");
        reveal_strlit(",\"callee\":");
    }
    assert("caller"@[5] != "callee"@[5]);
}

proof fn lemma_link_json(caller: Seq<char>, callee: Seq<char>)
    ensures
        is_json("\n"@ + link_row(caller, callee), link_model(caller, callee), 96),
{
    let fields = seq![
        field("      {\"caller\":"@, "caller"@, quoted(caller), TreeModel::Text(caller)),
        field(",\"callee\":"@, "callee"@, quoted(callee), TreeModel::Text(callee)),
    ];
    let entries = seq![
        ("caller"@, TreeModel::Text(caller)),
        ("callee"@, TreeModel::Text(callee)),
    ];
    lemma_link_labels();
    lemma_blanks();
    lemma_json_text(caller, 95);
    lemma_json_text(callee, 95);
    lemma_json_table("\n"@, "\n      "@, fields, Seq::<char>::empty(), "}"@, entries, 95);
    assert(link_row(caller, callee) == fields_text(fields, 2) + "}"@) by {
        reveal_with_fuel(fields_text, 3);
        assert(Seq::<char>::empty() + "      {\"caller\":"@ =~= "      {\"caller\":"@);
    }
}

proof fn lemma_partition_labels()
    ensures
        "\n"@ + "    {\"id\":"@ == "\n    "@ + label_of("{"@, Seq::<char>::empty(), "id"@),
        ",\"load\":"@ == label_of(","@, Seq::<char>::empty(), "load"@),
        ",\"partition_functions\":"@ == label_of(","@, Seq::<char>::empty(
            ),
            "partition_functions"@,
        ),
        ",\"task_function_ids\":"@ == label_of(","@, Seq::<char>::empty(), "task_function_ids"@),
        ",\"partition_edges\":"@ == label_of(","@, Seq::<char>::empty(), "partition_edges"@),
        ",\"seeds\":"@ == label_of(","@, Seq::<char>::empty(), "seeds"@),
        "id"@ != "load"@,
        "id"@ != "partition_functions"@,
        "id"@ != "task_function_ids"@,
        "id"@ != "partition_edges"@,
        "id"@ != "seeds"@,
        "load"@ != "partition_functions"@,
        "load"@ != "task_function_ids"@,
        "load"@ != "partition_edges"@,
        "load"@ != "seeds"@,
        "partition_functions"@ != "task_function_ids"@,
        "partition_functions"@ != "partition_edges"@,
        "partition_functions"@ != "seeds"@,
        "task_function_ids"@ != "partition_edges"@,
        "task_function_ids"@ != "seeds"@,
        "partition_edges"@ != "seeds"@,
{
    reveal_strlit("id");
    reveal_strlit("load");
    reveal_strlit("partition_functions");
    reveal_strlit("task_function_ids");
    reveal_strlit("partition_edges");
    reveal_strlit("seeds");
    assert("\n"@ + "    {\"id\":"@ =~= "\n    "@ + label_of("{"@, Seq::<char>::empty(), "id"@)) by {
        lemma_label("{"@, Seq::<char>::empty(), "id"@);
        reveal_strlit("{");
        reveal_strlit("    {\"id\":");
        reveal_strlit("\n");
        reveal_strlit("\n    ");
    }
    assert(",\"load\":"@ =~= label_of(","@, Seq::<char>::empty(), "load"@)) by {
        lemma_label(","@, Seq::<char>::empty(), "load"@);
        reveal_strlit(",");
        reveal_strlit(",\"load\":");
    }
    assert(",\"partition_functions\":"@ =~= label_of(","@, Seq::<char>::empty(
        ),
        "partition_functions"@,
    )) by {
        lemma_label(","@, Seq::<char>::empty(), "partition_functions"@);
        reveal_strlit(",");
        reveal_strlit(",\"partition_functions\":");
    }
    assert(",\"task_function_ids\":"@ =~= label_of(","@, Seq::<char>::empty(
        ),
        "task_function_ids"@,
    )) by {
        lemma_label(","@, Seq::<char>::empty(), "task_function_ids"@);
        reveal_strlit(",");
        reveal_strlit(",\"task_function_ids\":");
    }
    assert(",\"partition_edges\":"@ =~= label_of(","@, Seq::<char>::empty(
        ),
        "partition_edges"@,
    )) by {
        lemma_label(","@, Seq::<char>::empty(), "partition_edges"@);
        reveal_strlit(",");
        reveal_strlit(",\"partition_edges\":");
    }
    assert(",\"seeds\":"@ =~= label_of(","@, Seq::<char>::empty(), "seeds"@)) by {
        lemma_label(","@, Seq::<char>::empty(), "seeds"@);
        reveal_strlit(",");
        reveal_strlit(",\"seeds\":");
    }
}

proof fn lemma_partition_json(
    order: Seq<Seq<char>>,
    plan: PartitionPlan,
    task: Seq<Seq<char>>,
    coverage: Map<Seq<char>, FunctionCoverage>,
    root: Seq<char>,
    p: int,
)
    requires
        0 <= p < u64::MAX,
        places_fit(order, task),
    ensures
        is_json(
            "\n"@ + partition_block(order, plan, task, coverage, root, p),
            partition_model(order, plan, task, coverage, root, p),
            98,
        ),
{
    let names = texts(plan.partitions@[p]@);
    let links = plan.partition_edges@[p]@;
    let seeds = texts(plan.seed_assignments@[p]@);
    let members = Seq::new(
        names.len(),
        |i: int| member_row(names[i], source_text(coverage, root, names[i])),
    );
    let member_models = Seq::new(
        names.len(),
        |i: int| member_model(names[i], source_text(coverage, root, names[i])),
    );
    let task_lines = Seq::new(task.len(), |i: int| id_row(order.index_of(task[i])));
    let link_lines = Seq::new(links.len(), |i: int| link_row(links[i].0@, links[i].1@));
    let link_models = Seq::new(links.len(), |i: int| link_model(links[i].0@, links[i].1@));
    let seed_lines = Seq::new(seeds.len(), |i: int| seed_row(seeds[i]));
    let seed_models = Seq::new(seeds.len(), |i: int| TreeModel::Text(seeds[i]));
    assert forall|i: int| 0 <= i < members.len() implies is_json(
        "\n"@ + #[trigger] members[i],
        member_models[i],
        96,
    ) by {
        lemma_member_json(names[i], source_text(coverage, root, names[i]));
    }
    assert forall|i: int| 0 <= i < link_lines.len() implies is_json(
        "\n"@ + #[trigger] link_lines[i],
        link_models[i],
        96,
    ) by {
        lemma_link_json(links[i].0@, links[i].1@);
    }
    assert forall|i: int| 0 <= i < seed_lines.len() implies is_json(
        "\n"@ + #[trigger] seed_lines[i],
        seed_models[i],
        96,
    ) by {
        lemma_blanks();
        lemma_json_text(seeds[i], 96);
        lemma_json_line("      "@, quoted(seeds[i]), TreeModel::Text(seeds[i]), 96);
    }
    let fields = seq![
        field("    {\"id\":"@, "id"@, decimal((p + 1) as nat), TreeModel::Unsigned((p + 1) as u64)),
        field(
            ",\"load\":"@,
            "load"@,
            decimal(plan.loads@[p] as nat),
            TreeModel::Unsigned(plan.loads@[p]),
        ),
        field(
            ",\"partition_functions\":"@,
            "partition_functions"@,
            listed("[\n"@, members, "    ]"@),
            TreeModel::List(member_models),
        ),
        field(
            ",\"task_function_ids\":"@,
            "task_function_ids"@,
            listed("[\n"@, task_lines, "    ]"@),
            TreeModel::List(id_models(order, task)),
        ),
        field(
            ",\"partition_edges\":"@,
            "partition_edges"@,
            listed("[\n"@, link_lines, "    ]"@),
            TreeModel::List(link_models),
        ),
        field(
            ",\"seeds\":"@,
            "seeds"@,
            listed("[\n"@, seed_lines, "    ]"@),
            TreeModel::List(seed_models),
        ),
    ];
    let entries = seq![
        ("id"@, TreeModel::Unsigned((p + 1) as u64)),
        ("load"@, TreeModel::Unsigned(plan.loads@[p])),
        ("partition_functions"@, TreeModel::List(member_models)),
        ("task_function_ids"@, TreeModel::List(id_models(order, task))),
        ("partition_edges"@, TreeModel::List(link_models)),
        ("seeds"@, TreeModel::List(seed_models)),
    ];
    lemma_partition_labels();
    lemma_blanks();
    lemma_json_index((p + 1), 97);
    lemma_json_number(plan.loads@[p], 97);
    lemma_json_list(Seq::empty(), "[\n"@, members, "    "@, "    ]"@, member_models, 96);
    lemma_ids_json(order, task);
    lemma_json_list(Seq::empty(), "[\n"@, link_lines, "    "@, "    ]"@, link_models, 96);
    lemma_json_list(Seq::empty(), "[\n"@, seed_lines, "    "@, "    ]"@, seed_models, 96);
    lemma_json_table("\n"@, "\n    "@, fields, Seq::<char>::empty(), "}"@, entries, 97);
    let row = partition_block(order, plan, task, coverage, root, p);
    assert(row == fields_text(fields, 6) + "}"@) by {
        reveal_with_fuel(fields_text, 7);
        assert(Seq::<char>::empty() + "    {\"id\":"@ =~= "    {\"id\":"@);
    }
}

proof fn lemma_partitions_labels()
    ensures
        "{\n  \"partitioner\":"@ == label_of("{"@, "\n  "@, "partitioner"@),
        ",\n  \"functions\":"@ == label_of(","@, "\n  "@, "functions"@),
        ",\n  \"shared_function_ids\":"@ == label_of(","@, "\n  "@, "shared_function_ids"@),
        ",\n  \"partitions\":"@ == label_of(","@, "\n  "@, "partitions"@),
        "partitioner"@ != "functions"@,
        "partitioner"@ != "shared_function_ids"@,
        "partitioner"@ != "partitions"@,
        "functions"@ != "shared_function_ids"@,
        "functions"@ != "partitions"@,
        "shared_function_ids"@ != "partitions"@,
{
    reveal_strlit("partitioner");
    reveal_strlit("functions");
    reveal_strlit("shared_function_ids");
    reveal_strlit("partitions");
    assert("{\n  \"partitioner\":"@ =~= label_of("{"@, "\n  "@, "partitioner"@)) by {
        lemma_label("{"@, "\n  "@, "partitioner"@);
        reveal_strlit("{");
        reveal_strlit("{\n  \"partitioner\":");
        reveal_strlit("\n  ");
    }
    assert(",\n  \"functions\":"@ =~= label_of(","@, "\n  "@, "functions"@)) by {
        lemma_label(","@, "\n  "@, "functions"@);
        reveal_strlit(",");
        reveal_strlit(",\n  \"functions\":");
        reveal_strlit("\n  ");
    }
    assert(",\n  \"shared_function_ids\":"@ =~= label_of(
        ","@,
        "\n  "@,
        "shared_function_ids"@,
    )) by {
        lemma_label(","@, "\n  "@, "shared_function_ids"@);
        reveal_strlit(",");
        reveal_strlit(",\n  \"shared_function_ids\":");
        reveal_strlit("\n  ");
    }
    assert(",\n  \"partitions\":"@ =~= label_of(","@, "\n  "@, "partitions"@)) by {
        lemma_label(","@, "\n  "@, "partitions"@);
        reveal_strlit(",");
        reveal_strlit(",\n  \"partitions\":");
        reveal_strlit("\n  ");
    }
}

/// The functions of the partitions, with where they stand.
proof fn lemma_sourced_list(
    all: Seq<(Seq<char>, u64)>,
    coverage: Map<Seq<char>, FunctionCoverage>,
    root: Seq<char>,
)
    ensures
        is_json(
            listed(
                " [\n"@,
                Seq::new(
                    all.len(),
                    |i: int| sourced_row(all[i].1, all[i].0, source_text(coverage, root, all[i].0)),
                ),
                "  ]"@,
            ),
            TreeModel::List(
                Seq::new(
                    all.len(),
                    |i: int|
                        sourced_model(all[i].1, all[i].0, source_text(coverage, root, all[i].0)),
                ),
            ),
            99,
        ),
{
    let functions = Seq::new(
        all.len(),
        |i: int| sourced_row(all[i].1, all[i].0, source_text(coverage, root, all[i].0)),
    );
    let models = Seq::new(
        all.len(),
        |i: int| sourced_model(all[i].1, all[i].0, source_text(coverage, root, all[i].0)),
    );
    lemma_blanks();
    assert forall|i: int| 0 <= i < functions.len() implies is_json(
        "\n"@ + #[trigger] functions[i],
        models[i],
        98,
    ) by {
        lemma_sourced_json(all[i].1, all[i].0, source_text(coverage, root, all[i].0));
    }
    lemma_json_list(" "@, " [\n"@, functions, "  "@, "  ]"@, models, 98);
}

/// The numbers of the shared functions.
proof fn lemma_shared_list(ids: FunctionIds, tasks: Seq<Vec<String>>, shared: Seq<Seq<char>>)
    requires
        numbered(ids, partition_order(tasks, shared)),
    ensures
        ({
            let order = partition_order(tasks, shared);
            is_json(
                listed(
                    " [\n"@,
                    Seq::new(shared.len(), |i: int| shared_row(order.index_of(shared[i]))),
                    "  ]"@,
                ),
                TreeModel::List(id_models(order, shared)),
                99,
            )
        }),
{
    let order = partition_order(tasks, shared);
    let lines = Seq::new(shared.len(), |i: int| shared_row(order.index_of(shared[i])));
    let models = id_models(order, shared);
    lemma_blanks();
    assert forall|i: int| 0 <= i < lines.len() implies is_json(
        "\n"@ + #[trigger] lines[i],
        models[i],
        98,
    ) by {
        lemma_shared_order(tasks, shared, i);
        lemma_place_fits(ids, order, shared[i]);
        let id = order.index_of(shared[i]);
        lemma_json_index(id, 98);
        lemma_json_line("    "@, decimal(id as nat), TreeModel::Unsigned(id as u64), 98);
    }
    lemma_json_list(" "@, " [\n"@, lines, "  "@, "  ]"@, models, 98);
}

/// The partitions, one after the other.
proof fn lemma_partition_list(
    ids: FunctionIds,
    plan: PartitionPlan,
    tasks: Seq<Vec<String>>,
    shared: Seq<Seq<char>>,
    coverage: Map<Seq<char>, FunctionCoverage>,
    root: Seq<char>,
)
    requires
        numbered(ids, partition_order(tasks, shared)),
        tasks.len() == plan.partitions@.len(),
    ensures
        ({
            let order = partition_order(tasks, shared);
            is_json(
                listed(
                    " [\n"@,
                    Seq::new(
                        plan.partitions@.len(),
                        |p: int| partition_block(order, plan, texts(tasks[p]@), coverage, root, p),
                    ),
                    "  ]"@,
                ),
                TreeModel::List(
                    Seq::new(
                        plan.partitions@.len(),
                        |p: int| partition_model(order, plan, texts(tasks[p]@), coverage, root, p),
                    ),
                ),
                99,
            )
        }),
{
    let order = partition_order(tasks, shared);
    let blocks = Seq::new(
        plan.partitions@.len(),
        |p: int| partition_block(order, plan, texts(tasks[p]@), coverage, root, p),
    );
    let models = Seq::new(
        plan.partitions@.len(),
        |p: int| partition_model(order, plan, texts(tasks[p]@), coverage, root, p),
    );
    lemma_blanks();
    assert forall|p: int| 0 <= p < blocks.len() implies is_json(
        "\n"@ + #[trigger] blocks[p],
        models[p],
        98,
    ) by {
        let task = texts(tasks[p]@);
        lemma_task_order(tasks, shared, p);
        assert forall|k: int| 0 <= k < task.len() implies place_fits(
            order,
            #[trigger] task[k],
        ) by {
            lemma_place_fits(ids, order, task[k]);
        }
        assert(plan.partitions@.len() == plan.partitions.len());
        lemma_partition_json(order, plan, task, coverage, root, p);
    }
    lemma_json_list(" "@, " [\n"@, blocks, "  "@, "  ]"@, models, 98);
}

/// The document on the partitions, whatever is in its lists.
proof fn lemma_partitions_document(
    algorithm: Seq<char>,
    functions: Seq<char>,
    function_models: TreeModel,
    shared: Seq<char>,
    shared_models: TreeModel,
    partitions: Seq<char>,
    partition_models: TreeModel,
)
    requires
        is_json(functions, function_models, 99),
        is_json(shared, shared_models, 99),
        is_json(partitions, partition_models, 99),
    ensures
        reads_as(
            "{\n  \"partitioner\":"@ + quoted(algorithm) + ",\n  \"functions\":"@ + functions
                + ",\n  \"shared_function_ids\":"@ + shared + ",\n  \"partitions\":"@ + partitions
                + "\n}"@ + "\n"@,
            record(
                seq![
                    ("partitioner"@, TreeModel::Text(algorithm)),
                    ("functions"@, function_models),
                    ("shared_function_ids"@, shared_models),
                    ("partitions"@, partition_models),
                ],
            ),
        ),
{
    let text = "{\n  \"partitioner\":"@ + quoted(algorithm) + ",\n  \"functions\":"@ + functions
        + ",\n  \"shared_function_ids\":"@ + shared + ",\n  \"partitions\":"@ + partitions
        + "\n}"@ + "\n"@;
    lemma_blanks();
    lemma_partitions_labels();
    lemma_json_text(algorithm, 99);
    let fields = seq![
        line_field(
            "{\n  \"partitioner\":"@,
            "partitioner"@,
            quoted(algorithm),
            TreeModel::Text(algorithm),
        ),
        line_field(",\n  \"functions\":"@, "functions"@, functions, function_models),
        line_field(",\n  \"shared_function_ids\":"@, "shared_function_ids"@, shared, shared_models),
        line_field(",\n  \"partitions\":"@, "partitions"@, partitions, partition_models),
    ];
    let entries = seq![
        ("partitioner"@, TreeModel::Text(algorithm)),
        ("functions"@, function_models),
        ("shared_function_ids"@, shared_models),
        ("partitions"@, partition_models),
    ];
    assert(labels_ok(Seq::empty(), Seq::empty(), fields)) by {
        let (first, label) = (fields[0].label, label_of("{"@, "\n  "@, fields[0].key));
        assert(Seq::<char>::empty() + first =~= first);
        assert(Seq::<char>::empty() + label =~= label);
    }
    lemma_json_table(Seq::empty(), Seq::empty(), fields, "\n"@, "\n}"@, entries, 99);
    let body = fields_text(fields, 4) + "\n}"@;
    assert(Seq::<char>::empty() + body =~= body);
    lemma_json_document(body, record(entries));
    assert(text == body + "\n"@) by {
        reveal_with_fuel(fields_text, 5);
        assert(Seq::<char>::empty() + "{\n  \"partitioner\":"@ =~= "{\n  \"partitioner\":"@);
    }
}

/// The partitions as they are written are JSON, and are read as what was written.
pub proof fn law_partitions_read_back(
    ids: FunctionIds,
    plan: PartitionPlan,
    tasks: Seq<Vec<String>>,
    shared: Seq<Seq<char>>,
    coverage: Map<Seq<char>, FunctionCoverage>,
    root: Seq<char>,
)
    requires
        numbered(ids, partition_order(tasks, shared)),
        tasks.len() == plan.partitions@.len(),
    ensures
        reads_as(
            partitions_text(ids.seq(), plan, tasks, shared, coverage, root),
            partitions_model(ids.seq(), plan, tasks, shared, coverage, root),
        ),
{
    let all = ids.seq();
    let order = partition_order(tasks, shared);
    let functions = Seq::new(
        all.len(),
        |i: int| sourced_row(all[i].1, all[i].0, source_text(coverage, root, all[i].0)),
    );
    let function_models = Seq::new(
        all.len(),
        |i: int| sourced_model(all[i].1, all[i].0, source_text(coverage, root, all[i].0)),
    );
    let lines = Seq::new(shared.len(), |i: int| shared_row(order.index_of(shared[i])));
    let blocks = Seq::new(
        plan.partitions@.len(),
        |p: int| partition_block(order, plan, texts(tasks[p]@), coverage, root, p),
    );
    let block_models = Seq::new(
        plan.partitions@.len(),
        |p: int| partition_model(order, plan, texts(tasks[p]@), coverage, root, p),
    );
    lemma_sourced_list(all, coverage, root);
    lemma_shared_list(ids, tasks, shared);
    lemma_partition_list(ids, plan, tasks, shared, coverage, root);
    lemma_partitions_document(
        plan.algorithm@,
        listed(" [\n"@, functions, "  ]"@),
        TreeModel::List(function_models),
        listed(" [\n"@, lines, "  ]"@),
        TreeModel::List(id_models(order, shared)),
        listed(" [\n"@, blocks, "  ]"@),
        TreeModel::List(block_models),
    );
}

} // verus!
