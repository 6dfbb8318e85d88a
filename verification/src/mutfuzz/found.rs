//! What holds of the jumps that are found in a binary.

use crate::mutfuzz::disassemble::{
    addresses_fit, code_ranges, contains_one, decoded, filter_patterns, found_in, function_name,
    is_code_section, is_function, is_included, located, occurs_in_one, offset_from, opcode_of,
    unmatched, with_instruction, with_instructions, with_symbol, with_symbols, Found,
};
use crate::text::{occurs_at, text_contains, text_starts_with};
use vstd::prelude::*;

verus! {

/// The names of the conditional jumps, in the order of their condition codes.
pub open spec fn condition_names() -> Seq<Seq<char>> {
    seq![
        "Jo"@,
        "Jno"@,
        "Jb"@,
        "Jae"@,
        "Je"@,
        "Jne"@,
        "Jbe"@,
        "Ja"@,
        "Js"@,
        "Jns"@,
        "Jp"@,
        "Jnp"@,
        "Jl"@,
        "Jge"@,
        "Jle"@,
        "Jg"@,
    ]
}

/// Whether a text is another one but for its first letter, which is a small j.
pub open spec fn is_lowered(lowered: Seq<char>, name: Seq<char>) -> bool {
    &&& lowered.len() == name.len() > 0
    &&& name[0] == 'J'
    &&& lowered[0] == 'j'
    &&& forall|i: int| 1 <= i < name.len() ==> lowered[i] == name[i]
}

/// Each of the sixteen conditions has a name of its own, which is that of the operation in small
/// letters.
pub proof fn law_every_condition_has_a_name(code: int)
    requires
        0 <= code < 16,
    ensures
        condition_names().len() == 16,
        opcode_of(condition_names()[code]) is Some,
        is_lowered(opcode_of(condition_names()[code])->0, condition_names()[code]),
{
    reveal_strlit("Jo");
    reveal_strlit("Jno");
    reveal_strlit("Jb");
    reveal_strlit("Jae");
    reveal_strlit("Je");
    reveal_strlit("Jne");
    reveal_strlit("Jbe");
    reveal_strlit("Ja");
    reveal_strlit("Js");
    reveal_strlit("Jns");
    reveal_strlit("Jp");
    reveal_strlit("Jnp");
    reveal_strlit("Jl");
    reveal_strlit("Jge");
    reveal_strlit("Jle");
    reveal_strlit("Jg");
    reveal_strlit("jo");
    reveal_strlit("jno");
    reveal_strlit("jb");
    reveal_strlit("jae");
    reveal_strlit("je");
    reveal_strlit("jne");
    reveal_strlit("jbe");
    reveal_strlit("ja");
    reveal_strlit("js");
    reveal_strlit("jns");
    reveal_strlit("jp");
    reveal_strlit("jnp");
    reveal_strlit("jl");
    reveal_strlit("jge");
    reveal_strlit("jle");
    reveal_strlit("jg");
}

/// No other operation is taken for a conditional jump.
pub proof fn law_nothing_else_has_a_name(mnemonic: Seq<char>)
    ensures
        opcode_of(mnemonic) is Some ==> condition_names().contains(mnemonic),
{
    let names = condition_names();
    assert(names[0] == "Jo"@ && names[1] == "Jno"@ && names[2] == "Jb"@ && names[3] == "Jae"@);
    assert(names[4] == "Je"@ && names[5] == "Jne"@ && names[6] == "Jbe"@ && names[7] == "Ja"@);
    assert(names[8] == "Js"@ && names[9] == "Jns"@ && names[10] == "Jp"@ && names[11] == "Jnp"@);
    assert(names[12] == "Jl"@ && names[13] == "Jge"@ && names[14] == "Jle"@ && names[15] == "Jg"@);
}

/// Two conditions with one name are the same.
pub proof fn law_names_tell_conditions_apart(a: int, b: int)
    requires
        0 <= a < 16,
        0 <= b < 16,
        opcode_of(condition_names()[a]) == opcode_of(condition_names()[b]),
    ensures
        condition_names()[a] == condition_names()[b],
{
    law_every_condition_has_a_name(a);
    law_every_condition_has_a_name(b);
    assert(condition_names()[a] =~= condition_names()[b]);
}

/// A section of code: its name is ".text", or begins with ".text.".
pub open spec fn holds_code(section: (Option<Seq<char>>, u64, Option<u64>, u64)) -> bool {
    section.0 matches Some(name) && (name == ".text"@ || (name.len() >= 6 && name.take(6)
        == ".text."@))
}

/// Whether an address lies in a section.
pub open spec fn is_inside(
    section: (Option<Seq<char>>, u64, Option<u64>, u64),
    address: u64,
) -> bool {
    section.1 <= address && address - section.1 < section.3
}

proof fn lemma_code_section(section: (Option<Seq<char>>, u64, Option<u64>, u64))
    ensures
        is_code_section(section.0) <==> holds_code(section),
{
    reveal_strlit(".text.");
    if let Some(name) = section.0 {
        if text_starts_with(name, ".text."@) {
            assert(name.take(6) =~= ".text."@);
        }
        if name.len() >= 6 && name.take(6) == ".text."@ {
            assert forall|i: int| 0 <= i < 6 implies name[i] == ".text."@[i] by {
                assert(name.take(6)[i] == name[i]);
            }
            assert(occurs_at(name, ".text."@, 0));
        }
    }
}

proof fn lemma_offset_push(
    ranges: Seq<(u64, u64, u64)>,
    last: (u64, u64, u64),
    from: int,
    address: u64,
)
    requires
        0 <= from <= ranges.len(),
    ensures
        (forall|k: int|
            from <= k < ranges.len() ==> !((#[trigger] ranges[k]).0 <= address < ranges[k].0
                + ranges[k].2)) ==> offset_from(ranges.push(last), from, address) == offset_from(
            ranges.push(last),
            ranges.len() as int,
            address,
        ) && offset_from(ranges, from, address) is None,
        (exists|k: int|
            from <= k < ranges.len() && (#[trigger] ranges[k]).0 <= address < ranges[k].0
                + ranges[k].2) ==> offset_from(ranges.push(last), from, address) == offset_from(
            ranges,
            from,
            address,
        ),
    decreases ranges.len() - from,
{
    if from < ranges.len() {
        assert(ranges.push(last)[from] == ranges[from]);
        lemma_offset_push(ranges, last, from + 1, address);
        if exists|k: int|
            from <= k < ranges.len() && (#[trigger] ranges[k]).0 <= address < ranges[k].0
                + ranges[k].2 {
            let k = choose|k: int|
                from <= k < ranges.len() && (#[trigger] ranges[k]).0 <= address < ranges[k].0
                    + ranges[k].2;
            if k > from {
                assert(from + 1 <= k < ranges.len());
            }
        }
    }
}

/// Where no section of code holds an address, it stands nowhere in the file.
pub proof fn law_address_outside_code_has_no_place(
    sections: Seq<(Option<Seq<char>>, u64, Option<u64>, u64)>,
    address: u64,
)
    requires
        forall|k: int|
            0 <= k < sections.len() && holds_code(#[trigger] sections[k]) ==> !is_inside(
                sections[k],
                address,
            ),
    ensures
        offset_from(code_ranges(sections), 0, address) is None,
        forall|k: int|
            0 <= k < code_ranges(sections).len() ==> !((#[trigger] code_ranges(sections)[k]).0
                <= address < code_ranges(sections)[k].0 + code_ranges(sections)[k].2),
    decreases sections.len(),
{
    if sections.len() > 0 {
        let less = sections.drop_last();
        let last = sections.last();
        assert(sections[sections.len() - 1] == last);
        assert forall|k: int| 0 <= k < less.len() && holds_code(#[trigger] less[k]) implies
            !is_inside(less[k], address) by {
            assert(sections[k] == less[k]);
        }
        law_address_outside_code_has_no_place(less, address);
        lemma_code_section(last);
        if holds_code(last) {
            let before = code_ranges(less);
            let more = code_ranges(sections);
            lemma_offset_push(before, more.last(), 0, address);
            assert(more =~= before.push(more.last()));
            reveal_with_fuel(offset_from, 2);
        }
    }
}

/// An address stands in the file as far behind the first section of code that holds it as it lies
/// behind the address of that section. A place that cannot be said is none.
pub proof fn law_address_has_its_place(
    sections: Seq<(Option<Seq<char>>, u64, Option<u64>, u64)>,
    k: int,
    address: u64,
)
    requires
        0 <= k < sections.len(),
        holds_code(sections[k]),
        is_inside(sections[k], address),
        forall|j: int|
            0 <= j < k && holds_code(#[trigger] sections[j]) ==> !is_inside(sections[j], address),
    ensures
        ({
            let start: u64 = match sections[k].2 {
                Some(start) => start,
                None => 0,
            };
            let place = start + (address - sections[k].1);
            match offset_from(code_ranges(sections), 0, address) {
                Some(offset) => offset == place,
                None => place > usize::MAX,
            }
        }),
        exists|j: int|
            0 <= j < code_ranges(sections).len() && (#[trigger] code_ranges(sections)[j]).0
                <= address < code_ranges(sections)[j].0 + code_ranges(sections)[j].2,
    decreases sections.len(),
{
    let less = sections.drop_last();
    let last = sections.last();
    let before = code_ranges(less);
    let more = code_ranges(sections);
    lemma_code_section(last);
    if holds_code(last) {
        assert(more =~= before.push(more.last()));
        lemma_offset_push(before, more.last(), 0, address);
    }
    if k < sections.len() - 1 {
        assert(less[k] == sections[k]);
        assert forall|j: int| 0 <= j < k && holds_code(#[trigger] less[j]) implies !is_inside(
            less[j],
            address,
        ) by {
            assert(sections[j] == less[j]);
        }
        law_address_has_its_place(less, k, address);
        let j = choose|j: int|
            0 <= j < before.len() && (#[trigger] before[j]).0 <= address < before[j].0
                + before[j].2;
        assert(more[j] == before[j]);
    } else {
        assert forall|j: int| 0 <= j < less.len() && holds_code(#[trigger] less[j]) implies
            !is_inside(less[j], address) by {
            assert(sections[j] == less[j]);
        }
        law_address_outside_code_has_no_place(less, address);
        assert(more[before.len() as int] == more.last());
        assert(offset_from(more, 0, address) == offset_from(more, before.len() as int, address));
    }
}

/// Whether a function is one of the instrumentation, of the fuzzer or of the runtime.
pub open spec fn belongs_to_runtime(name: Seq<char>) -> bool {
    ||| text_contains(name, "__afl"@)
    ||| text_contains(name, "__asan"@)
    ||| text_contains(name, "__ubsan"@)
    ||| text_contains(name, "__sanitizer"@)
    ||| text_contains(name, "__lsan"@)
    ||| text_contains(name, "__sancov"@)
    ||| text_contains(name, "AFL_"@)
    ||| text_contains(name, "std::"@)
    ||| text_contains(name, "core::"@)
    ||| text_contains(name, "alloc::"@)
    ||| text_contains(name, "__rust_"@)
    ||| text_contains(name, "rust_begin_unwind"@)
    ||| text_contains(name, "libfuzzer_sys::"@)
    ||| text_contains(name, "arbitrary::"@)
    ||| text_contains(name, "Fuzz"@)
    ||| text_contains(name, "fuzz"@)
    ||| text_contains(name, "asan"@)
    ||| text_contains(name, "ubsan"@)
    ||| text_contains(name, "sanitizer"@)
    ||| text_contains(name, "interceptor"@)
    ||| text_contains(name, "Interceptor"@)
    ||| text_contains(name, "assert"@)
    ||| text_contains(name, "printf"@)
    ||| text_contains(name, "memcpy"@)
    ||| text_contains(name, "memset"@)
    ||| text_contains(name, "memcmp"@)
    ||| text_contains(name, "strcmp"@)
    ||| text_contains(name, "strcpy"@)
    ||| text_contains(name, "register_tm_clones"@)
    ||| text_contains(name, "_init"@)
    ||| text_contains(name, "_cxx_global"@)
}

/// The functions of the instrumentation, of the fuzzer and of the runtime are left alone, whatever
/// is asked for; no other is left alone unless something is asked for.
pub proof fn law_runtime_is_left_alone(
    name: Seq<char>,
    only_mutate: Seq<Seq<char>>,
    avoid_mutating: Seq<Seq<char>>,
)
    ensures
        belongs_to_runtime(name) ==> !is_included(name, only_mutate, avoid_mutating),
        !belongs_to_runtime(name) ==> is_included(name, Seq::empty(), Seq::empty()),
{
    assert(filter_patterns().len() == 31);
    assert(filter_patterns()[0] == "__afl"@);
    assert(filter_patterns()[1] == "__asan"@);
    assert(filter_patterns()[2] == "__ubsan"@);
    assert(filter_patterns()[3] == "__sanitizer"@);
    assert(filter_patterns()[4] == "__lsan"@);
    assert(filter_patterns()[5] == "__sancov"@);
    assert(filter_patterns()[6] == "AFL_"@);
    assert(filter_patterns()[7] == "std::"@);
    assert(filter_patterns()[8] == "core::"@);
    assert(filter_patterns()[9] == "alloc::"@);
    assert(filter_patterns()[10] == "__rust_"@);
    assert(filter_patterns()[11] == "rust_begin_unwind"@);
    assert(filter_patterns()[12] == "libfuzzer_sys::"@);
    assert(filter_patterns()[13] == "arbitrary::"@);
    assert(filter_patterns()[14] == "Fuzz"@);
    assert(filter_patterns()[15] == "fuzz"@);
    assert(filter_patterns()[16] == "asan"@);
    assert(filter_patterns()[17] == "ubsan"@);
    assert(filter_patterns()[18] == "sanitizer"@);
    assert(filter_patterns()[19] == "interceptor"@);
    assert(filter_patterns()[20] == "Interceptor"@);
    assert(filter_patterns()[21] == "assert"@);
    assert(filter_patterns()[22] == "printf"@);
    assert(filter_patterns()[23] == "memcpy"@);
    assert(filter_patterns()[24] == "memset"@);
    assert(filter_patterns()[25] == "memcmp"@);
    assert(filter_patterns()[26] == "strcmp"@);
    assert(filter_patterns()[27] == "strcpy"@);
    assert(filter_patterns()[28] == "register_tm_clones"@);
    assert(filter_patterns()[29] == "_init"@);
    assert(filter_patterns()[30] == "_cxx_global"@);
    let none: Seq<Seq<char>> = Seq::empty();
    assert(!contains_one(name, none));
    assert(contains_one(name, filter_patterns()) <==> belongs_to_runtime(name));
}

/// A function whose name has a part that is to be avoided is left alone, even where it is asked for.
pub proof fn law_avoided_is_left_alone(
    name: Seq<char>,
    only_mutate: Seq<Seq<char>>,
    avoid_mutating: Seq<Seq<char>>,
    part: Seq<char>,
)
    requires
        avoid_mutating.contains(part),
        text_contains(name, part),
    ensures
        !is_included(name, only_mutate, avoid_mutating),
{
    let i = avoid_mutating.index_of(part);
    assert(text_contains(name, avoid_mutating[i]));
}

/// Where functions are asked for, just those are changed whose names have one of the parts asked
/// for, among those that would be changed otherwise.
pub proof fn law_only_asked_for_is_included(
    name: Seq<char>,
    only_mutate: Seq<Seq<char>>,
    avoid_mutating: Seq<Seq<char>>,
)
    requires
        only_mutate.len() > 0,
    ensures
        is_included(name, only_mutate, avoid_mutating) <==> is_included(
            name,
            Seq::empty(),
            avoid_mutating,
        ) && exists|part: Seq<char>| only_mutate.contains(part) && #[trigger] text_contains(name, part),
{
    if contains_one(name, only_mutate) {
        let i = choose|i: int|
            0 <= i < only_mutate.len() && text_contains(name, #[trigger] only_mutate[i]);
        assert(only_mutate.contains(only_mutate[i]));
    }
    if exists|part: Seq<char>| only_mutate.contains(part) && #[trigger] text_contains(name, part) {
        let part = choose|part: Seq<char>|
            only_mutate.contains(part) && #[trigger] text_contains(name, part);
        let i = only_mutate.index_of(part);
        assert(text_contains(name, only_mutate[i]));
    }
}

/// Whether a symbol is a function whose code stands in the file, from that place on.
pub open spec fn is_function_at(
    ranges: Seq<(u64, u64, u64)>,
    symbol: (bool, u64, u64, Option<Seq<char>>),
    start: usize,
) -> bool {
    &&& symbol.0
    &&& symbol.2 > 0
    &&& offset_from(ranges, 0, symbol.1) == Some(start)
}

/// The instructions of a function whose code stands in the file, from that place on.
pub open spec fn code_at(
    data: Seq<u8>,
    symbol: (bool, u64, u64, Option<Seq<char>>),
    start: usize,
) -> Seq<(u64, usize, bool, Seq<char>)> {
    decoded(data.subrange(start as int, start + symbol.2), symbol.1)
}

/// Whether an instruction is a jump on one of the conditions, and stands in the file, from that
/// place on.
pub open spec fn is_jump_at(
    data: Seq<u8>,
    ranges: Seq<(u64, u64, u64)>,
    instruction: (u64, usize, bool, Seq<char>),
    at: usize,
) -> bool {
    &&& instruction.2
    &&& condition_names().contains(instruction.3)
    &&& offset_from(ranges, 0, instruction.0) == Some(at)
    &&& at + instruction.1 <= data.len()
}

proof fn lemma_one_more(
    data: Seq<u8>,
    ranges: Seq<(u64, u64, u64)>,
    function: Seq<char>,
    found: Found,
    instruction: (u64, usize, bool, Seq<char>),
    at: usize,
)
    requires
        is_jump_at(data, ranges, instruction, at),
    ensures
        ({
            let next = with_instruction(data, ranges, function, found, instruction);
            &&& next.jumps.contains_key(at)
            &&& next.functions.contains_key(function)
            &&& next.functions[function].contains(at)
        }),
{
    let code = condition_names().index_of(instruction.3);
    law_every_condition_has_a_name(code);
    let list = found_in(found.functions, function).push(at);
    assert(list[list.len() - 1] == at);
}

proof fn lemma_one_more_keeps(
    data: Seq<u8>,
    ranges: Seq<(u64, u64, u64)>,
    function: Seq<char>,
    found: Found,
    instruction: (u64, usize, bool, Seq<char>),
)
    ensures
        keeps(found, with_instruction(data, ranges, function, found, instruction)),
{
    let next = with_instruction(data, ranges, function, found, instruction);
    assert forall|n: Seq<char>, at: usize|
        found.functions.contains_key(n) && #[trigger] found.functions[n].contains(at) implies
        next.functions.contains_key(n) && next.functions[n].contains(at) by {
        if n == function && next.functions[n] != found.functions[n] {
            let list = found.functions[n];
            let k = list.index_of(at);
            assert(next.functions[n][k] == at);
        }
    }
}

/// Whether everything found is still there.
pub open spec fn keeps(before: Found, after: Found) -> bool {
    &&& forall|at: usize| #[trigger] before.jumps.contains_key(at) ==> after.jumps.contains_key(at)
    &&& forall|n: Seq<char>, at: usize|
        before.functions.contains_key(n) && #[trigger] before.functions[n].contains(at)
            ==> after.functions.contains_key(n) && after.functions[n].contains(at)
    &&& forall|n: Seq<char>| #[trigger] before.reach.contains_key(n) ==> after.reach.contains_key(n)
}

proof fn lemma_code_keeps(
    data: Seq<u8>,
    ranges: Seq<(u64, u64, u64)>,
    function: Seq<char>,
    found: Found,
    code: Seq<(u64, usize, bool, Seq<char>)>,
)
    ensures
        keeps(found, with_instructions(data, ranges, function, found, code)),
        with_instructions(data, ranges, function, found, code).reach == found.reach,
    decreases code.len(),
{
    if code.len() > 0 {
        let less = code.drop_last();
        lemma_code_keeps(data, ranges, function, found, less);
        lemma_one_more_keeps(
            data,
            ranges,
            function,
            with_instructions(data, ranges, function, found, less),
            code.last(),
        );
    }
}

proof fn lemma_code_found(
    data: Seq<u8>,
    ranges: Seq<(u64, u64, u64)>,
    function: Seq<char>,
    found: Found,
    code: Seq<(u64, usize, bool, Seq<char>)>,
    i: int,
    at: usize,
)
    requires
        0 <= i < code.len(),
        is_jump_at(data, ranges, code[i], at),
    ensures
        ({
            let all = with_instructions(data, ranges, function, found, code);
            &&& all.jumps.contains_key(at)
            &&& all.functions.contains_key(function)
            &&& all.functions[function].contains(at)
        }),
    decreases code.len(),
{
    let less = code.drop_last();
    let before = with_instructions(data, ranges, function, found, less);
    if i == code.len() - 1 {
        lemma_one_more(data, ranges, function, before, code.last(), at);
    } else {
        assert(less[i] == code[i]);
        lemma_code_found(data, ranges, function, found, less, i, at);
        lemma_one_more_keeps(data, ranges, function, before, code.last());
        assert(before.functions[function].contains(at));
    }
}

proof fn lemma_symbol_keeps(
    data: Seq<u8>,
    ranges: Seq<(u64, u64, u64)>,
    only_mutate: Seq<Seq<char>>,
    avoid_mutating: Seq<Seq<char>>,
    found: Found,
    symbol: (bool, u64, u64, Option<Seq<char>>),
)
    ensures
        keeps(found, with_symbol(data, ranges, only_mutate, avoid_mutating, found, symbol)),
{
    let name = function_name(symbol.3);
    if let Some(offset) = offset_from(ranges, 0, symbol.1) {
        let reached = Found { reach: found.reach.insert(name, offset), ..found };
        assert(keeps(found, reached));
        lemma_code_keeps(data, ranges, name, reached, code_at(data, symbol, offset));
    }
}

/// Every jump on one of the sixteen conditions is found that stands in the file and in a function
/// that may be changed, and is listed under that function.
pub proof fn law_every_jump_is_found(
    data: Seq<u8>,
    ranges: Seq<(u64, u64, u64)>,
    only_mutate: Seq<Seq<char>>,
    avoid_mutating: Seq<Seq<char>>,
    symbols: Seq<(bool, u64, u64, Option<Seq<char>>)>,
    s: int,
    start: usize,
    i: int,
    at: usize,
)
    requires
        0 <= s < symbols.len(),
        is_function_at(ranges, symbols[s], start),
        is_included(function_name(symbols[s].3), only_mutate, avoid_mutating),
        start + symbols[s].2 <= data.len(),
        0 <= i < code_at(data, symbols[s], start).len(),
        is_jump_at(data, ranges, code_at(data, symbols[s], start)[i], at),
    ensures
        ({
            let found = with_symbols(data, ranges, only_mutate, avoid_mutating, symbols);
            let name = function_name(symbols[s].3);
            &&& found.jumps.contains_key(at)
            &&& found.functions.contains_key(name)
            &&& found.functions[name].contains(at)
        }),
    decreases symbols.len(),
{
    let less = symbols.drop_last();
    let before = with_symbols(data, ranges, only_mutate, avoid_mutating, less);
    let name = function_name(symbols[s].3);
    if s == symbols.len() - 1 {
        let reached = Found { reach: before.reach.insert(name, start), ..before };
        lemma_code_found(data, ranges, name, reached, code_at(data, symbols[s], start), i, at);
    } else {
        assert(less[s] == symbols[s]);
        law_every_jump_is_found(
            data,
            ranges,
            only_mutate,
            avoid_mutating,
            less,
            s,
            start,
            i,
            at,
        );
        lemma_symbol_keeps(data, ranges, only_mutate, avoid_mutating, before, symbols.last());
        assert(before.functions[name].contains(at));
    }
}

/// Whether a jump is one that stands there in the code of a function.
pub open spec fn is_jump_in(
    data: Seq<u8>,
    ranges: Seq<(u64, u64, u64)>,
    code: Seq<(u64, usize, bool, Seq<char>)>,
    at: usize,
    opcode: Seq<char>,
    bytes: Seq<u8>,
) -> bool {
    exists|i: int|
        0 <= i < code.len() && is_jump_at(data, ranges, #[trigger] code[i], at) && is_lowered(
            opcode,
            code[i].3,
        ) && bytes == data.subrange(at as int, at + code[i].1)
}

proof fn lemma_code_from(
    data: Seq<u8>,
    ranges: Seq<(u64, u64, u64)>,
    function: Seq<char>,
    found: Found,
    code: Seq<(u64, usize, bool, Seq<char>)>,
    at: usize,
)
    ensures
        ({
            let all = with_instructions(data, ranges, function, found, code);
            all.jumps.contains_key(at) ==> {
                ||| found.jumps.contains_key(at) && all.jumps[at] == found.jumps[at]
                ||| all.jumps[at].function == function && is_jump_in(
                    data,
                    ranges,
                    code,
                    at,
                    all.jumps[at].opcode,
                    all.jumps[at].bytes,
                )
            }
        }),
    decreases code.len(),
{
    if code.len() > 0 {
        let less = code.drop_last();
        let last = code.last();
        lemma_code_from(data, ranges, function, found, less, at);
        let before = with_instructions(data, ranges, function, found, less);
        let all = with_instructions(data, ranges, function, found, code);
        if all.jumps.contains_key(at) {
            if before.jumps.contains_key(at) && all.jumps[at] == before.jumps[at] {
                if is_jump_in(data, ranges, less, at, before.jumps[at].opcode, before.jumps[at].bytes) {
                    let i = choose|i: int|
                        0 <= i < less.len() && is_jump_at(data, ranges, #[trigger] less[i], at)
                            && is_lowered(before.jumps[at].opcode, less[i].3)
                            && before.jumps[at].bytes == data.subrange(at as int, at + less[i].1);
                    assert(code[i] == less[i]);
                }
            } else {
                law_nothing_else_has_a_name(last.3);
                let k = condition_names().index_of(last.3);
                law_every_condition_has_a_name(k);
                assert(code[code.len() - 1] == last);
                assert(is_jump_at(data, ranges, code[code.len() - 1], at));
            }
        }
    }
}

/// Nothing else is found: every jump is one that stands there in a function that may be changed,
/// under the name of its operation, with the bytes of the file and the name of the function.
pub proof fn law_only_jumps_are_found(
    data: Seq<u8>,
    ranges: Seq<(u64, u64, u64)>,
    only_mutate: Seq<Seq<char>>,
    avoid_mutating: Seq<Seq<char>>,
    symbols: Seq<(bool, u64, u64, Option<Seq<char>>)>,
    at: usize,
)
    requires
        with_symbols(data, ranges, only_mutate, avoid_mutating, symbols).jumps.contains_key(at),
    ensures
        ({
            let jump = with_symbols(data, ranges, only_mutate, avoid_mutating, symbols).jumps[at];
            exists|s: int, start: usize|
                0 <= s < symbols.len() && #[trigger] is_function_at(
                    ranges,
                    symbols[s],
                    start,
                ) && jump.function == function_name(symbols[s].3) && is_included(
                    jump.function,
                    only_mutate,
                    avoid_mutating,
                ) && start + symbols[s].2 <= data.len() && is_jump_in(
                    data,
                    ranges,
                    code_at(data, symbols[s], start),
                    at,
                    jump.opcode,
                    jump.bytes,
                )
        }),
    decreases symbols.len(),
{
    let less = symbols.drop_last();
    let last = symbols.last();
    let before = with_symbols(data, ranges, only_mutate, avoid_mutating, less);
    let all = with_symbols(data, ranges, only_mutate, avoid_mutating, symbols);
    let jump = all.jumps[at];
    let name = function_name(last.3);
    if before.jumps.contains_key(at) && jump == before.jumps[at] {
        law_only_jumps_are_found(data, ranges, only_mutate, avoid_mutating, less, at);
        let (s, start) = choose|s: int, start: usize|
            0 <= s < less.len() && #[trigger] is_function_at(ranges, less[s], start)
                && jump.function == function_name(less[s].3) && is_included(
                jump.function,
                only_mutate,
                avoid_mutating,
            ) && start + less[s].2 <= data.len() && is_jump_in(
                data,
                ranges,
                code_at(data, less[s], start),
                at,
                jump.opcode,
                jump.bytes,
            );
        assert(symbols[s] == less[s]);
        assert(is_function_at(ranges, symbols[s], start));
    } else {
        let start = offset_from(ranges, 0, last.1)->0;
        let reached = Found { reach: before.reach.insert(name, start), ..before };
        lemma_code_from(data, ranges, name, reached, code_at(data, last, start), at);
        assert(symbols[symbols.len() - 1] == last);
        assert(is_function_at(ranges, symbols[symbols.len() - 1], start));
    }
}

/// Every function is noted that stands in the file, whether it may be changed or not, with the place
/// at which the last of that name begins.
pub proof fn law_every_function_is_noted(
    data: Seq<u8>,
    ranges: Seq<(u64, u64, u64)>,
    only_mutate: Seq<Seq<char>>,
    avoid_mutating: Seq<Seq<char>>,
    symbols: Seq<(bool, u64, u64, Option<Seq<char>>)>,
    s: int,
    start: usize,
)
    requires
        0 <= s < symbols.len(),
        is_function_at(ranges, symbols[s], start),
        forall|k: int, other: usize|
            s < k < symbols.len() && #[trigger] is_function_at(ranges, symbols[k], other)
                ==> function_name(symbols[k].3) != function_name(symbols[s].3),
    ensures
        ({
            let reach = with_symbols(data, ranges, only_mutate, avoid_mutating, symbols).reach;
            &&& reach.contains_key(function_name(symbols[s].3))
            &&& reach[function_name(symbols[s].3)] == start
        }),
    decreases symbols.len(),
{
    let less = symbols.drop_last();
    let last = symbols.last();
    let before = with_symbols(data, ranges, only_mutate, avoid_mutating, less);
    let name = function_name(last.3);
    assert(symbols[symbols.len() - 1] == last);
    if let Some(offset) = offset_from(ranges, 0, last.1) {
        let reached = Found { reach: before.reach.insert(name, offset), ..before };
        lemma_code_keeps(data, ranges, name, reached, code_at(data, last, offset));
        assert(last.0 && last.2 > 0 ==> is_function_at(
            ranges,
            symbols[symbols.len() - 1],
            offset,
        ));
    }
    if s < symbols.len() - 1 {
        assert(less[s] == symbols[s]);
        assert forall|k: int, other: usize|
            s < k < less.len() && #[trigger] is_function_at(ranges, less[k], other) implies
            function_name(less[k].3) != function_name(less[s].3) by {
            assert(symbols[k] == less[k]);
            assert(is_function_at(ranges, symbols[k], other));
        }
        law_every_function_is_noted(data, ranges, only_mutate, avoid_mutating, less, s, start);
    }
}

/// A pattern is told to be of no use if and only if it was given and no name has it as a part. The
/// order of the patterns is kept.
pub proof fn law_useless_patterns_are_told(patterns: Seq<Seq<char>>, names: Seq<Seq<char>>)
    ensures
        unmatched(patterns, names) == patterns.filter(
            |p: Seq<char>| forall|n: Seq<char>| names.contains(n) ==> !#[trigger] text_contains(n, p),
        ),
    decreases patterns.len(),
{
    let is_useless = |p: Seq<char>|
        forall|n: Seq<char>| names.contains(n) ==> !#[trigger] text_contains(n, p);
    reveal(Seq::filter);
    if patterns.len() > 0 {
        law_useless_patterns_are_told(patterns.drop_last(), names);
        let p = patterns.last();
        if occurs_in_one(p, names) {
            let i = choose|i: int| 0 <= i < names.len() && text_contains(#[trigger] names[i], p);
            assert(names.contains(names[i]));
            assert(!is_useless(p));
        } else {
            assert forall|n: Seq<char>| names.contains(n) implies !#[trigger] text_contains(
                n,
                p,
            ) by {
                let i = names.index_of(n);
                assert(!text_contains(names[i], p));
            }
            assert(is_useless(p));
        }
    }
}

/// A symbol that is a function lies at its place, counted from the base of the binary; its kind, its
/// size and its name stay as they are.
pub proof fn law_symbols_lie_at_their_places(
    symbols: Seq<(usize, bool, u64, Option<Seq<char>>)>,
    places: Seq<Option<u64>>,
    base: u64,
    i: int,
    place: u64,
)
    requires
        0 <= i < symbols.len(),
        addresses_fit(symbols, places, base),
        symbols[i].1,
        symbols[i].2 > 0,
        places[i] == Some(place),
    ensures
        located(symbols, places, base).len() == symbols.len(),
        located(symbols, places, base)[i].0,
        located(symbols, places, base)[i].1 == base + place,
        located(symbols, places, base)[i].2 == symbols[i].2,
        located(symbols, places, base)[i].3 == symbols[i].3,
{
    assert(is_function(symbols[i]));
}

} // verus!
