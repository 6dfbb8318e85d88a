//! Finding the conditional jumps of a binary.

use crate::coverage::text_option;
use crate::ordered::{keys, Key, SortedMap};
use crate::symbols::{demangle_name, demangled};
use crate::text::{contains, starts_with, text_contains, text_eq, text_starts_with, texts};
use iced_x86::{Decoder, DecoderOptions, FlowControl};
use object::read::coff::ImageSymbol;
use object::{Object, ObjectSection, ObjectSymbol, SymbolIndex, SymbolKind};
use vstd::prelude::*;

verus! {

/// What the names of functions of the instrumentation and of the runtime contain.
pub open spec fn filter_patterns() -> Seq<Seq<char>> {
    seq![
        "__afl"@,
        "__asan"@,
        "__ubsan"@,
        "__sanitizer"@,
        "__lsan"@,
        "__sancov"@,
        "AFL_"@,
        "std::"@,
        "core::"@,
        "alloc::"@,
        "__rust_"@,
        "rust_begin_unwind"@,
        "libfuzzer_sys::"@,
        "arbitrary::"@,
        "Fuzz"@,
        "fuzz"@,
        "asan"@,
        "ubsan"@,
        "sanitizer"@,
        "interceptor"@,
        "Interceptor"@,
        "assert"@,
        "printf"@,
        "memcpy"@,
        "memset"@,
        "memcmp"@,
        "strcmp"@,
        "strcpy"@,
        "register_tm_clones"@,
        "_init"@,
        "_cxx_global"@,
    ]
}

/// Whether a text contains one of the patterns.
pub open spec fn contains_one(name: Seq<char>, patterns: Seq<Seq<char>>) -> bool {
    exists|i: int| 0 <= i < patterns.len() && text_contains(name, #[trigger] patterns[i])
}

fn filter_list() -> (r: Vec<&'static str>)
    ensures
        r@.len() == filter_patterns().len(),
        forall|i: int| 0 <= i < r@.len() ==> (#[trigger] r@[i])@ == filter_patterns()[i],
{
    vec![
        "__afl",
        "__asan",
        "__ubsan",
        "__sanitizer",
        "__lsan",
        "__sancov",
        "AFL_",
        "std::",
        "core::",
        "alloc::",
        "__rust_",
        "rust_begin_unwind",
        "libfuzzer_sys::",
        "arbitrary::",
        "Fuzz",
        "fuzz",
        "asan",
        "ubsan",
        "sanitizer",
        "interceptor",
        "Interceptor",
        "assert",
        "printf",
        "memcpy",
        "memset",
        "memcmp",
        "strcmp",
        "strcpy",
        "register_tm_clones",
        "_init",
        "_cxx_global",
    ]
}

/// Whether a function belongs to the instrumentation or to the runtime.
pub fn should_filter(name: &str) -> (r: bool)
    ensures
        r == contains_one(name@, filter_patterns()),
{
    let patterns = filter_list();
    let n = patterns.len();
    let mut i: usize = 0;
    while i < n
        invariant
            n == patterns@.len() == filter_patterns().len(),
            forall|k: int|
                0 <= k < patterns@.len() ==> (#[trigger] patterns@[k])@ == filter_patterns()[k],
            i <= n,
            forall|k: int| 0 <= k < i ==> !text_contains(name@, #[trigger] filter_patterns()[k]),
        decreases n - i,
    {
        assert(patterns@[i as int]@ == filter_patterns()[i as int]);
        if contains(name, patterns[i]) {
            return true;
        }
        i = i + 1;
    }
    false
}

fn contains_any(name: &str, patterns: &[String]) -> (r: bool)
    ensures
        r == contains_one(name@, texts(patterns@)),
{
    let n = patterns.len();
    let mut i: usize = 0;
    while i < n
        invariant
            n == patterns@.len(),
            i <= n,
            forall|k: int| 0 <= k < i ==> !text_contains(name@, #[trigger] texts(patterns@)[k]),
        decreases n - i,
    {
        assert(texts(patterns@)[i as int] == patterns@[i as int]@);
        if contains(name, patterns[i].as_str()) {
            return true;
        }
        i = i + 1;
    }
    false
}

/// Whether the jumps of a function may be changed.
pub open spec fn is_included(
    name: Seq<char>,
    only_mutate: Seq<Seq<char>>,
    avoid_mutating: Seq<Seq<char>>,
) -> bool {
    &&& !contains_one(name, filter_patterns())
    &&& !contains_one(name, avoid_mutating)
    &&& only_mutate.len() == 0 || contains_one(name, only_mutate)
}

pub fn should_include(name: &str, only_mutate: &[String], avoid_mutating: &[String]) -> (r: bool)
    ensures
        r == is_included(name@, texts(only_mutate@), texts(avoid_mutating@)),
{
    if should_filter(name) {
        return false;
    }
    if contains_any(name, avoid_mutating) {
        return false;
    }
    if only_mutate.len() > 0 {
        return contains_any(name, only_mutate);
    }
    true
}

/// A conditional jump of a binary.
pub struct JumpInfo {
    /// The name of the operation, such as "je".
    pub opcode: String,
    /// The bytes of the instruction.
    pub hex_data: Vec<u8>,
    /// The function that the jump belongs to.
    pub function_name: String,
    /// Where the instruction stands in the file.
    pub file_offset: usize,
}

/// The conditional jumps of a binary.
pub struct DisassemblyResult {
    /// The jumps, by where they stand in the file.
    pub jumps: SortedMap<usize, JumpInfo>,
    /// Where the jumps of a function stand.
    pub function_map: SortedMap<String, Vec<usize>>,
    /// Where a function begins.
    pub function_reach: SortedMap<String, usize>,
}

/// Why a binary could not be searched for jumps.
#[derive(Clone, Copy, Debug, PartialEq, Eq, Structural)]
pub enum BinaryError {
    /// The file has no known format.
    Unparsable,
    /// A function of the file lies beyond the addresses that there are.
    AddressTooLarge,
}

impl BinaryError {
    pub fn message(self) -> (r: &'static str)
        ensures
            r@ == match self {
                BinaryError::Unparsable => "failed to parse binary"@,
                BinaryError::AddressTooLarge => "a function of the binary has no 64-bit address"@,
            },
    {
        match self {
            BinaryError::Unparsable => "failed to parse binary",
            BinaryError::AddressTooLarge => "a function of the binary has no 64-bit address",
        }
    }
}

/// A section of a binary.
pub struct SectionInfo {
    /// The name, where it can be read.
    pub name: Option<String>,
    pub address: u64,
    /// Where the section begins in the file, if it stands in the file.
    pub file_offset: Option<u64>,
    pub size: u64,
}

/// A symbol of a binary.
pub struct SymbolInfo {
    /// Whether the symbol stands for code.
    pub is_text: bool,
    pub address: u64,
    pub size: u64,
    /// The name, where it can be read.
    pub name: Option<String>,
}

/// A symbol of a binary, without its address.
pub struct SymbolEntry {
    /// The number of the symbol in its table.
    pub index: usize,
    /// Whether the symbol stands for code.
    pub is_text: bool,
    pub size: u64,
    /// The name, where it can be read.
    pub name: Option<String>,
}

/// An instruction.
pub struct InstructionInfo {
    pub address: u64,
    /// How many bytes it has.
    pub len: usize,
    /// Whether it is a conditional branch.
    pub is_conditional: bool,
    /// The name of the operation.
    pub mnemonic: String,
}

pub open spec fn name_view(name: Option<String>) -> Option<Seq<char>> {
    match name {
        Some(name) => Some(name@),
        None => None,
    }
}

impl View for SectionInfo {
    type V = (Option<Seq<char>>, u64, Option<u64>, u64);

    open spec fn view(&self) -> (Option<Seq<char>>, u64, Option<u64>, u64) {
        (name_view(self.name), self.address, self.file_offset, self.size)
    }
}

impl View for SymbolInfo {
    type V = (bool, u64, u64, Option<Seq<char>>);

    open spec fn view(&self) -> (bool, u64, u64, Option<Seq<char>>) {
        (self.is_text, self.address, self.size, name_view(self.name))
    }
}

impl View for SymbolEntry {
    type V = (usize, bool, u64, Option<Seq<char>>);

    open spec fn view(&self) -> (usize, bool, u64, Option<Seq<char>>) {
        (self.index, self.is_text, self.size, name_view(self.name))
    }
}

impl View for InstructionInfo {
    type V = (u64, usize, bool, Seq<char>);

    open spec fn view(&self) -> (u64, usize, bool, Seq<char>) {
        (self.address, self.len, self.is_conditional, self.mnemonic@)
    }
}

pub open spec fn section_views(v: Seq<SectionInfo>) -> Seq<
    (Option<Seq<char>>, u64, Option<u64>, u64),
> {
    Seq::new(v.len(), |i: int| v[i]@)
}

pub open spec fn symbol_views(v: Seq<SymbolInfo>) -> Seq<(bool, u64, u64, Option<Seq<char>>)> {
    Seq::new(v.len(), |i: int| v[i]@)
}

pub open spec fn entry_views(v: Seq<SymbolEntry>) -> Seq<(usize, bool, u64, Option<Seq<char>>)> {
    Seq::new(v.len(), |i: int| v[i]@)
}

pub open spec fn instruction_views(v: Seq<InstructionInfo>) -> Seq<(u64, usize, bool, Seq<char>)> {
    Seq::new(v.len(), |i: int| v[i]@)
}

/// The sections and the symbols of a binary, and the address that the places of its symbols count
/// from, if it has a known format.
pub uninterp spec fn object_parts(data: Seq<u8>) -> Option<
    (
        Seq<(Option<Seq<char>>, u64, Option<u64>, u64)>,
        Seq<(usize, bool, u64, Option<Seq<char>>)>,
        u64,
    ),
>;

/// The place of the symbol with that number in a binary, if it has one.
pub uninterp spec fn symbol_place(data: Seq<u8>, index: usize) -> Option<u64>;

/// `object::Error`.
#[verifier::external_type_specification]
#[verifier::external_body]
pub struct ExObjectError(object::Error);

/// `object::File::parse` reads a binary, its `sections` and `symbols` list what is in it, and its
/// `relative_address_base` is the base of a PE image and 0 in other formats. All depend on the bytes
/// alone, and are named here.
#[verifier::external_body]
fn read_object(data: &[u8]) -> (r: Result<
    (Vec<SectionInfo>, Vec<SymbolEntry>, u64),
    object::Error,
>)
    ensures
        r is Ok <==> object_parts(data@) is Some,
        r is Ok ==> object_parts(data@) == Some(
            (section_views(r->Ok_0.0@), entry_views(r->Ok_0.1@), r->Ok_0.2),
        ),
{
    let file = object::File::parse(data)?;
    let sections = file.sections().map(|s| SectionInfo {
        name: s.name().ok().map(String::from),
        address: s.address(),
        file_offset: s.file_range().map(|r| r.0),
        size: s.size(),
    });
    let symbols = file.symbols().map(|s| SymbolEntry {
        index: s.index().0,
        is_text: s.kind() == SymbolKind::Text,
        size: s.size(),
        name: s.name().ok().map(String::from),
    });
    Ok((sections.collect(), symbols.collect(), file.relative_address_base()))
}

/// The places of symbols of a binary that `object::File::parse` reads. In a PE image that is what
/// `ImageSymbol::address` gives for an image at 0, a sum of two numbers of 32 bits; in the other
/// formats it is the `address`, which the file holds as it is. It depends on the bytes and the
/// number of the symbol alone, and is named here.
#[verifier::external_body]
fn read_places(data: &[u8], indexes: &Vec<usize>) -> (r: Result<Vec<Option<u64>>, object::Error>)
    ensures
        r is Ok <==> object_parts(data@) is Some,
        r is Ok ==> r->Ok_0@.len() == indexes@.len(),
        r is Ok ==> forall|k: int|
            0 <= k < indexes@.len() ==> #[trigger] r->Ok_0@[k] == symbol_place(data@, indexes@[k]),
{
    let file = object::File::parse(data)?;
    Ok(indexes.iter().map(|n| SymbolIndex(*n)).map(|n| match &file {
        object::File::Pe32(f) => {
            f.symbol_by_index(n).ok()?.coff_symbol().address(0, &f.section_table()).ok()?
        },
        object::File::Pe64(f) => {
            f.symbol_by_index(n).ok()?.coff_symbol().address(0, &f.section_table()).ok()?
        },
        f => f.symbol_by_index(n).ok().map(|s| s.address()),
    }).collect())
}

/// The instructions in a piece of 64-bit code that begins at an address.
pub uninterp spec fn decoded(code: Seq<u8>, address: u64) -> Seq<(u64, usize, bool, Seq<char>)>;

/// `iced_x86::Decoder` decodes instructions until the code ends. Each takes at least one byte.
/// Which they are depends on the code and its address alone, and is named here.
#[verifier::external_body]
fn decode(code: &[u8], address: u64) -> (r: Vec<InstructionInfo>)
    ensures
        instruction_views(r@) == decoded(code@, address),
        forall|i: int| 0 <= i < r@.len() ==> (#[trigger] r@[i]).len > 0,
{
    let mut decoder = Decoder::with_ip(64, code, address, DecoderOptions::NONE);
    decoder.iter().map(|i| InstructionInfo {
        address: i.ip(),
        len: i.len(),
        is_conditional: i.flow_control() == FlowControl::ConditionalBranch,
        mnemonic: format!("{:?}", i.mnemonic()),
    }).collect()
}

/// The name of a conditional jump, given the name of its operation.
pub open spec fn opcode_of(mnemonic: Seq<char>) -> Option<Seq<char>> {
    if mnemonic == "Je"@ {
        Some("je"@)
    } else if mnemonic == "Jne"@ {
        Some("jne"@)
    } else if mnemonic == "Jl"@ {
        Some("jl"@)
    } else if mnemonic == "Jle"@ {
        Some("jle"@)
    } else if mnemonic == "Jg"@ {
        Some("jg"@)
    } else if mnemonic == "Jge"@ {
        Some("jge"@)
    } else if mnemonic == "Jb"@ {
        Some("jb"@)
    } else if mnemonic == "Jbe"@ {
        Some("jbe"@)
    } else if mnemonic == "Ja"@ {
        Some("ja"@)
    } else if mnemonic == "Jae"@ {
        Some("jae"@)
    } else if mnemonic == "Js"@ {
        Some("js"@)
    } else if mnemonic == "Jns"@ {
        Some("jns"@)
    } else if mnemonic == "Jo"@ {
        Some("jo"@)
    } else if mnemonic == "Jno"@ {
        Some("jno"@)
    } else if mnemonic == "Jp"@ {
        Some("jp"@)
    } else if mnemonic == "Jnp"@ {
        Some("jnp"@)
    } else {
        None
    }
}

pub fn jump_opcode_name(mnemonic: &str) -> (r: Option<&'static str>)
    ensures
        text_option(r) == opcode_of(mnemonic@),
{
    if text_eq(mnemonic, "Je") {
        Some("je")
    } else if text_eq(mnemonic, "Jne") {
        Some("jne")
    } else if text_eq(mnemonic, "Jl") {
        Some("jl")
    } else if text_eq(mnemonic, "Jle") {
        Some("jle")
    } else if text_eq(mnemonic, "Jg") {
        Some("jg")
    } else if text_eq(mnemonic, "Jge") {
        Some("jge")
    } else if text_eq(mnemonic, "Jb") {
        Some("jb")
    } else if text_eq(mnemonic, "Jbe") {
        Some("jbe")
    } else if text_eq(mnemonic, "Ja") {
        Some("ja")
    } else if text_eq(mnemonic, "Jae") {
        Some("jae")
    } else if text_eq(mnemonic, "Js") {
        Some("js")
    } else if text_eq(mnemonic, "Jns") {
        Some("jns")
    } else if text_eq(mnemonic, "Jo") {
        Some("jo")
    } else if text_eq(mnemonic, "Jno") {
        Some("jno")
    } else if text_eq(mnemonic, "Jp") {
        Some("jp")
    } else if text_eq(mnemonic, "Jnp") {
        Some("jnp")
    } else {
        None
    }
}

/// Whether a section holds code.
pub open spec fn is_code_section(name: Option<Seq<char>>) -> bool {
    match name {
        Some(name) => name == ".text"@ || text_starts_with(name, ".text."@),
        None => false,
    }
}

/// The address, the place in the file, and the size of each section that holds code.
pub open spec fn code_ranges(
    sections: Seq<(Option<Seq<char>>, u64, Option<u64>, u64)>,
) -> Seq<(u64, u64, u64)>
    decreases sections.len(),
{
    if sections.len() == 0 {
        Seq::empty()
    } else {
        let s = sections.last();
        let before = code_ranges(sections.drop_last());
        if is_code_section(s.0) {
            before.push((s.1, match s.2 {
                Some(offset) => offset,
                None => 0,
            }, s.3))
        } else {
            before
        }
    }
}

/// Where an address from the ranges on, the first that holds it, stands in the file. A place
/// beyond what can be addressed is none.
pub open spec fn offset_from(ranges: Seq<(u64, u64, u64)>, from: int, address: u64) -> Option<usize>
    decreases ranges.len() - from,
{
    if from >= ranges.len() {
        None
    } else {
        let r = ranges[from];
        if r.0 <= address < r.0 + r.2 {
            let offset = r.1 + (address - r.0);
            if offset <= usize::MAX {
                Some(offset as usize)
            } else {
                None
            }
        } else {
            offset_from(ranges, from + 1, address)
        }
    }
}

fn collect_code_ranges(sections: &[SectionInfo]) -> (r: Vec<(u64, u64, u64)>)
    ensures
        r@ == code_ranges(section_views(sections@)),
{
    let ghost all = section_views(sections@);
    let n = sections.len();
    let mut out: Vec<(u64, u64, u64)> = Vec::new();
    let mut i: usize = 0;
    while i < n
        invariant
            all == section_views(sections@),
            n == sections@.len(),
            i <= n,
            out@ == code_ranges(all.take(i as int)),
        decreases n - i,
    {
        let section = &sections[i];
        assert(all.take(i + 1).drop_last() =~= all.take(i as int));
        assert(all[i as int] == section@);
        if let Some(name) = &section.name {
            if text_eq(name.as_str(), ".text") || starts_with(name.as_str(), ".text.") {
                let offset = match section.file_offset {
                    Some(offset) => offset,
                    None => 0,
                };
                out.push((section.address, offset, section.size));
            }
        }
        i = i + 1;
    }
    assert(all.take(n as int) =~= all);
    out
}

fn file_offset(ranges: &Vec<(u64, u64, u64)>, address: u64) -> (r: Option<usize>)
    ensures
        r == offset_from(ranges@, 0, address),
{
    let n = ranges.len();
    let mut i: usize = 0;
    while i < n
        invariant
            n == ranges@.len(),
            i <= n,
            offset_from(ranges@, i as int, address) == offset_from(ranges@, 0, address),
        decreases n - i,
    {
        let (start, offset, size) = ranges[i];
        if address >= start && address - start < size {
            let inside: u64 = address - start;
            return match offset.checked_add(inside) {
                Some(sum) => if sum as u128 <= usize::MAX as u128 {
                    Some(sum as usize)
                } else {
                    None
                },
                None => None,
            };
        }
        i = i + 1;
    }
    None
}

/// A jump: the name of the operation, its bytes, and the function that it belongs to.
pub struct JumpModel {
    pub opcode: Seq<char>,
    pub bytes: Seq<u8>,
    pub function: Seq<char>,
}

/// What has been found in a binary.
#[verifier::ext_equal]
pub struct Found {
    pub jumps: Map<usize, JumpModel>,
    pub functions: Map<Seq<char>, Seq<usize>>,
    pub reach: Map<Seq<char>, usize>,
}

pub open spec fn nothing_found() -> Found {
    Found { jumps: Map::empty(), functions: Map::empty(), reach: Map::empty() }
}

/// The jumps of a function that have been found.
pub open spec fn found_in(functions: Map<Seq<char>, Seq<usize>>, name: Seq<char>) -> Seq<usize> {
    if functions.contains_key(name) {
        functions[name]
    } else {
        Seq::empty()
    }
}

/// What is known after one more instruction of a function.
pub open spec fn with_instruction(
    data: Seq<u8>,
    ranges: Seq<(u64, u64, u64)>,
    function: Seq<char>,
    found: Found,
    instruction: (u64, usize, bool, Seq<char>),
) -> Found {
    let opcode = opcode_of(instruction.3);
    let offset = offset_from(ranges, 0, instruction.0);
    if instruction.2 && opcode is Some && offset is Some && offset->0 + instruction.1 <= data.len() {
        Found {
            jumps: found.jumps.insert(
                offset->0,
                JumpModel {
                    opcode: opcode->0,
                    bytes: data.subrange(offset->0 as int, offset->0 + instruction.1),
                    function,
                },
            ),
            functions: found.functions.insert(
                function,
                found_in(found.functions, function).push(offset->0),
            ),
            reach: found.reach,
        }
    } else {
        found
    }
}

pub open spec fn with_instructions(
    data: Seq<u8>,
    ranges: Seq<(u64, u64, u64)>,
    function: Seq<char>,
    found: Found,
    code: Seq<(u64, usize, bool, Seq<char>)>,
) -> Found
    decreases code.len(),
{
    if code.len() == 0 {
        found
    } else {
        with_instruction(
            data,
            ranges,
            function,
            with_instructions(data, ranges, function, found, code.drop_last()),
            code.last(),
        )
    }
}

/// The readable name of a symbol.
pub open spec fn function_name(raw: Option<Seq<char>>) -> Seq<char> {
    demangled(match raw {
        Some(raw) => raw,
        None => "<unknown>"@,
    })
}

/// What is known after one more symbol. Every function is noted that stands in the file; the jumps
/// are those of the functions that may be changed.
pub open spec fn with_symbol(
    data: Seq<u8>,
    ranges: Seq<(u64, u64, u64)>,
    only_mutate: Seq<Seq<char>>,
    avoid_mutating: Seq<Seq<char>>,
    found: Found,
    symbol: (bool, u64, u64, Option<Seq<char>>),
) -> Found {
    let name = function_name(symbol.3);
    match offset_from(ranges, 0, symbol.1) {
        Some(offset) if symbol.0 && symbol.2 > 0 => {
            let reached = Found { reach: found.reach.insert(name, offset), ..found };
            if is_included(name, only_mutate, avoid_mutating) && offset + symbol.2 <= data.len() {
                with_instructions(
                    data,
                    ranges,
                    name,
                    reached,
                    decoded(data.subrange(offset as int, offset + symbol.2), symbol.1),
                )
            } else {
                reached
            }
        },
        _ => found,
    }
}

pub open spec fn with_symbols(
    data: Seq<u8>,
    ranges: Seq<(u64, u64, u64)>,
    only_mutate: Seq<Seq<char>>,
    avoid_mutating: Seq<Seq<char>>,
    symbols: Seq<(bool, u64, u64, Option<Seq<char>>)>,
) -> Found
    decreases symbols.len(),
{
    if symbols.len() == 0 {
        nothing_found()
    } else {
        with_symbol(
            data,
            ranges,
            only_mutate,
            avoid_mutating,
            with_symbols(data, ranges, only_mutate, avoid_mutating, symbols.drop_last()),
            symbols.last(),
        )
    }
}

/// Whether a result says what has been found.
pub open spec fn tells(result: DisassemblyResult, found: Found) -> bool {
    &&& forall|k: usize| #[trigger]
        result.jumps@.contains_key(k) <==> found.jumps.contains_key(k)
    &&& forall|k: usize| #[trigger]
        result.jumps@.contains_key(k) ==> {
            let jump = result.jumps@[k];
            &&& jump.file_offset == k
            &&& jump.opcode@ == found.jumps[k].opcode
            &&& jump.hex_data@ == found.jumps[k].bytes
            &&& jump.function_name@ == found.jumps[k].function
        }
    &&& forall|n: Seq<char>| #[trigger]
        result.function_map@.contains_key(n) <==> found.functions.contains_key(n)
    &&& forall|n: Seq<char>| #[trigger]
        result.function_map@.contains_key(n) ==> result.function_map@[n]@ == found.functions[n]
    &&& result.function_reach@ == found.reach
}

/// Every jump that was found has bytes.
pub open spec fn jumps_ok(result: DisassemblyResult) -> bool {
    forall|k: usize| #[trigger]
        result.jumps@.contains_key(k) ==> result.jumps@[k].hex_data@.len() > 0
}

/// Every jump that was found stands under its place in the file.
pub open spec fn places_ok(result: DisassemblyResult) -> bool {
    forall|k: usize| #[trigger]
        result.jumps@.contains_key(k) ==> result.jumps@[k].file_offset == k
}

/// What a result says.
pub open spec fn told(result: DisassemblyResult) -> Found {
    Found {
        jumps: result.jumps@.map_values(
            |jump: JumpInfo|
                JumpModel {
                    opcode: jump.opcode@,
                    bytes: jump.hex_data@,
                    function: jump.function_name@,
                },
        ),
        functions: result.function_map@.map_values(|jumps: Vec<usize>| jumps@),
        reach: result.function_reach@,
    }
}

/// A result says one thing.
proof fn lemma_told(result: DisassemblyResult, found: Found)
    ensures
        tells(result, found) <==> places_ok(result) && found == told(result),
{
    if tells(result, found) {
        assert forall|k: usize| #[trigger] found.jumps.contains_key(k) <==> told(
            result,
        ).jumps.contains_key(k) by {
            assert(result.jumps@.contains_key(k) <==> found.jumps.contains_key(k));
        }
        assert forall|k: usize| #[trigger] found.jumps.contains_key(k) implies found.jumps[k]
            == told(result).jumps[k] by {
            assert(result.jumps@.contains_key(k));
        }
        assert(found.jumps =~= told(result).jumps);
        assert forall|n: Seq<char>| #[trigger] found.functions.contains_key(n) <==> told(
            result,
        ).functions.contains_key(n) by {
            assert(result.function_map@.contains_key(n) <==> found.functions.contains_key(n));
        }
        assert forall|n: Seq<char>| #[trigger] found.functions.contains_key(n) implies
            found.functions[n] == told(result).functions[n] by {
            assert(result.function_map@.contains_key(n));
        }
        assert(found.functions =~= told(result).functions);
        assert(found =~= told(result));
    }
}

/// The bytes from one place to another.
fn copy_bytes(data: &[u8], start: usize, end: usize) -> (r: Vec<u8>)
    requires
        start <= end <= data@.len(),
    ensures
        r@ == data@.subrange(start as int, end as int),
{
    let mut out: Vec<u8> = Vec::new();
    let mut i: usize = start;
    while i < end
        invariant
            start <= i <= end <= data@.len(),
            out@ == data@.subrange(start as int, i as int),
        decreases end - i,
    {
        out.push(data[i]);
        assert(data@.subrange(start as int, i + 1) =~= data@.subrange(start as int, i as int).push(
            data@[i as int],
        ));
        i = i + 1;
    }
    out
}

/// Takes note of one more jump of a function.
fn note_jump(function_map: &mut SortedMap<String, Vec<usize>>, name: &String, offset: usize)
    ensures
        forall|n: Seq<char>| #[trigger]
            final(function_map)@.contains_key(n) <==> old(function_map)@.contains_key(n) || n
                == name@,
        forall|n: Seq<char>|
            n != name@ && #[trigger] final(function_map)@.contains_key(n)
                ==> final(function_map)@[n] == old(function_map)@[n],
        final(function_map)@[name@]@ == (if old(function_map)@.contains_key(name@) {
            old(function_map)@[name@]@
        } else {
            Seq::empty()
        }).push(offset),
{
    let mut list: Vec<usize> = Vec::new();
    if let Some(known) = function_map.get(name) {
        let n = known.len();
        let mut i: usize = 0;
        while i < n
            invariant
                n == known@.len(),
                i <= n,
                list@ == known@.take(i as int),
            decreases n - i,
        {
            list.push(known[i]);
            assert(known@.take(i + 1) =~= known@.take(i as int).push(known@[i as int]));
            i = i + 1;
        }
        assert(known@.take(n as int) =~= known@);
    }
    list.push(offset);
    function_map.insert(name.clone(), list);
}

/// Adds the jumps among the instructions of a function. `ranges` is where the code stands: its
/// address, its place in the file and its size.
pub fn add_instructions(
    data: &[u8],
    ranges: &Vec<(u64, u64, u64)>,
    name: &String,
    code: &Vec<InstructionInfo>,
    result: &mut DisassemblyResult,
)
    requires
        jumps_ok(*old(result)),
        places_ok(*old(result)),
        forall|i: int| 0 <= i < code@.len() ==> (#[trigger] code@[i]).len > 0,
    ensures
        told(*final(result)) == with_instructions(
            data@,
            ranges@,
            name@,
            told(*old(result)),
            instruction_views(code@),
        ),
        jumps_ok(*final(result)),
        places_ok(*final(result)),
{
    let ghost found = told(*result);
    proof {
        lemma_told(*result, found);
    }
    let ghost all = instruction_views(code@);
    let n = code.len();
    let mut i: usize = 0;
    assert(all.take(0).len() == 0);
    while i < n
        invariant
            all == instruction_views(code@),
            n == code@.len(),
            forall|k: int| 0 <= k < code@.len() ==> (#[trigger] code@[k]).len > 0,
            i <= n,
            tells(
                *result,
                with_instructions(data@, ranges@, name@, found, all.take(i as int)),
            ),
            jumps_ok(*result),
        decreases n - i,
    {
        let instruction = &code[i];
        let ghost before = with_instructions(data@, ranges@, name@, found, all.take(i as int));
        let ghost after = with_instructions(data@, ranges@, name@, found, all.take(i + 1));
        let ghost result0 = *result;
        assert(all.take(i + 1).drop_last() =~= all.take(i as int));
        assert(all[i as int] == instruction@);
        assert(after == with_instruction(data@, ranges@, name@, before, instruction@));
        i = i + 1;
        if instruction.is_conditional {
            if let Some(opcode) = jump_opcode_name(instruction.mnemonic.as_str()) {
                if let Some(offset) = file_offset(ranges, instruction.address) {
                    if offset <= data.len() && instruction.len <= data.len() - offset {
                        let end: usize = offset + instruction.len;
                        let bytes = copy_bytes(data, offset, end);
                        let jump = JumpInfo {
                            opcode: opcode.to_owned(),
                            hex_data: bytes,
                            function_name: name.clone(),
                            file_offset: offset,
                        };
                        result.jumps.insert(offset, jump);
                        note_jump(&mut result.function_map, name, offset);
                        proof {
                            assert(offset.key() == offset);
                            lemma_tells_jump(result0, before, *result, after, offset, name@);
                        }
                    }
                }
            }
        }
    }
    assert(all.take(n as int) =~= all);
    proof {
        lemma_told(*result, with_instructions(data@, ranges@, name@, found, all));
    }
}

proof fn lemma_tells_jump(
    result0: DisassemblyResult,
    before: Found,
    result: DisassemblyResult,
    after: Found,
    offset: usize,
    name: Seq<char>,
)
    requires
        tells(result0, before),
        jumps_ok(result0),
        after.reach == before.reach,
        result.function_reach == result0.function_reach,
        after.jumps == before.jumps.insert(offset, after.jumps[offset]),
        result.jumps@ == result0.jumps@.insert(offset, result.jumps@[offset]),
        result.jumps@[offset].file_offset == offset,
        result.jumps@[offset].opcode@ == after.jumps[offset].opcode,
        result.jumps@[offset].hex_data@ == after.jumps[offset].bytes,
        result.jumps@[offset].hex_data@.len() > 0,
        result.jumps@[offset].function_name@ == after.jumps[offset].function,
        after.functions == before.functions.insert(
            name,
            found_in(before.functions, name).push(offset),
        ),
        forall|n: Seq<char>| #[trigger]
            result.function_map@.contains_key(n) <==> result0.function_map@.contains_key(n) || n
                == name,
        forall|n: Seq<char>|
            n != name && #[trigger] result.function_map@.contains_key(n)
                ==> result.function_map@[n] == result0.function_map@[n],
        result.function_map@[name]@ == (if result0.function_map@.contains_key(name) {
            result0.function_map@[name]@
        } else {
            Seq::empty()
        }).push(offset),
    ensures
        tells(result, after),
        jumps_ok(result),
{
    assert forall|k: usize| #[trigger] result.jumps@.contains_key(k) implies {
        let jump = result.jumps@[k];
        &&& after.jumps.contains_key(k)
        &&& jump.file_offset == k
        &&& jump.opcode@ == after.jumps[k].opcode
        &&& jump.hex_data@ == after.jumps[k].bytes
        &&& jump.function_name@ == after.jumps[k].function
        &&& jump.hex_data@.len() > 0
    } by {
        if k != offset {
            assert(result0.jumps@.contains_key(k));
        }
    }
    assert forall|k: usize| #[trigger] result.jumps@.contains_key(k) <==> after.jumps.contains_key(
        k,
    ) by {
        assert(result0.jumps@.contains_key(k) <==> before.jumps.contains_key(k));
    }
    assert forall|n: Seq<char>| #[trigger]
        result.function_map@.contains_key(n) <==> after.functions.contains_key(n) by {
        assert(result0.function_map@.contains_key(n) <==> before.functions.contains_key(n));
    }
    assert forall|n: Seq<char>| #[trigger]
        result.function_map@.contains_key(n) implies result.function_map@[n]@
        == after.functions[n] by {
        assert(result0.function_map@.contains_key(n) <==> before.functions.contains_key(n));
        if result0.function_map@.contains_key(n) {
            assert(result0.function_map@[n]@ == before.functions[n]);
        }
    }
}

/// Finds the conditional jumps of the functions that may be changed, given what the binary holds.
pub fn find_jumps(
    binary_data: &[u8],
    sections: &[SectionInfo],
    symbols: &[SymbolInfo],
    only_mutate: &[String],
    avoid_mutating: &[String],
) -> (r: DisassemblyResult)
    ensures
        tells(
            r,
            with_symbols(
                binary_data@,
                code_ranges(section_views(sections@)),
                texts(only_mutate@),
                texts(avoid_mutating@),
                symbol_views(symbols@),
            ),
        ),
        jumps_ok(r),
{
    let ranges = collect_code_ranges(sections);
    let mut result = DisassemblyResult {
        jumps: SortedMap::new(),
        function_map: SortedMap::new(),
        function_reach: SortedMap::new(),
    };
    let ghost all = symbol_views(symbols@);
    let ghost (data, only, avoid) = (binary_data@, texts(only_mutate@), texts(avoid_mutating@));
    let n = symbols.len();
    let mut i: usize = 0;
    assert(all.take(0).len() == 0);
    while i < n
        invariant
            all == symbol_views(symbols@),
            (data, only, avoid) == (binary_data@, texts(only_mutate@), texts(avoid_mutating@)),
            n == symbols@.len(),
            i <= n,
            tells(result, with_symbols(data, ranges@, only, avoid, all.take(i as int))),
            jumps_ok(result),
        decreases n - i,
    {
        let symbol = &symbols[i];
        let ghost before = with_symbols(data, ranges@, only, avoid, all.take(i as int));
        assert(all.take(i + 1).drop_last() =~= all.take(i as int));
        assert(all[i as int] == symbol@);
        i = i + 1;
        if symbol.is_text && symbol.size > 0 {
            if let Some(offset) = file_offset(&ranges, symbol.address) {
                let name = match &symbol.name {
                    Some(raw) => demangle_name(raw.as_str()),
                    None => demangle_name("<unknown>"),
                };
                assert(name@ == function_name(symbol@.3));
                result.function_reach.insert(name.clone(), offset);
                let ghost reached = Found { reach: before.reach.insert(name@, offset), ..before };
                assert(tells(result, reached));
                if should_include(name.as_str(), only_mutate, avoid_mutating) && offset
                    <= binary_data.len() && symbol.size as u128 <= (binary_data.len() - offset)
                    as u128 {
                    let end: usize = offset + symbol.size as usize;
                    let code = copy_bytes(binary_data, offset, end);
                    let instructions = decode(code.as_slice(), symbol.address);
                    proof {
                        lemma_told(result, reached);
                    }
                    add_instructions(binary_data, &ranges, &name, &instructions, &mut result);
                    proof {
                        lemma_told(result, told(result));
                    }
                }
            }
        }
    }
    assert(all.take(n as int) =~= all);
    result
}

/// Whether a symbol stands for a piece of code.
pub open spec fn is_function(symbol: (usize, bool, u64, Option<Seq<char>>)) -> bool {
    symbol.1 && symbol.2 > 0
}

/// The address of a symbol, which may be beyond what a number of 64 bits can say.
pub open spec fn address_of(place: Option<u64>, base: u64) -> int {
    match place {
        Some(place) => base + place,
        None => 0,
    }
}

/// Whether every function has an address of 64 bits.
pub open spec fn addresses_fit(
    symbols: Seq<(usize, bool, u64, Option<Seq<char>>)>,
    places: Seq<Option<u64>>,
    base: u64,
) -> bool {
    forall|i: int|
        0 <= i < symbols.len() && is_function(#[trigger] symbols[i]) ==> address_of(places[i], base)
            <= u64::MAX
}

/// The symbols with their addresses. Symbols that are no functions need none.
pub open spec fn located(
    symbols: Seq<(usize, bool, u64, Option<Seq<char>>)>,
    places: Seq<Option<u64>>,
    base: u64,
) -> Seq<(bool, u64, u64, Option<Seq<char>>)> {
    Seq::new(
        symbols.len(),
        |i: int|
            (
                symbols[i].1,
                if is_function(symbols[i]) {
                    address_of(places[i], base) as u64
                } else {
                    0
                },
                symbols[i].2,
                symbols[i].3,
            ),
    )
}

/// Finds the addresses of symbols, given their places and what these count from. There are none
/// where a function would lie beyond the last address.
pub fn locate_symbols(symbols: Vec<SymbolEntry>, places: &Vec<Option<u64>>, base: u64) -> (r: Option<
    Vec<SymbolInfo>,
>)
    requires
        symbols@.len() == places@.len(),
    ensures
        r is Some <==> addresses_fit(entry_views(symbols@), places@, base),
        r is Some ==> symbol_views(r->0@) == located(entry_views(symbols@), places@, base),
{
    let ghost all = entry_views(symbols@);
    let n = symbols.len();
    let mut out: Vec<SymbolInfo> = Vec::new();
    let mut i: usize = 0;
    while i < n
        invariant
            all == entry_views(symbols@),
            n == symbols@.len() == places@.len(),
            i <= n,
            out@.len() == i,
            forall|k: int|
                0 <= k < i && is_function(#[trigger] all[k]) ==> address_of(places@[k], base)
                    <= u64::MAX,
            forall|k: int|
                0 <= k < i ==> (#[trigger] out@[k])@ == located(all, places@, base)[k],
        decreases n - i,
    {
        let symbol = &symbols[i];
        assert(all[i as int] == symbol@);
        let address: u64 = if symbol.is_text && symbol.size > 0 {
            match places[i] {
                Some(place) => match base.checked_add(place) {
                    Some(address) => address,
                    None => {
                        assert(is_function(all[i as int]));
                        return None;
                    },
                },
                None => 0,
            }
        } else {
            0
        };
        let name = match &symbol.name {
            Some(name) => Some(name.clone()),
            None => None,
        };
        out.push(SymbolInfo { is_text: symbol.is_text, address, size: symbol.size, name });
        i = i + 1;
    }
    assert(symbol_views(out@) =~= located(all, places@, base));
    Some(out)
}

/// The places of the symbols of a binary.
pub open spec fn symbol_places(
    data: Seq<u8>,
    symbols: Seq<(usize, bool, u64, Option<Seq<char>>)>,
) -> Seq<Option<u64>> {
    Seq::new(symbols.len(), |i: int| symbol_place(data, symbols[i].0))
}

/// Whether a function of a binary has no address of 64 bits.
pub open spec fn is_too_large(data: Seq<u8>) -> bool {
    match object_parts(data) {
        Some((_, symbols, base)) => !addresses_fit(symbols, symbol_places(data, symbols), base),
        None => false,
    }
}

/// The symbols of a binary with their addresses.
pub open spec fn object_symbols(data: Seq<u8>) -> Seq<(bool, u64, u64, Option<Seq<char>>)> {
    let (_, symbols, base) = object_parts(data)->0;
    located(symbols, symbol_places(data, symbols), base)
}

fn indexes_of(symbols: &Vec<SymbolEntry>) -> (r: Vec<usize>)
    ensures
        r@ == Seq::new(symbols@.len(), |i: int| symbols@[i].index),
{
    let n = symbols.len();
    let mut out: Vec<usize> = Vec::new();
    let mut i: usize = 0;
    while i < n
        invariant
            n == symbols@.len(),
            i <= n,
            out@ == Seq::new(i as nat, |k: int| symbols@[k].index),
        decreases n - i,
    {
        out.push(symbols[i].index);
        i = i + 1;
        assert(out@ =~= Seq::new(i as nat, |k: int| symbols@[k].index));
    }
    out
}

/// Finds the conditional jumps of a binary in the functions that may be changed.
pub fn get_jumps(
    binary_data: &[u8],
    only_mutate: &[String],
    avoid_mutating: &[String],
) -> (r: Result<DisassemblyResult, BinaryError>)
    ensures
        r == Err::<DisassemblyResult, BinaryError>(BinaryError::Unparsable) <==> object_parts(
            binary_data@,
        ) is None,
        r == Err::<DisassemblyResult, BinaryError>(BinaryError::AddressTooLarge) <==> is_too_large(
            binary_data@,
        ),
        r is Ok ==> jumps_ok(r->Ok_0) && tells(
            r->Ok_0,
            with_symbols(
                binary_data@,
                code_ranges((object_parts(binary_data@)->0).0),
                texts(only_mutate@),
                texts(avoid_mutating@),
                object_symbols(binary_data@),
            ),
        ),
{
    let (sections, entries, base) = match read_object(binary_data) {
        Ok(parts) => parts,
        Err(_) => return Err(BinaryError::Unparsable),
    };
    let indexes = indexes_of(&entries);
    let places = match read_places(binary_data, &indexes) {
        Ok(places) => places,
        Err(_) => return Err(BinaryError::Unparsable),
    };
    assert(places@ =~= symbol_places(binary_data@, entry_views(entries@)));
    match locate_symbols(entries, &places, base) {
        Some(symbols) => Ok(
            find_jumps(
                binary_data,
                sections.as_slice(),
                symbols.as_slice(),
                only_mutate,
                avoid_mutating,
            ),
        ),
        None => Err(BinaryError::AddressTooLarge),
    }
}

/// Those of the patterns that occur in none of the names.
pub open spec fn unmatched(patterns: Seq<Seq<char>>, names: Seq<Seq<char>>) -> Seq<Seq<char>>
    decreases patterns.len(),
{
    if patterns.len() == 0 {
        Seq::empty()
    } else {
        let before = unmatched(patterns.drop_last(), names);
        if occurs_in_one(patterns.last(), names) {
            before
        } else {
            before.push(patterns.last())
        }
    }
}

pub open spec fn occurs_in_one(pattern: Seq<char>, names: Seq<Seq<char>>) -> bool {
    exists|i: int| 0 <= i < names.len() && text_contains(#[trigger] names[i], pattern)
}

/// The patterns that match no name among the keys.
fn unmatched_patterns<V>(patterns: &[String], names: &SortedMap<String, V>) -> (r: Vec<String>)
    ensures
        texts(r@) == unmatched(texts(patterns@), keys(names.seq())),
{
    let ghost all = texts(patterns@);
    let ghost known = keys(names.seq());
    let n = patterns.len();
    let m = names.len();
    let mut out: Vec<String> = Vec::new();
    let mut i: usize = 0;
    assert(all.take(0).len() == 0);
    assert(texts(out@) =~= Seq::empty());
    while i < n
        invariant
            all == texts(patterns@),
            known == keys(names.seq()),
            n == patterns@.len(),
            m == known.len(),
            i <= n,
            texts(out@) == unmatched(all.take(i as int), known),
        decreases n - i,
    {
        let pattern = &patterns[i];
        assert(all[i as int] == pattern@);
        assert(all.take(i + 1).drop_last() =~= all.take(i as int));
        let mut matched = false;
        let mut j: usize = 0;
        while j < m
            invariant
                known == keys(names.seq()),
                m == known.len(),
                j <= m,
                matched == exists|k: int|
                    0 <= k < j && text_contains(#[trigger] known[k], pattern@),
            decreases m - j,
        {
            if contains(names.key_at(j).as_str(), pattern.as_str()) {
                assert(text_contains(known[j as int], pattern@));
                matched = true;
            }
            j = j + 1;
        }
        if !matched {
            let ghost out0 = out@;
            out.push(pattern.clone());
            assert(texts(out@) =~= texts(out0).push(pattern@));
        }
        i = i + 1;
    }
    assert(all.take(n as int) =~= all);
    out
}

/// The patterns for functions to change that match no function with a jump.
pub fn unmatched_only_mutate(result: &DisassemblyResult, only_mutate: &[String]) -> (r: Vec<String>)
    ensures
        texts(r@) == unmatched(texts(only_mutate@), keys(result.function_map.seq())),
{
    unmatched_patterns(only_mutate, &result.function_map)
}

/// The patterns for functions to leave alone that match no function.
pub fn unmatched_avoid_mutating(
    result: &DisassemblyResult,
    avoid_mutating: &[String],
) -> (r: Vec<String>)
    ensures
        texts(r@) == unmatched(texts(avoid_mutating@), keys(result.function_reach.seq())),
{
    unmatched_patterns(avoid_mutating, &result.function_reach)
}

} // verus!
