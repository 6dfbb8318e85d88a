use cargo_fuzz_core::mutfuzz::disassemble::{
    add_instructions, find_jumps, get_jumps, jump_opcode_name, locate_symbols, should_filter,
    should_include, unmatched_avoid_mutating, unmatched_only_mutate, BinaryError,
    DisassemblyResult, InstructionInfo, SectionInfo, SymbolEntry, SymbolInfo,
};
use cargo_fuzz_core::mutfuzz::mutate::{
    apply_mutation, create_mutant, different_jump, is_near_jump, is_short_cond_jump,
    jump_for_draws, keep_mutation, mutation_for_draws, near_flip, short_flip, MutationRecord,
    Numbers, Visited, NEAR_JMP, NOP, SHORT_JMP,
};
use cargo_fuzz_core::ordered::SortedMap;
use rand::rngs::StdRng;
use rand::SeedableRng;

#[test]
fn test_should_filter() {
    assert!(should_filter("__asan_init"));
    assert!(should_filter("std::vec::Vec"));
    assert!(should_filter("core::ptr::drop_in_place"));
    assert!(!should_filter("my_function"));
}

#[test]
fn test_should_include_with_patterns() {
    let only: Vec<String> = vec!["my_mod".to_string()];
    let avoid: Vec<String> = vec![];
    assert!(should_include("my_mod::func", &only, &avoid));
    assert!(!should_include("other_mod::func", &only, &avoid));

    let only2: Vec<String> = vec![];
    let avoid2: Vec<String> = vec!["skip_me".to_string()];
    assert!(!should_include("skip_me::func", &only2, &avoid2));
    assert!(should_include("keep_me::func", &only2, &avoid2));
}

#[test]
fn a_pattern_to_avoid_counts_more_than_one_to_change() {
    let only: Vec<String> = vec!["my_mod".to_string()];
    let avoid: Vec<String> = vec!["func".to_string()];
    assert!(!should_include("my_mod::func", &only, &avoid));
    assert!(should_include("my_mod::other", &only, &avoid));
    assert!(!should_include("std::my_mod::other", &only, &avoid));
}

#[test]
fn test_short_flip_symmetry() {
    for byte in 0x70..=0x7Fu8 {
        if let Some(flipped) = short_flip(byte) {
            assert_eq!(short_flip(flipped), Some(byte));
        }
    }
}

#[test]
fn test_near_flip_symmetry() {
    for byte in 0x80..=0x8Fu8 {
        if let Some(flipped) = near_flip(byte) {
            assert_eq!(near_flip(flipped), Some(byte));
        }
    }
}

#[test]
fn flips_are_those_of_the_opposite_condition() {
    assert_eq!(short_flip(0x74), Some(0x75));
    assert_eq!(short_flip(0x7E), Some(0x7F));
    assert_eq!(short_flip(0xEB), None);
    assert_eq!(near_flip(0x84), Some(0x85));
    assert_eq!(near_flip(0x8C), Some(0x8D));
    assert_eq!(near_flip(0x74), None);
}

#[test]
fn test_different_jump_short() {
    let mut rng = StdRng::from_entropy();
    let hex_data = vec![0x74, 0x10];
    let result = different_jump(&hex_data, &mut rng);
    assert_eq!(result.len(), hex_data.len());
}

#[test]
fn test_different_jump_near() {
    let mut rng = StdRng::from_entropy();
    let hex_data = vec![0x0F, 0x84, 0x00, 0x01, 0x00, 0x00];
    let result = different_jump(&hex_data, &mut rng);
    assert_eq!(result.len(), hex_data.len());
}

#[test]
fn test_nop_preserves_length() {
    let hex_data = vec![0x74, 0x05];
    let nops = vec![NOP; hex_data.len()];
    assert_eq!(nops.len(), 2);
}

#[test]
fn a_changed_jump_is_a_different_one() {
    let mut rng = StdRng::seed_from_u64(7);
    let short: Vec<u8> = vec![0x74, 0x10];
    let near: Vec<u8> = vec![0x0F, 0x84, 0x00, 0x01, 0x00, 0x00];
    for _ in 0..200 {
        let a = different_jump(&short, &mut rng);
        assert_eq!(a.len(), 2);
        assert_ne!(a, short);
        let b = different_jump(&near, &mut rng);
        assert_eq!(b.len(), 6);
        assert_ne!(b, near);
    }
}

#[test]
fn the_draws_decide_how_a_jump_is_changed() {
    let short: Vec<u8> = vec![0x74, 0x10];
    let near: Vec<u8> = vec![0x0F, 0x84, 1, 2, 3, 4];
    assert_eq!(jump_for_draws(&short, 0, 0, 0, 0), vec![0x75, 0x10]);
    assert_eq!(jump_for_draws(&near, 0, 0, 0, 0), vec![0x0F, 0x85, 1, 2, 3, 4]);
    assert_eq!(jump_for_draws(&short, u64::MAX, 0, 0, 0), vec![NOP, NOP]);
    assert_eq!(jump_for_draws(&short, u64::MAX, u64::MAX, 0, 0), vec![SHORT_JMP, 0x10]);
    assert_eq!(
        jump_for_draws(&near, u64::MAX, u64::MAX, 0, 0),
        vec![NOP, NEAR_JMP, 1, 2, 3, 4]
    );
    assert_eq!(
        jump_for_draws(&short, u64::MAX, u64::MAX, u64::MAX, 0),
        vec![0x70, 0x10]
    );
    assert_eq!(
        jump_for_draws(&short, u64::MAX, u64::MAX, u64::MAX, 4),
        vec![0x75, 0x10]
    );
    assert_eq!(
        jump_for_draws(&near, u64::MAX, u64::MAX, u64::MAX, 14),
        vec![0x0F, 0x8F, 1, 2, 3, 4]
    );
}

#[test]
fn forms_of_jumps_are_told_apart() {
    assert!(is_near_jump(&[0x0F, 0x84]));
    assert!(!is_near_jump(&[0x0F]));
    assert!(!is_near_jump(&[0x74, 0x10]));
    assert!(is_short_cond_jump(0x70));
    assert!(is_short_cond_jump(0x7F));
    assert!(!is_short_cond_jump(0x80));
}

#[test]
fn a_mutation_stays_within_the_binary_and_can_be_undone() {
    let mut binary: Vec<u8> = vec![1, 2, 3, 4, 5];
    apply_mutation(&mut binary, 1, &vec![9, 9]);
    assert_eq!(binary, vec![1, 9, 9, 4, 5]);
    apply_mutation(&mut binary, 1, &vec![2, 3]);
    assert_eq!(binary, vec![1, 2, 3, 4, 5]);
    apply_mutation(&mut binary, 4, &vec![7, 8]);
    assert_eq!(binary, vec![1, 2, 3, 4, 7]);
    apply_mutation(&mut binary, 9, &vec![7, 8]);
    assert_eq!(binary, vec![1, 2, 3, 4, 7]);
}

#[test]
fn visited_mutations_are_counted() {
    let mut visited = Visited::new();
    assert_eq!(visited.record(4, &vec![0x75]), 1);
    assert_eq!(visited.record(4, &vec![0x75]), 2);
    assert_eq!(visited.record(5, &vec![0x75]), 1);
    assert!(!visited.claim(4, &vec![0x75]));
    assert!(visited.claim(4, &vec![0x74]));
    assert!(!visited.claim(4, &vec![0x74]));
    assert!(visited.has_room(1));
}

#[test]
fn opcodes_have_names() {
    assert_eq!(jump_opcode_name("Je"), Some("je"));
    assert_eq!(jump_opcode_name("Jnp"), Some("jnp"));
    assert_eq!(jump_opcode_name("Jmp"), None);
    assert_eq!(jump_opcode_name("Jrcxz"), None);
}

fn put(out: &mut Vec<u8>, value: u64, bytes: usize) {
    for i in 0..bytes {
        out.push((value >> (8 * i)) as u8);
    }
}

/// A 64-bit ELF file with code at 0x1000, which stands at the offset 64 of the file, and with
/// functions: name, place in the code, and size.
fn elf(code: &[u8], functions: &[(&str, u64, u64)]) -> Vec<u8> {
    let mut names: Vec<u8> = vec![0];
    let mut symbols: Vec<u8> = vec![0; 24];
    for (name, at, size) in functions {
        put(&mut symbols, names.len() as u64, 4);
        symbols.push(0x12);
        symbols.push(0);
        put(&mut symbols, 1, 2);
        put(&mut symbols, 0x1000 + at, 8);
        put(&mut symbols, *size, 8);
        names.extend_from_slice(name.as_bytes());
        names.push(0);
    }
    let section_names: &[u8] = b"\0.text\0.symtab\0.strtab\0.shstrtab\0";
    let symbols_at = 64 + code.len() as u64;
    let names_at = symbols_at + symbols.len() as u64;
    let section_names_at = names_at + names.len() as u64;
    let headers_at = section_names_at + section_names.len() as u64;

    let mut out: Vec<u8> = vec![0x7f, b'E', b'L', b'F', 2, 1, 1, 0, 0, 0, 0, 0, 0, 0, 0, 0];
    put(&mut out, 2, 2);
    put(&mut out, 62, 2);
    put(&mut out, 1, 4);
    put(&mut out, 0, 8);
    put(&mut out, 0, 8);
    put(&mut out, headers_at, 8);
    put(&mut out, 0, 4);
    put(&mut out, 64, 2);
    put(&mut out, 0, 2);
    put(&mut out, 0, 2);
    put(&mut out, 64, 2);
    put(&mut out, 5, 2);
    put(&mut out, 4, 2);
    out.extend_from_slice(code);
    out.extend_from_slice(&symbols);
    out.extend_from_slice(&names);
    out.extend_from_slice(section_names);
    let sections: [[u64; 10]; 5] = [
        [0; 10],
        [1, 1, 6, 0x1000, 64, code.len() as u64, 0, 0, 1, 0],
        [7, 2, 0, 0, symbols_at, symbols.len() as u64, 3, 1, 8, 24],
        [15, 3, 0, 0, names_at, names.len() as u64, 0, 0, 1, 0],
        [23, 3, 0, 0, section_names_at, section_names.len() as u64, 0, 0, 1, 0],
    ];
    for s in sections.iter() {
        let widths: [usize; 10] = [4, 4, 8, 8, 8, 8, 4, 4, 8, 8];
        for (value, width) in s.iter().zip(widths.iter()) {
            put(&mut out, *value, *width);
        }
    }
    out
}

/// A 64-bit PE image with a base and a section with code at 0x1000 from there, which stands at the
/// offset 0x200 of the file, and with one symbol at the beginning of the code: a function of `size`
/// bytes, or data where that is 0.
fn pe(base: u64, code: &[u8], size: u64) -> Vec<u8> {
    let symbols_at = 0x200 + code.len() as u64;
    let mut out: Vec<u8> = vec![b'M', b'Z'];
    out.resize(0x3C, 0);
    put(&mut out, 0x40, 4);
    out.extend_from_slice(b"PE\0\0");
    put(&mut out, 0x8664, 2);
    put(&mut out, 1, 2);
    put(&mut out, 0, 4);
    put(&mut out, symbols_at, 4);
    put(&mut out, if size > 0 { 2 } else { 1 }, 4);
    put(&mut out, 112, 2);
    put(&mut out, 0x22, 2);
    let header = out.len();
    put(&mut out, 0x20B, 2);
    out.resize(header + 24, 0);
    put(&mut out, base, 8);
    put(&mut out, 0x1000, 4);
    put(&mut out, 0x200, 4);
    out.resize(header + 112, 0);
    out.extend_from_slice(b".text\0\0\0");
    put(&mut out, code.len() as u64, 4);
    put(&mut out, 0x1000, 4);
    put(&mut out, code.len() as u64, 4);
    put(&mut out, 0x200, 4);
    put(&mut out, 0, 8);
    put(&mut out, 0, 4);
    put(&mut out, 0x6000_0020, 4);
    out.resize(0x200, 0);
    out.extend_from_slice(code);
    out.extend_from_slice(b"symbol\0\0");
    put(&mut out, 0, 4);
    put(&mut out, 1, 2);
    put(&mut out, if size > 0 { 0x20 } else { 0 }, 2);
    out.push(2);
    out.push(if size > 0 { 1 } else { 0 });
    if size > 0 {
        put(&mut out, 0, 4);
        put(&mut out, size, 4);
        put(&mut out, 0, 8);
        put(&mut out, 0, 2);
    }
    put(&mut out, 4, 4);
    out
}

#[test]
fn jumps_are_found_in_an_image_with_a_base() {
    let code = [0x74, 0x01, 0x90, 0xC3];
    for base in [0, 0x1_4000_0000, u64::MAX - 0x2000] {
        let result = get_jumps(&pe(base, &code, 4), &[], &[]).ok().unwrap();
        assert_eq!(offsets(&result), vec![0x200]);
        assert_eq!(result.function_reach.get(&"symbol".to_string()), Some(&0x200));
    }
    let beyond = get_jumps(&pe(u64::MAX - 0xFFE, &code, 4), &[], &[]);
    assert!(matches!(beyond, Err(BinaryError::AddressTooLarge)));
    assert_eq!(
        BinaryError::AddressTooLarge.message(),
        "a function of the binary has no 64-bit address"
    );
    let data = get_jumps(&pe(u64::MAX - 0xFFE, &code, 0), &[], &[]).ok().unwrap();
    assert_eq!(offsets(&data), Vec::<usize>::new());
    assert_eq!(data.function_reach.len(), 0);
}

#[test]
fn symbols_get_their_addresses() {
    let entry = |is_text: bool, size: u64| SymbolEntry {
        index: 1,
        is_text,
        size,
        name: Some("f".to_string()),
    };
    let located = locate_symbols(
        vec![entry(true, 4), entry(true, 4), entry(false, 4), entry(true, 0)],
        &vec![Some(3), None, Some(u64::MAX), Some(u64::MAX)],
        7,
    );
    let located = located.unwrap();
    let addresses: Vec<u64> = located.iter().map(|s| s.address).collect();
    assert_eq!(addresses, vec![10, 0, 0, 0]);
    assert!(locate_symbols(vec![entry(true, 4)], &vec![Some(u64::MAX)], 1).is_none());
}

fn sample() -> Vec<u8> {
    // first: je, nop, ret; second: nop, near jne, ret; third: je, ret
    let code: Vec<u8> = vec![
        0x74, 0x01, 0x90, 0xC3, 0x90, 0x0F, 0x85, 0x00, 0x00, 0x00, 0x00, 0xC3, 0x74, 0x00, 0xC3,
    ];
    elf(
        &code,
        &[("first", 0, 4), ("second", 4, 8), ("std::third", 12, 3)],
    )
}

fn offsets(result: &DisassemblyResult) -> Vec<usize> {
    (0..result.jumps.len()).map(|i| *result.jumps.key_at(i)).collect()
}

#[test]
fn jumps_are_found_in_a_binary() {
    let binary = sample();
    let result = match get_jumps(&binary, &[], &[]) {
        Ok(result) => result,
        Err(e) => panic!("{}", e.message()),
    };
    assert_eq!(offsets(&result), vec![64, 69]);
    let je = result.jumps.get(&64).unwrap();
    assert_eq!(je.opcode, "je");
    assert_eq!(je.hex_data, vec![0x74, 0x01]);
    assert_eq!(je.function_name, "first");
    assert_eq!(je.file_offset, 64);
    let jne = result.jumps.get(&69).unwrap();
    assert_eq!(jne.opcode, "jne");
    assert_eq!(jne.hex_data, vec![0x0F, 0x85, 0, 0, 0, 0]);
    assert_eq!(result.function_map.len(), 2);
    assert_eq!(result.function_map.get(&"second".to_string()), Some(&vec![69]));
    assert_eq!(result.function_reach.len(), 3);
    assert_eq!(result.function_reach.get(&"std::third".to_string()), Some(&76));
}

#[test]
fn patterns_restrict_the_jumps_that_are_found() {
    let binary = sample();
    let first: Vec<String> = vec!["first".to_string(), "nowhere".to_string()];
    let only = get_jumps(&binary, &first, &[]).ok().unwrap();
    assert_eq!(offsets(&only), vec![64]);
    assert_eq!(unmatched_only_mutate(&only, &first), vec!["nowhere".to_string()]);
    let avoid = get_jumps(&binary, &[], &first).ok().unwrap();
    assert_eq!(offsets(&avoid), vec![69]);
    assert_eq!(unmatched_avoid_mutating(&avoid, &first), vec!["nowhere".to_string()]);
}

#[test]
fn what_is_no_binary_is_refused() {
    let r = get_jumps(b"not a binary", &[], &[]);
    assert!(matches!(r, Err(BinaryError::Unparsable)));
    assert_eq!(BinaryError::Unparsable.message(), "failed to parse binary");
}

#[test]
fn symbols_outside_of_the_code_are_left_out() {
    let data: Vec<u8> = vec![0x74, 0x00, 0xC3];
    let sections = vec![SectionInfo {
        name: Some(".text.hot".to_string()),
        address: 0x10,
        file_offset: Some(0),
        size: 3,
    }];
    let symbol = |name: &str, is_text: bool, address: u64, size: u64| SymbolInfo {
        is_text,
        address,
        size,
        name: Some(name.to_string()),
    };
    let symbols = vec![
        symbol("good", true, 0x10, 3),
        symbol("data", false, 0x10, 3),
        symbol("empty", true, 0x10, 0),
        symbol("elsewhere", true, 0x20, 3),
        symbol("long", true, 0x10, 4),
    ];
    let result = find_jumps(&data, &sections, &symbols, &[], &[]);
    assert_eq!(offsets(&result), vec![0]);
    assert_eq!(result.function_map.len(), 1);
    assert_eq!(result.function_reach.len(), 2);
    assert_eq!(result.function_reach.get(&"good".to_string()), Some(&0));
    assert_eq!(result.function_reach.get(&"long".to_string()), Some(&0));
}

#[test]
fn a_mutant_differs_only_in_jumps() {
    let binary = sample();
    let disasm = get_jumps(&binary, &[], &[]).ok().unwrap();
    let mut visited = Visited::new();
    let mut rng = StdRng::seed_from_u64(1);
    for _ in 0..50 {
        let (mutant, records) =
            create_mutant(&binary, &disasm, 1, false, &mut visited, &mut rng).unwrap();
        assert_eq!(mutant.len(), binary.len());
        assert_ne!(mutant, binary);
        assert_eq!(records.len(), 1);
        let at = records[0].file_offset;
        let end = at + records[0].new_bytes.len();
        assert_eq!(&mutant[at..end], records[0].new_bytes.as_slice());
        assert_eq!(&mutant[..at], &binary[..at]);
        assert_eq!(&mutant[end..], &binary[end..]);
    }
}

#[test]
fn both_jumps_are_drawn() {
    let binary = sample();
    let disasm = get_jumps(&binary, &[], &[]).ok().unwrap();
    let mut visited = Visited::new();
    let mut rng = StdRng::seed_from_u64(3);
    let (_, records) =
        create_mutant(&binary, &disasm, 40, false, &mut visited, &mut rng).unwrap();
    assert_eq!(records.len(), 40);
    assert!(records.iter().any(|r| r.file_offset == 64 && r.function_name == "first"));
    assert!(records.iter().any(|r| r.file_offset == 69 && r.function_name == "second"));
}

#[test]
fn repeats_are_avoided_while_there_are_others() {
    let binary = sample();
    let disasm = get_jumps(&binary, &[], &[]).ok().unwrap();
    let mut visited = Visited::new();
    let mut rng = StdRng::seed_from_u64(5);
    let mut seen: Vec<(usize, Vec<u8>)> = Vec::new();
    for _ in 0..4 {
        let (_, records) =
            create_mutant(&binary, &disasm, 1, true, &mut visited, &mut rng).unwrap();
        let key = (records[0].file_offset, records[0].new_bytes.clone());
        assert!(!seen.contains(&key));
        seen.push(key);
    }
}

#[test]
fn no_mutation_is_repeated_before_all_were_made() {
    let binary = sample();
    let disasm = get_jumps(&binary, &[], &[]).ok().unwrap();
    for start in 0..20 {
        let mut visited = Visited::new();
        let mut rng = StdRng::seed_from_u64(start);
        let mut seen: Vec<(usize, Vec<u8>)> = Vec::new();
        // Each of the two jumps can get fifteen other conditions, lose its condition, or be dropped.
        for _ in 0..34 {
            let (_, records) =
                create_mutant(&binary, &disasm, 1, true, &mut visited, &mut rng).unwrap();
            let key = (records[0].file_offset, records[0].new_bytes.clone());
            assert!(!seen.contains(&key));
            seen.push(key);
        }
        let (_, records) =
            create_mutant(&binary, &disasm, 1, true, &mut visited, &mut rng).unwrap();
        assert!(seen.contains(&(records[0].file_offset, records[0].new_bytes.clone())));
    }
}

#[test]
fn the_mutations_of_a_mutant_differ() {
    let binary = sample();
    let disasm = get_jumps(&binary, &[], &[]).ok().unwrap();
    let mut visited = Visited::new();
    let mut rng = StdRng::seed_from_u64(8);
    let (_, records) =
        create_mutant(&binary, &disasm, 33, true, &mut visited, &mut rng).unwrap();
    for (i, a) in records.iter().enumerate() {
        for b in &records[..i] {
            assert!(a.file_offset != b.file_offset || a.new_bytes != b.new_bytes);
        }
    }
}

#[test]
fn the_same_seed_gives_the_same_mutants() {
    let binary = sample();
    let disasm = get_jumps(&binary, &[], &[]).ok().unwrap();
    let run = || {
        let mut visited = Visited::new();
        let mut rng = StdRng::seed_from_u64(11);
        let mut mutants: Vec<Vec<u8>> = Vec::new();
        for _ in 0..30 {
            let (mutant, _) =
                create_mutant(&binary, &disasm, 2, true, &mut visited, &mut rng).unwrap();
            mutants.push(mutant);
        }
        mutants
    };
    assert_eq!(run(), run());
}

fn mutation(file_offset: usize, new_bytes: &[u8]) -> MutationRecord {
    MutationRecord {
        function_name: "first".to_string(),
        file_offset,
        new_bytes: new_bytes.to_vec(),
    }
}

#[test]
fn a_mutation_comes_of_the_numbers_drawn() {
    let binary = sample();
    let disasm = get_jumps(&binary, &[], &[]).ok().unwrap();
    let numbers = |at: usize, first: u64, second: u64, third: u64, pick: usize| Numbers {
        at,
        first,
        second,
        third,
        pick,
    };
    let flip = mutation_for_draws(&disasm, numbers(0, 0, 0, 0, 0));
    assert_eq!((flip.file_offset, flip.function_name.as_str()), (64, "first"));
    assert_eq!(flip.new_bytes, vec![0x75, 0x01]);
    let drop = mutation_for_draws(&disasm, numbers(1, u64::MAX, 0, 0, 0));
    assert_eq!((drop.file_offset, drop.function_name.as_str()), (69, "second"));
    assert_eq!(drop.new_bytes, vec![NOP; 6]);
    let free = mutation_for_draws(&disasm, numbers(1, u64::MAX, u64::MAX, 0, 0));
    assert_eq!(free.new_bytes, vec![NOP, NEAR_JMP, 0, 0, 0, 0]);
    let other = mutation_for_draws(&disasm, numbers(1, u64::MAX, u64::MAX, u64::MAX, 5));
    assert_eq!(other.new_bytes, vec![0x0F, 0x86, 0, 0, 0, 0]);
}

#[test]
fn a_mutation_that_was_made_is_replaced() {
    let binary = sample();
    let disasm = get_jumps(&binary, &[], &[]).ok().unwrap();
    let mut visited = Visited::new();
    let flip = [0x75, 0x01];
    let nops = [NOP, NOP];
    let free = [SHORT_JMP, 0x01];

    let kept = keep_mutation(&disasm, mutation(64, &nops), vec![mutation(64, &free)], &mut visited);
    assert_eq!(kept.new_bytes, nops);
    assert!(visited.contains(64, &nops.to_vec()));
    assert!(!visited.contains(64, &free.to_vec()));

    let further = vec![mutation(64, &nops), mutation(64, &free), mutation(64, &flip)];
    let kept = keep_mutation(&disasm, mutation(64, &nops), further, &mut visited);
    assert_eq!(kept.new_bytes, free);
    assert!(visited.contains(64, &free.to_vec()));
    assert!(!visited.contains(64, &flip.to_vec()));
    assert_eq!(visited.record(64, &nops.to_vec()), 3);

    let further = vec![mutation(64, &nops), mutation(64, &free)];
    let kept = keep_mutation(&disasm, mutation(64, &nops), further, &mut visited);
    assert_eq!((kept.file_offset, kept.new_bytes.as_slice()), (64, flip.as_slice()));
    assert_eq!(kept.function_name, "first");
    assert!(visited.contains(64, &flip.to_vec()));

    for _ in 0..31 {
        keep_mutation(&disasm, mutation(64, &nops), Vec::new(), &mut visited);
    }
    let kept = keep_mutation(&disasm, mutation(64, &nops), Vec::new(), &mut visited);
    assert_eq!(kept.new_bytes, nops);
}

#[test]
fn there_is_no_mutant_without_jumps() {
    let binary = elf(&[0xC3], &[("first", 0, 1)]);
    let disasm = get_jumps(&binary, &[], &[]).ok().unwrap();
    let mut rng = StdRng::seed_from_u64(5);
    let mut visited = Visited::new();
    visited.record(4, &vec![0x75]);
    let r = create_mutant(&binary, &disasm, 1, true, &mut visited, &mut rng);
    assert!(r.is_none());
    assert_eq!(visited.record(4, &vec![0x75]), 2);
}

#[test]
fn jumps_are_taken_from_instructions() {
    let data: Vec<u8> = vec![0x90, 0x74, 0x01, 0x90, 0x0F, 0x85, 0x00, 0x00, 0x00, 0x00, 0x74];
    let instruction = |address: u64, len: usize, is_conditional: bool, name: &str| InstructionInfo {
        address,
        len,
        is_conditional,
        mnemonic: name.to_string(),
    };
    let code = vec![
        instruction(0x100, 1, false, "Nop"),
        instruction(0x101, 2, true, "Je"),
        instruction(0x103, 1, false, "Je"),
        instruction(0x104, 6, true, "Jne"),
        instruction(0x101, 2, true, "Jrcxz"),
        instruction(0x300, 2, true, "Je"),
        instruction(0x10A, 2, true, "Je"),
    ];
    let mut result = DisassemblyResult {
        jumps: SortedMap::new(),
        function_map: SortedMap::new(),
        function_reach: SortedMap::new(),
    };
    add_instructions(&data, &vec![(0x100, 0, 0x20)], &"f".to_string(), &code, &mut result);
    assert_eq!(offsets(&result), vec![1, 4]);
    assert_eq!(result.jumps.get(&1).map(|j| j.opcode.clone()), Some("je".to_string()));
    assert_eq!(result.jumps.get(&1).map(|j| j.hex_data.clone()), Some(vec![0x74, 0x01]));
    assert_eq!(result.jumps.get(&4).map(|j| j.hex_data.clone()), Some(data[4..10].to_vec()));
    assert_eq!(result.function_map.get(&"f".to_string()), Some(&vec![1, 4]));
    assert_eq!(result.function_reach.len(), 0);
}

#[test]
fn draws_keep_their_shares() {
    let tenth = |n: u64| ((n as f64 / 10.0) * 9007199254740992.0) as u64 * 2048;
    let short: Vec<u8> = vec![0x74, 0x10];
    assert_eq!(jump_for_draws(&short, tenth(7), 0, 0, 0)[0], 0x75);
    assert_eq!(jump_for_draws(&short, tenth(7) + 4096, 0, 0, 0)[0], NOP);
    assert_eq!(jump_for_draws(&short, u64::MAX, tenth(4), 0, 0)[0], NOP);
    assert_eq!(jump_for_draws(&short, u64::MAX, tenth(4) + 4096, 0, 0)[0], SHORT_JMP);
}
