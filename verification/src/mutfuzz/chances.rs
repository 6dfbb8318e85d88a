//! What the numbers that are drawn make of a jump.

use crate::mutfuzz::disassemble::DisassemblyResult;
use crate::mutfuzz::mutate::{
    changed_by, different_jump, dropped, drops, flipped, flips, frees, is_change,
    is_conditional_jump, is_counted, is_draw, is_kept, is_pick, is_search,
    law_changed_jump_differs, patched, patched_all, reconditioned, some_left, unconditional,
    was_made, Mutation, MutationRecord, Visited,
};
use rand::rngs::StdRng;
use vstd::prelude::*;

verus! {

/// The byte that holds the condition of a jump: the first of a short one, the second of a near one.
pub open spec fn condition_byte(hex: Seq<u8>) -> int {
    if hex.len() > 0 && 0x70 <= hex[0] <= 0x7F {
        0
    } else {
        1
    }
}

/// Whether the bytes begin with a byte from 0x70 to 0x7F, or with 0x0F and a byte from 0x80 to 0x8F.
pub open spec fn has_condition(hex: Seq<u8>) -> bool {
    ||| hex.len() > 0 && 0x70 <= hex[0] <= 0x7F
    ||| hex.len() > 1 && hex[0] == 0x0F && 0x80 <= hex[1] <= 0x8F
}

/// The first number decides whether a jump gets the opposite condition: the other one of the pair
/// that its condition belongs to. No other byte changes, and no other number matters.
pub proof fn law_first_number_flips(hex: Seq<u8>, first: u64, second: u64, third: u64, pick: int)
    requires
        has_condition(hex),
        10 * (first / 2048) <= 7 * 9007199254740992,
    ensures
        ({
            let new = changed_by(hex, first, second, third, pick);
            let at = condition_byte(hex);
            &&& new.len() == hex.len()
            &&& new[at] != hex[at]
            &&& new[at] / 2 == hex[at] / 2
            &&& forall|i: int| 0 <= i < hex.len() && i != at ==> #[trigger] new[i] == hex[i]
        }),
{
}

/// Where the first number does not, the second decides whether nothing is left of a jump.
pub proof fn law_second_number_drops(hex: Seq<u8>, first: u64, second: u64, third: u64, pick: int)
    requires
        has_condition(hex),
        10 * (first / 2048) > 7 * 9007199254740992,
        10 * (second / 2048) <= 4 * 9007199254740992,
    ensures
        ({
            let new = changed_by(hex, first, second, third, pick);
            &&& new.len() == hex.len()
            &&& forall|i: int| 0 <= i < hex.len() ==> #[trigger] new[i] == 0x90
        }),
{
}

/// Where the first two do not, the third number decides whether a jump loses its condition: it
/// becomes a jump of the same size to the same place.
pub proof fn law_third_number_frees(hex: Seq<u8>, first: u64, second: u64, third: u64, pick: int)
    requires
        has_condition(hex),
        10 * (first / 2048) > 7 * 9007199254740992,
        10 * (second / 2048 - 1) > 4 * 9007199254740992,
        3 * (third / 2048) <= 2 * 9007199254740992,
    ensures
        ({
            let new = changed_by(hex, first, second, third, pick);
            let at = condition_byte(hex);
            &&& new.len() == hex.len()
            &&& at == 0 ==> new[0] == 0xEB
            &&& at == 1 ==> new[0] == 0x90 && new[1] == 0xE9
            &&& forall|i: int| at < i < hex.len() ==> #[trigger] new[i] == hex[i]
        }),
{
}

/// Where none of the three does, the jump gets another condition: one of the other fifteen.
pub proof fn law_pick_chooses_condition(
    hex: Seq<u8>,
    first: u64,
    second: u64,
    third: u64,
    pick: int,
)
    requires
        has_condition(hex),
        10 * (first / 2048) > 7 * 9007199254740992,
        10 * (second / 2048 - 1) > 4 * 9007199254740992,
        3 * (third / 2048 - 1) > 2 * 9007199254740992,
        0 <= pick < 15,
    ensures
        ({
            let new = changed_by(hex, first, second, third, pick);
            let at = condition_byte(hex);
            &&& new.len() == hex.len()
            &&& new[at] != hex[at]
            &&& new[at] / 16 == hex[at] / 16
            &&& forall|i: int| 0 <= i < hex.len() && i != at ==> #[trigger] new[i] == hex[i]
        }),
{
}

/// Each of the other fifteen conditions comes of one number: of two, the greater gives the greater.
pub proof fn law_every_condition_has_its_pick(
    hex: Seq<u8>,
    first: u64,
    second: u64,
    third: u64,
    pick: int,
    other: int,
)
    requires
        has_condition(hex),
        10 * (first / 2048) > 7 * 9007199254740992,
        10 * (second / 2048 - 1) > 4 * 9007199254740992,
        3 * (third / 2048 - 1) > 2 * 9007199254740992,
        0 <= pick < other < 15,
    ensures
        changed_by(hex, first, second, third, pick)[condition_byte(hex)] < changed_by(
            hex,
            first,
            second,
            third,
            other,
        )[condition_byte(hex)],
{
}

/// What becomes of a jump is decided by numbers of the generator as it yields them: the first is the
/// next one, unaltered; the others come after it, each if the ones before leave something to decide.
/// So if the next number flips, the jump gets the opposite condition.
pub proof fn law_next_numbers_decide(hex_data: &[u8], rng: &mut StdRng, r: Vec<u8>)
    requires
        has_condition(hex_data@),
        call_ensures(different_jump, (hex_data, rng), r),
    ensures
        exists|x: &mut StdRng, first: u64, second: u64, third: u64, pick: int|
            #![trigger is_draw(x, first), changed_by(hex_data@, first, second, third, pick)]
            is_draw(x, first) && *x == *old(rng) && r@ == changed_by(
                hex_data@,
                first,
                second,
                third,
                pick,
            ) && (10 * (first / 2048) <= 7 * 9007199254740992 ==> {
                let at = condition_byte(hex_data@);
                &&& r@[at] != hex_data@[at]
                &&& r@[at] / 2 == hex_data@[at] / 2
            }) && (10 * (first / 2048) > 7 * 9007199254740992 ==> exists|y: &mut StdRng| #[trigger]
                is_draw(y, second) && *y == *final(x) && (10 * (second / 2048 - 1) > 4
                    * 9007199254740992 ==> exists|z: &mut StdRng| #[trigger]
                    is_draw(z, third) && *z == *final(y))),
{
    let hex = hex_data@;
    let (x, first) = choose|x: &mut StdRng, first: u64| #[trigger]
        is_draw(x, first) && *x == *rng && (if flips(first) {
            r@ == flipped(hex)
        } else {
            exists|y: &mut StdRng, second: u64| #[trigger]
                is_draw(y, second) && *y == *final(x) && (if drops(second) {
                    r@ == dropped(hex)
                } else {
                    exists|z: &mut StdRng, third: u64| #[trigger]
                        is_draw(z, third) && *z == *final(y) && (if frees(third) {
                            r@ == unconditional(hex)
                        } else {
                            exists|u: &mut StdRng, n: usize, pick: usize| #[trigger]
                                is_pick(u, n, pick) && r@ == reconditioned(hex, pick as int)
                        })
                })
        });
    if flips(first) {
        assert(r@ == changed_by(hex, first, 0, 0, 0));
        law_first_number_flips(hex, first, 0, 0, 0);
    } else {
        let (y, second) = choose|y: &mut StdRng, second: u64| #[trigger]
            is_draw(y, second) && *y == *final(x) && (if drops(second) {
                r@ == dropped(hex)
            } else {
                exists|z: &mut StdRng, third: u64| #[trigger]
                    is_draw(z, third) && *z == *final(y) && (if frees(third) {
                        r@ == unconditional(hex)
                    } else {
                        exists|u: &mut StdRng, n: usize, pick: usize| #[trigger]
                            is_pick(u, n, pick) && r@ == reconditioned(hex, pick as int)
                    })
            });
        if drops(second) {
            assert(r@ == changed_by(hex, first, second, 0, 0));
        } else {
            let (z, third) = choose|z: &mut StdRng, third: u64| #[trigger]
                is_draw(z, third) && *z == *final(y) && (if frees(third) {
                    r@ == unconditional(hex)
                } else {
                    exists|u: &mut StdRng, n: usize, pick: usize| #[trigger]
                        is_pick(u, n, pick) && r@ == reconditioned(hex, pick as int)
                });
            if frees(third) {
                assert(r@ == changed_by(hex, first, second, third, 0));
            } else {
                let (u, n, pick) = choose|u: &mut StdRng, n: usize, pick: usize| #[trigger]
                    is_pick(u, n, pick) && r@ == reconditioned(hex, pick as int);
                assert(r@ == changed_by(hex, first, second, third, pick as int));
            }
        }
    }
}

/// The bytes of a mutation stand in the binary, as far as it goes.
pub proof fn law_mutation_is_made(binary: Seq<u8>, offset: int, bytes: Seq<u8>, i: int)
    requires
        0 <= i < bytes.len(),
        0 <= offset + i < binary.len(),
    ensures
        patched(binary, offset, bytes)[offset + i] == bytes[i],
{
}

/// Of several mutations in one place the last counts, and each is made on what the ones before it
/// made.
pub proof fn law_mutations_follow_each_other(binary: Seq<u8>, records: Seq<MutationRecord>)
    requires
        records.len() > 0,
    ensures
        patched_all(binary, records) == patched(
            patched_all(binary, records.drop_last()),
            records.last().file_offset as int,
            records.last().new_bytes@,
        ),
        patched_all(binary, Seq::empty()) == binary,
{
}

/// A mutant is not the binary: a jump of the binary is changed.
pub proof fn law_mutant_differs(binary: Seq<u8>, offset: int, hex: Seq<u8>, new: Seq<u8>)
    requires
        0 <= offset,
        offset + hex.len() <= binary.len(),
        binary.subrange(offset, offset + hex.len()) == hex,
        is_conditional_jump(hex),
        is_change(hex, new),
    ensures
        patched(binary, offset, new) != binary,
{
    law_changed_jump_differs(hex, new);
    let mutant = patched(binary, offset, new);
    if mutant == binary {
        assert forall|i: int| 0 <= i < hex.len() implies #[trigger] new[i] == hex[i] by {
            assert(mutant[offset + i] == new[i]);
            assert(binary.subrange(offset, offset + hex.len())[i] == binary[offset + i]);
        }
        assert(new =~= hex);
    }
}

/// A mutation that was not made before is kept as it was drawn. Where there is one that was not made
/// before, the one that is kept was not either.
pub proof fn law_new_mutation_is_kept(
    disasm: DisassemblyResult,
    visited: Visited,
    first: MutationRecord,
    further: Seq<MutationRecord>,
    r: MutationRecord,
)
    requires
        is_kept(disasm, visited, first, further, r),
    ensures
        visited.count((first.file_offset, first.new_bytes@)) == 0 ==> r == first,
        some_left(disasm, visited) ==> visited.count((r.file_offset, r.new_bytes@)) == 0,
{
}

/// The search for a mutation that was not made before takes twenty draws at most, and ends as soon as
/// there is one.
pub proof fn law_search_ends(
    disasm: DisassemblyResult,
    visited: Visited,
    drawn: Seq<MutationRecord>,
    k: int,
)
    requires
        is_search(disasm, visited, drawn),
        0 <= k < drawn.len(),
    ensures
        drawn.len() <= 20,
        visited.count((drawn[k].file_offset, drawn[k].new_bytes@)) == 0 ==> k == drawn.len() - 1,
        k == drawn.len() - 1 && k < 19 ==> visited.count(
            (drawn[k].file_offset, drawn[k].new_bytes@),
        ) == 0,
{
    if k < drawn.len() - 1 {
        assert(was_made(visited, drawn[k]));
    }
}

/// What was drawn first is counted once more. What is kept is counted too, if that is another one
/// that was not made before. Nothing else is.
pub proof fn law_draws_are_counted(
    before: Visited,
    first: MutationRecord,
    r: MutationRecord,
    after: Visited,
    m: Mutation,
)
    requires
        is_counted(before, first, r, after),
        (first.file_offset, first.new_bytes@) != (r.file_offset, r.new_bytes@),
        before.count((first.file_offset, first.new_bytes@)) > 0,
        before.count((r.file_offset, r.new_bytes@)) == 0,
    ensures
        after.count((first.file_offset, first.new_bytes@)) == before.count(
            (first.file_offset, first.new_bytes@),
        ) + 1,
        after.count((r.file_offset, r.new_bytes@)) == 1,
        m != (first.file_offset, first.new_bytes@) && m != (r.file_offset, r.new_bytes@)
            ==> after.count(m) == before.count(m),
{
}

} // verus!
