//! Changing the conditional jumps of a binary.
//!
//! A conditional jump is short, one byte from 0x70 to 0x7F, or near, 0x0F and a byte from 0x80 to
//! 0x8F. What follows is where it jumps to.

use crate::mutfuzz::disassemble::{jumps_ok, DisassemblyResult, JumpInfo};
use crate::ordered::{lemma_entry, Key};
use rand::Rng;
use rand::rngs::StdRng;
use vstd::prelude::*;

verus! {

/// The short unconditional jump.
pub const SHORT_JMP: u8 = 0xEB;

/// The near unconditional jump.
pub const NEAR_JMP: u8 = 0xE9;

/// No operation.
pub const NOP: u8 = 0x90;

/// The opposite of a condition: conditions come in pairs, an even and the next odd one.
pub open spec fn opposite(byte: u8) -> u8 {
    if byte % 2 == 0 {
        (byte + 1) as u8
    } else {
        (byte - 1) as u8
    }
}

/// The short conditional jump with the opposite condition.
pub fn short_flip(byte: u8) -> (r: Option<u8>)
    ensures
        r is Some <==> 0x70 <= byte <= 0x7F,
        r is Some ==> r->0 == opposite(byte),
{
    match byte {
        0x74 => Some(0x75),
        0x75 => Some(0x74),
        0x7C => Some(0x7D),
        0x7D => Some(0x7C),
        0x7E => Some(0x7F),
        0x7F => Some(0x7E),
        0x72 => Some(0x73),
        0x73 => Some(0x72),
        0x76 => Some(0x77),
        0x77 => Some(0x76),
        0x78 => Some(0x79),
        0x79 => Some(0x78),
        0x70 => Some(0x71),
        0x71 => Some(0x70),
        0x7A => Some(0x7B),
        0x7B => Some(0x7A),
        _ => None,
    }
}

/// The second byte of the near conditional jump with the opposite condition.
pub fn near_flip(byte: u8) -> (r: Option<u8>)
    ensures
        r is Some <==> 0x80 <= byte <= 0x8F,
        r is Some ==> r->0 == opposite(byte),
{
    match byte {
        0x84 => Some(0x85),
        0x85 => Some(0x84),
        0x8C => Some(0x8D),
        0x8D => Some(0x8C),
        0x8E => Some(0x8F),
        0x8F => Some(0x8E),
        0x82 => Some(0x83),
        0x83 => Some(0x82),
        0x86 => Some(0x87),
        0x87 => Some(0x86),
        0x88 => Some(0x89),
        0x89 => Some(0x88),
        0x80 => Some(0x81),
        0x81 => Some(0x80),
        0x8A => Some(0x8B),
        0x8B => Some(0x8A),
        _ => None,
    }
}

/// Flipping a condition twice gives the condition again, and flipping once does not.
pub proof fn law_flip_twice(byte: u8)
    requires
        0x70 <= byte <= 0x8F,
    ensures
        opposite(opposite(byte)) == byte,
        opposite(byte) != byte,
        0x70 <= byte <= 0x7F <==> 0x70 <= opposite(byte) <= 0x7F,
{
}

pub open spec fn is_near(hex: Seq<u8>) -> bool {
    hex.len() >= 2 && hex[0] == 0x0F
}

pub fn is_near_jump(hex_data: &[u8]) -> (r: bool)
    ensures
        r == is_near(hex_data@),
{
    hex_data.len() >= 2 && hex_data[0] == 0x0F
}

pub fn is_short_cond_jump(byte: u8) -> (r: bool)
    ensures
        r == (0x70 <= byte <= 0x7F),
{
    0x70 <= byte && byte <= 0x7F
}

/// As many no-operations as there were bytes.
pub open spec fn dropped(hex: Seq<u8>) -> Seq<u8> {
    Seq::new(hex.len(), |i: int| NOP)
}

/// The jump with the opposite condition; nothing at all where the condition is not known.
pub open spec fn flipped(hex: Seq<u8>) -> Seq<u8> {
    if is_near(hex) {
        if 0x80 <= hex[1] <= 0x8F {
            hex.update(1, opposite(hex[1]))
        } else {
            dropped(hex)
        }
    } else if 0x70 <= hex[0] <= 0x7F {
        hex.update(0, opposite(hex[0]))
    } else {
        dropped(hex)
    }
}

/// The jump without a condition, to the same place.
pub open spec fn unconditional(hex: Seq<u8>) -> Seq<u8> {
    if is_near(hex) {
        hex.update(0, NOP).update(1, NEAR_JMP)
    } else {
        hex.update(0, SHORT_JMP)
    }
}

/// The number `pick` of the sixteen bytes from `first` on, when `without` is left out.
pub open spec fn other_byte(first: u8, without: u8, pick: int) -> u8 {
    if first <= without <= first + pick {
        (first + pick + 1) as u8
    } else {
        (first + pick) as u8
    }
}

/// How many of the sixteen bytes from `first` on there are besides `without`.
pub open spec fn other_bytes(first: u8, without: u8) -> int {
    if first <= without <= first + 15 {
        15
    } else {
        16
    }
}

/// How many other conditions a jump can get.
pub open spec fn other_count(hex: Seq<u8>) -> int {
    if is_near(hex) {
        other_bytes(0x80, hex[1])
    } else {
        other_bytes(0x70, hex[0])
    }
}

/// The jump with another condition.
pub open spec fn reconditioned(hex: Seq<u8>, pick: int) -> Seq<u8> {
    if is_near(hex) {
        hex.update(1, other_byte(0x80, hex[1], pick))
    } else {
        hex.update(0, other_byte(0x70, hex[0], pick))
    }
}

/// A random number as a multiple of 1/2^53 from 0 to 1.
pub open spec fn fraction(draw: u64) -> u64 {
    draw / 2048
}

/// Seven draws of ten flip the condition: 6305039478318694 is the number next to 2^53 * 7/10.
pub open spec fn flips(draw: u64) -> bool {
    fraction(draw) <= 6305039478318694
}

/// Four draws of ten drop the jump: 3602879701896397 is the number next to 2^53 * 4/10.
pub open spec fn drops(draw: u64) -> bool {
    fraction(draw) <= 3602879701896397
}

/// Two draws of three take the condition away: 6004799503160662 is the number next to 2^53 * 4/6.
pub open spec fn frees(draw: u64) -> bool {
    fraction(draw) <= 6004799503160662
}

/// What becomes of a jump, by the numbers that are drawn.
pub open spec fn changed_by(hex: Seq<u8>, first: u64, second: u64, third: u64, pick: int) -> Seq<
    u8,
> {
    if flips(first) {
        flipped(hex)
    } else if drops(second) {
        dropped(hex)
    } else if frees(third) {
        unconditional(hex)
    } else {
        reconditioned(hex, pick)
    }
}

/// Whether a jump can become `new`.
pub open spec fn is_change(hex: Seq<u8>, new: Seq<u8>) -> bool {
    ||| new == flipped(hex)
    ||| new == dropped(hex)
    ||| new == unconditional(hex)
    ||| exists|pick: int| 0 <= pick < other_count(hex) && new == #[trigger] reconditioned(hex, pick)
}

fn copy(hex_data: &[u8]) -> (r: Vec<u8>)
    ensures
        r@ == hex_data@,
{
    let n = hex_data.len();
    let mut out: Vec<u8> = Vec::new();
    let mut i: usize = 0;
    while i < n
        invariant
            n == hex_data@.len(),
            i <= n,
            out@ == hex_data@.take(i as int),
        decreases n - i,
    {
        out.push(hex_data[i]);
        assert(hex_data@.take(i + 1) =~= hex_data@.take(i as int).push(hex_data@[i as int]));
        i = i + 1;
    }
    assert(hex_data@.take(n as int) =~= hex_data@);
    out
}

fn drop_jump(hex_data: &[u8]) -> (r: Vec<u8>)
    ensures
        r@ == dropped(hex_data@),
{
    let r = vec![NOP; hex_data.len()];
    assert(r@ =~= dropped(hex_data@));
    r
}

fn flip_jump(hex_data: &[u8]) -> (r: Vec<u8>)
    requires
        hex_data@.len() > 0,
    ensures
        r@ == flipped(hex_data@),
{
    if is_near_jump(hex_data) {
        if let Some(byte) = near_flip(hex_data[1]) {
            let mut result = copy(hex_data);
            result.set(1, byte);
            return result;
        }
    } else if is_short_cond_jump(hex_data[0]) {
        if let Some(byte) = short_flip(hex_data[0]) {
            let mut result = copy(hex_data);
            result.set(0, byte);
            return result;
        }
    }
    drop_jump(hex_data)
}

fn free_jump(hex_data: &[u8]) -> (r: Vec<u8>)
    requires
        hex_data@.len() > 0,
    ensures
        r@ == unconditional(hex_data@),
{
    let mut result = copy(hex_data);
    if is_near_jump(hex_data) {
        result.set(0, NOP);
        result.set(1, NEAR_JMP);
    } else {
        result.set(0, SHORT_JMP);
    }
    result
}

fn count_others(hex_data: &[u8]) -> (r: usize)
    requires
        hex_data@.len() > 0,
    ensures
        r == other_count(hex_data@),
{
    let ordinary = if is_near_jump(hex_data) {
        0x80 <= hex_data[1] && hex_data[1] <= 0x8F
    } else {
        is_short_cond_jump(hex_data[0])
    };
    if ordinary {
        15
    } else {
        16
    }
}

fn recondition_jump(hex_data: &[u8], pick: usize) -> (r: Vec<u8>)
    requires
        hex_data@.len() > 0,
        pick < other_count(hex_data@),
    ensures
        r@ == reconditioned(hex_data@, pick as int),
{
    let mut result = copy(hex_data);
    let near = is_near_jump(hex_data);
    let first: u8 = if near {
        0x80
    } else {
        0x70
    };
    let place: usize = if near {
        1
    } else {
        0
    };
    let without = hex_data[place];
    let byte: u8 = if first <= without && without <= first + pick as u8 {
        first + pick as u8 + 1
    } else {
        first + pick as u8
    };
    result.set(place, byte);
    result
}

/// What becomes of a jump when these numbers are drawn.
pub fn jump_for_draws(hex_data: &[u8], first: u64, second: u64, third: u64, pick: usize) -> (r: Vec<
    u8,
>)
    requires
        hex_data@.len() > 0,
        pick < other_count(hex_data@),
    ensures
        r@ == changed_by(hex_data@, first, second, third, pick as int),
{
    if first / 2048 <= 6305039478318694 {
        flip_jump(hex_data)
    } else if second / 2048 <= 3602879701896397 {
        drop_jump(hex_data)
    } else if third / 2048 <= 6004799503160662 {
        free_jump(hex_data)
    } else {
        recondition_jump(hex_data, pick)
    }
}

/// `rand::rngs::StdRng`.
#[verifier::external_type_specification]
#[verifier::external_body]
pub struct ExStdRng(StdRng);

/// `rand::Rng::gen` draws a number of 64 bits.
#[verifier::external_body]
fn draw(rng: &mut StdRng) -> u64 {
    rng.gen::<u64>()
}

/// `rand::Rng::gen_range` draws a number below `n`.
#[verifier::external_body]
fn draw_below(rng: &mut StdRng, n: usize) -> (r: usize)
    requires
        n > 0,
    ensures
        r < n,
{
    rng.gen_range(0..n)
}

/// Whether a number is what `draw` gives when it is called on this generator.
pub closed spec fn is_draw(rng: &mut StdRng, number: u64) -> bool {
    call_ensures(draw, (rng,), number)
}

/// Whether a number below `n` is what `draw_below` gives when it is called on this generator.
pub closed spec fn is_pick(rng: &mut StdRng, n: usize, number: usize) -> bool {
    call_ensures(draw_below, (rng, n), number)
}

/// The next number.
fn next_number(rng: &mut StdRng) -> (r: u64)
    ensures
        exists|x: &mut StdRng| #[trigger]
            is_draw(x, r) && *x == *old(rng) && *final(x) == *final(rng),
{
    let r = draw(rng);
    proof {
        let x = choose|x: &mut StdRng| #[trigger]
            call_ensures(draw, (x,), r) && *x == *old(rng) && *final(x) == *rng;
        assert(is_draw(x, r));
    }
    r
}

/// The next number below `n`.
fn next_pick(rng: &mut StdRng, n: usize) -> (r: usize)
    requires
        n > 0,
    ensures
        r < n,
        exists|x: &mut StdRng| #[trigger]
            is_pick(x, n, r) && *x == *old(rng) && *final(x) == *final(rng),
{
    let r = draw_below(rng, n);
    proof {
        let x = choose|x: &mut StdRng| #[trigger]
            call_ensures(draw_below, (x, n), r) && *x == *old(rng) && *final(x) == *rng;
        assert(is_pick(x, n, r));
    }
    r
}

/// Draws the numbers that decide what becomes of a jump, each where the one before it leaves that
/// open. Those that do not matter are not drawn, and are 0.
fn draw_numbers(hex_data: &[u8], rng: &mut StdRng) -> (r: (u64, u64, u64, usize))
    requires
        hex_data@.len() > 0,
    ensures
        r.3 < other_count(hex_data@),
        exists|x: &mut StdRng, first: u64| #[trigger]
            is_draw(x, first) && first == r.0 && *x == *old(rng) && (if flips(first) {
                *final(x) == *final(rng) && r.1 == 0 && r.2 == 0 && r.3 == 0
            } else {
                exists|y: &mut StdRng, second: u64| #[trigger]
                    is_draw(y, second) && second == r.1 && *y == *final(x) && (if drops(second) {
                        *final(y) == *final(rng) && r.2 == 0 && r.3 == 0
                    } else {
                        exists|z: &mut StdRng, third: u64| #[trigger]
                            is_draw(z, third) && third == r.2 && *z == *final(y) && (if frees(third) {
                                *final(z) == *final(rng) && r.3 == 0
                            } else {
                                exists|u: &mut StdRng, n: usize, pick: usize| #[trigger]
                                    is_pick(u, n, pick) && n == other_count(hex_data@) && pick
                                        == r.3 && *u == *final(z) && *final(u) == *final(rng)
                            })
                    })
            }),
{
    let first = next_number(rng);
    if first / 2048 <= 6305039478318694 {
        return (first, 0, 0, 0);
    }
    let second = next_number(rng);
    if second / 2048 <= 3602879701896397 {
        return (first, second, 0, 0);
    }
    let third = next_number(rng);
    if third / 2048 <= 6004799503160662 {
        return (first, second, third, 0);
    }
    let pick = next_pick(rng, count_others(hex_data));
    (first, second, third, pick)
}

/// Makes another jump of a conditional one: mostly one with the opposite condition; else none, one
/// without a condition, or one with any other condition.
pub fn different_jump(hex_data: &[u8], rng: &mut StdRng) -> (r: Vec<u8>)
    requires
        hex_data@.len() > 0,
    ensures
        is_change(hex_data@, r@),
        r@.len() == hex_data@.len(),
        exists|x: &mut StdRng, first: u64| #[trigger]
            is_draw(x, first) && *x == *old(rng) && (if flips(first) {
                *final(x) == *final(rng) && r@ == flipped(hex_data@)
            } else {
                exists|y: &mut StdRng, second: u64| #[trigger]
                    is_draw(y, second) && *y == *final(x) && (if drops(second) {
                        *final(y) == *final(rng) && r@ == dropped(hex_data@)
                    } else {
                        exists|z: &mut StdRng, third: u64| #[trigger]
                            is_draw(z, third) && *z == *final(y) && (if frees(third) {
                                *final(z) == *final(rng) && r@ == unconditional(hex_data@)
                            } else {
                                exists|u: &mut StdRng, n: usize, pick: usize| #[trigger]
                                    is_pick(u, n, pick) && n == other_count(hex_data@) && *u
                                        == *final(z) && *final(u) == *final(rng) && r@
                                        == reconditioned(hex_data@, pick as int)
                            })
                    })
            }),
{
    let (first, second, third, pick) = draw_numbers(hex_data, rng);
    jump_for_draws(hex_data, first, second, third, pick)
}

/// Whether the bytes are those of a conditional jump.
pub open spec fn is_conditional_jump(hex: Seq<u8>) -> bool {
    if is_near(hex) {
        0x80 <= hex[1] <= 0x8F
    } else {
        hex.len() > 0 && 0x70 <= hex[0] <= 0x7F
    }
}

/// Seven tenths of the draws flip a condition; of the others, four tenths drop the jump; and of the
/// rest, two thirds take the condition away: each to within a step of 1/2^53.
pub proof fn law_draws_keep_their_shares(draw: u64)
    ensures
        ({
            let whole: int = 9007199254740992;
            let part = fraction(draw);
            &&& part < whole
            &&& flips(draw) <==> 10 * part <= 7 * whole
            &&& 10 * part <= 4 * whole ==> drops(draw)
            &&& drops(draw) ==> 10 * (part - 1) <= 4 * whole
            &&& 3 * part <= 2 * whole ==> frees(draw)
            &&& frees(draw) ==> 3 * (part - 1) <= 2 * whole
        }),
{
}

/// A changed jump takes as many bytes as the jump, and is a different one.
pub proof fn law_changed_jump_differs(hex: Seq<u8>, new: Seq<u8>)
    requires
        is_conditional_jump(hex),
        is_change(hex, new),
    ensures
        new.len() == hex.len(),
        new != hex,
{
    let at = if is_near(hex) {
        1int
    } else {
        0int
    };
    if new == dropped(hex) {
        assert(new[0] == NOP);
    } else if new == unconditional(hex) {
        if is_near(hex) {
            assert(new[0] == NOP);
        } else {
            assert(new[0] == SHORT_JMP);
        }
    } else if new == flipped(hex) {
        assert(new[at] == opposite(hex[at]));
    } else {
        let pick = choose|pick: int|
            0 <= pick < other_count(hex) && new == #[trigger] reconditioned(hex, pick);
        assert(new[at] != hex[at]);
    }
}

/// A jump that was changed to the opposite or another condition is a conditional jump again, and
/// only its condition has changed.
pub proof fn law_recondition_keeps_target(hex: Seq<u8>, pick: int)
    requires
        is_conditional_jump(hex),
        0 <= pick < other_count(hex),
    ensures
        is_conditional_jump(flipped(hex)),
        flipped(flipped(hex)) == hex,
        is_conditional_jump(reconditioned(hex, pick)),
        forall|i: int|
            2 <= i < hex.len() ==> #[trigger] flipped(hex)[i] == hex[i] && reconditioned(
                hex,
                pick,
            )[i] == hex[i] && unconditional(hex)[i] == hex[i],
{
    assert(flipped(flipped(hex)) =~= hex);
}

/// A mutation: where in the file, and the bytes that are put there.
pub type Mutation = (usize, Seq<u8>);

/// How often a mutation was made, in a list of mutations and numbers.
pub open spec fn count_in(entries: Seq<(usize, Vec<u8>, u32)>, m: Mutation) -> nat
    decreases entries.len(),
{
    if entries.len() == 0 {
        0
    } else if entries.last().0 == m.0 && entries.last().1@ == m.1 {
        entries.last().2 as nat
    } else {
        count_in(entries.drop_last(), m)
    }
}

/// The mutations that were made, and how often.
pub struct Visited {
    entries: Vec<(usize, Vec<u8>, u32)>,
}

fn same_bytes(a: &Vec<u8>, b: &Vec<u8>) -> (r: bool)
    ensures
        r == (a@ == b@),
{
    let n = a.len();
    if n != b.len() {
        return false;
    }
    let mut i: usize = 0;
    while i < n
        invariant
            n == a@.len() == b@.len(),
            i <= n,
            forall|k: int| 0 <= k < i ==> #[trigger] a@[k] == b@[k],
        decreases n - i,
    {
        if a[i] != b[i] {
            return false;
        }
        i = i + 1;
    }
    assert(a@ =~= b@);
    true
}

impl Visited {
    /// How often a mutation was made.
    pub closed spec fn count(&self, m: Mutation) -> nat {
        count_in(self.entries@, m)
    }

    pub fn new() -> (r: Self)
        ensures
            forall|m: Mutation| #[trigger] r.count(m) == 0,
    {
        Visited { entries: Vec::new() }
    }

    /// How often a mutation was made, and where that stands.
    fn find(&self, offset: usize, bytes: &Vec<u8>) -> (r: Option<usize>)
        ensures
            r is Some ==> {
                &&& r->0 < self.entries@.len()
                &&& self.entries@[r->0 as int].0 == offset
                &&& self.entries@[r->0 as int].1@ == bytes@
                &&& self.entries@[r->0 as int].2 == self.count((offset, bytes@))
                &&& forall|k: int|
                    r->0 < k < self.entries@.len() ==> !((#[trigger] self.entries@[k]).0 == offset
                        && self.entries@[k].1@ == bytes@)
            },
            r is None ==> self.count((offset, bytes@)) == 0,
    {
        let mut n: usize = self.entries.len();
        assert(self.entries@.take(n as int) =~= self.entries@);
        while n > 0
            invariant
                n <= self.entries@.len(),
                count_in(self.entries@.take(n as int), (offset, bytes@)) == self.count(
                    (offset, bytes@),
                ),
                forall|k: int|
                    n <= k < self.entries@.len() ==> !((#[trigger] self.entries@[k]).0 == offset
                        && self.entries@[k].1@ == bytes@),
            decreases n,
        {
            let entry = &self.entries[n - 1];
            assert(self.entries@.take(n as int).drop_last() =~= self.entries@.take(n - 1));
            if entry.0 == offset && same_bytes(&entry.1, bytes) {
                return Some(n - 1);
            }
            n = n - 1;
        }
        None
    }

    /// Counts a mutation once more, and tells how often it was made.
    pub fn record(&mut self, offset: usize, bytes: &Vec<u8>) -> (r: u32)
        requires
            old(self).count((offset, bytes@)) < u32::MAX,
        ensures
            r == old(self).count((offset, bytes@)) + 1,
            forall|m: Mutation| #[trigger]
                final(self).count(m) == (if m == (offset, bytes@) {
                    old(self).count(m) + 1
                } else {
                    old(self).count(m)
                }),
    {
        let ghost before = self.entries@;
        match self.find(offset, bytes) {
            Some(i) => {
                let count = self.entries[i].2 + 1;
                let copy = copy(self.entries[i].1.as_slice());
                self.entries.set(i, (offset, copy, count));
                proof {
                    assert forall|m: Mutation| #[trigger] self.count(m) == (if m == (
                        offset,
                        bytes@,
                    ) {
                        count_in(before, m) + 1
                    } else {
                        count_in(before, m)
                    }) by {
                        lemma_count_set(
                            before,
                            i as int,
                            self.entries@[i as int],
                            (offset, bytes@),
                            m,
                        );
                    }
                }
                count
            },
            None => {
                self.entries.push((offset, copy(bytes.as_slice()), 1));
                assert(self.entries@.drop_last() =~= before);
                1
            },
        }
    }

    /// Whether every mutation can be counted that many times more.
    pub fn has_room(&self, times: usize) -> (r: bool)
        ensures
            r == forall|m: Mutation| #[trigger] self.count(m) + times <= u32::MAX,
    {
        if times as u128 > u32::MAX as u128 {
            assert(self.count((0, Seq::empty())) + times > u32::MAX);
            return false;
        }
        let n = self.entries.len();
        let mut i: usize = 0;
        while i < n
            invariant
                n == self.entries@.len(),
                i <= n,
                times <= u32::MAX,
                forall|k: int|
                    0 <= k < i ==> self.count(((#[trigger] self.entries@[k]).0, self.entries@[k].1@))
                        + times <= u32::MAX,
            decreases n - i,
        {
            let entry = &self.entries[i];
            if let Some(at) = self.find(entry.0, &entry.1) {
                if self.entries[at].2 as u64 + times as u64 > u32::MAX as u64 {
                    assert(self.count((entry.0, entry.1@)) + times > u32::MAX);
                    return false;
                }
            }
            i = i + 1;
        }
        proof {
            assert forall|m: Mutation| #[trigger] self.count(m) + times <= u32::MAX by {
                if count_in(self.entries@, m) > 0 {
                    lemma_counted(self.entries@, m);
                    let k = choose|k: int|
                        0 <= k < self.entries@.len() && (#[trigger] self.entries@[k]).0 == m.0
                            && self.entries@[k].1@ == m.1;
                    assert(self.count((self.entries@[k].0, self.entries@[k].1@)) + times
                        <= u32::MAX);
                }
            }
        }
        true
    }

    /// Whether a mutation was made.
    pub fn contains(&self, offset: usize, bytes: &Vec<u8>) -> (r: bool)
        ensures
            r == (self.count((offset, bytes@)) > 0),
    {
        match self.find(offset, bytes) {
            Some(i) => self.entries[i].2 > 0,
            None => false,
        }
    }

    /// Counts a mutation if it was never made, and tells whether that was so.
    pub fn claim(&mut self, offset: usize, bytes: &Vec<u8>) -> (r: bool)
        ensures
            r == (old(self).count((offset, bytes@)) == 0),
            forall|m: Mutation| #[trigger]
                final(self).count(m) == (if r && m == (offset, bytes@) {
                    1
                } else {
                    old(self).count(m)
                }),
    {
        let ghost before = self.entries@;
        match self.find(offset, bytes) {
            Some(i) if self.entries[i].2 > 0 => false,
            _ => {
                self.entries.push((offset, copy(bytes.as_slice()), 1));
                assert(self.entries@.drop_last() =~= before);
                true
            },
        }
    }
}

proof fn lemma_counted(entries: Seq<(usize, Vec<u8>, u32)>, m: Mutation)
    requires
        count_in(entries, m) > 0,
    ensures
        exists|k: int|
            0 <= k < entries.len() && (#[trigger] entries[k]).0 == m.0 && entries[k].1@ == m.1,
    decreases entries.len(),
{
    let last = entries.len() - 1;
    if entries[last].0 != m.0 || entries[last].1@ != m.1 {
        lemma_counted(entries.drop_last(), m);
        let k = choose|k: int|
            0 <= k < entries.drop_last().len() && (#[trigger] entries.drop_last()[k]).0 == m.0
                && entries.drop_last()[k].1@ == m.1;
        assert(entries[k].0 == m.0);
    }
}

proof fn lemma_count_set(
    before: Seq<(usize, Vec<u8>, u32)>,
    i: int,
    entry: (usize, Vec<u8>, u32),
    key: Mutation,
    m: Mutation,
)
    requires
        0 <= i < before.len(),
        before[i].0 == key.0,
        before[i].1@ == key.1,
        entry.0 == key.0,
        entry.1@ == key.1,
        forall|k: int|
            i < k < before.len() ==> !((#[trigger] before[k]).0 == key.0 && before[k].1@ == key.1),
    ensures
        count_in(before.update(i, entry), m) == (if m == key {
            entry.2 as nat
        } else {
            count_in(before, m)
        }),
    decreases before.len(),
{
    let after = before.update(i, entry);
    if i == before.len() - 1 {
        assert(after.drop_last() =~= before.drop_last());
    } else {
        assert(after.drop_last() =~= before.drop_last().update(i, entry));
        lemma_count_set(before.drop_last(), i, entry, key, m);
    }
}

/// A mutation that was made.
pub struct MutationRecord {
    pub function_name: String,
    pub file_offset: usize,
    pub new_bytes: Vec<u8>,
}

/// The binary with bytes put in a place. What does not fit is left out.
pub open spec fn patched(binary: Seq<u8>, offset: int, bytes: Seq<u8>) -> Seq<u8> {
    Seq::new(
        binary.len(),
        |i: int|
            if offset <= i < offset + bytes.len() {
                bytes[i - offset]
            } else {
                binary[i]
            },
    )
}

/// Puts bytes in a place.
pub fn apply_mutation(binary: &mut Vec<u8>, offset: usize, new_bytes: &Vec<u8>)
    ensures
        final(binary)@ == patched(old(binary)@, offset as int, new_bytes@),
{
    let ghost before = binary@;
    let n = new_bytes.len();
    let size = binary.len();
    let mut i: usize = 0;
    assert(binary@ =~= patched(before, offset as int, new_bytes@.take(0)));
    while i < n
        invariant
            n == new_bytes@.len(),
            size == binary@.len() == before.len(),
            i <= n,
            binary@ == patched(before, offset as int, new_bytes@.take(i as int)),
        decreases n - i,
    {
        if offset < size && i < size - offset {
            binary.set(offset + i, new_bytes[i]);
        }
        assert(binary@ =~= patched(before, offset as int, new_bytes@.take(i + 1)));
        i = i + 1;
    }
    assert(new_bytes@.take(n as int) =~= new_bytes@);
}

/// The binary after the first mutations.
pub open spec fn patched_all(binary: Seq<u8>, records: Seq<MutationRecord>) -> Seq<u8>
    decreases records.len(),
{
    if records.len() == 0 {
        binary
    } else {
        patched(
            patched_all(binary, records.drop_last()),
            records.last().file_offset as int,
            records.last().new_bytes@,
        )
    }
}

/// Whether a mutation changes one of the jumps.
pub open spec fn is_mutation(disasm: DisassemblyResult, record: MutationRecord) -> bool {
    let jump = disasm.jumps@[record.file_offset];
    &&& disasm.jumps@.contains_key(record.file_offset)
    &&& record.function_name@ == jump.function_name@
    &&& is_change(jump.hex_data@, record.new_bytes@)
}

/// The numbers that are drawn for a mutation: which of the jumps it changes, and what becomes of it.
#[derive(Clone, Copy)]
pub struct Numbers {
    pub at: usize,
    pub first: u64,
    pub second: u64,
    pub third: u64,
    pub pick: usize,
}

/// Whether numbers can be drawn for a mutation.
pub open spec fn numbers_ok(disasm: DisassemblyResult, numbers: Numbers) -> bool {
    &&& numbers.at < disasm.jumps.seq().len()
    &&& numbers.pick < other_count(disasm.jumps.seq()[numbers.at as int].1.hex_data@)
}

/// Whether this is the mutation for which these numbers are drawn.
pub open spec fn is_drawn(
    disasm: DisassemblyResult,
    numbers: Numbers,
    record: MutationRecord,
) -> bool {
    let (place, jump) = disasm.jumps.seq()[numbers.at as int];
    &&& numbers_ok(disasm, numbers)
    &&& record.file_offset == place
    &&& record.function_name@ == jump.function_name@
    &&& record.new_bytes@ == changed_by(
        jump.hex_data@,
        numbers.first,
        numbers.second,
        numbers.third,
        numbers.pick as int,
    )
}

/// Whether a number is one that a generator yields.
pub open spec fn is_yielded(number: u64) -> bool {
    exists|x: &mut StdRng| #[trigger] is_draw(x, number)
}

/// Whether a number below `n` is one that a generator yields.
pub open spec fn is_picked(n: int, number: usize) -> bool {
    exists|x: &mut StdRng, m: usize| m == n && #[trigger] is_pick(x, m, number)
}

/// Whether numbers were drawn, as far as they matter.
pub open spec fn were_drawn(disasm: DisassemblyResult, numbers: Numbers) -> bool {
    &&& is_picked(disasm.jumps.seq().len() as int, numbers.at)
    &&& is_yielded(numbers.first)
    &&& if flips(numbers.first) {
        numbers.second == 0 && numbers.third == 0 && numbers.pick == 0
    } else {
        &&& is_yielded(numbers.second)
        &&& if drops(numbers.second) {
            numbers.third == 0 && numbers.pick == 0
        } else {
            &&& is_yielded(numbers.third)
            &&& if frees(numbers.third) {
                numbers.pick == 0
            } else {
                is_picked(
                    other_count(disasm.jumps.seq()[numbers.at as int].1.hex_data@),
                    numbers.pick,
                )
            }
        }
    }
}

/// Whether this is the mutation for which these numbers were drawn.
pub open spec fn came_up(
    disasm: DisassemblyResult,
    numbers: Numbers,
    record: MutationRecord,
) -> bool {
    is_drawn(disasm, numbers, record) && were_drawn(disasm, numbers)
}

/// The mutation for which these numbers are drawn.
pub fn mutation_for_draws(disasm: &DisassemblyResult, numbers: Numbers) -> (r: MutationRecord)
    requires
        jumps_ok(*disasm),
        numbers_ok(*disasm, numbers),
    ensures
        is_drawn(*disasm, numbers, r),
        is_mutation(*disasm, r),
        disasm.jumps.ok(),
{
    let offset = *disasm.jumps.key_at(numbers.at);
    let jump = disasm.jumps.value_at(numbers.at);
    let new_bytes = jump_for_draws(
        jump.hex_data.as_slice(),
        numbers.first,
        numbers.second,
        numbers.third,
        numbers.pick,
    );
    MutationRecord { function_name: jump.function_name.clone(), file_offset: offset, new_bytes }
}

/// Changes a jump that is drawn.
fn draw_mutation(disasm: &DisassemblyResult, rng: &mut StdRng) -> (r: MutationRecord)
    requires
        disasm.jumps.seq().len() > 0,
        jumps_ok(*disasm),
    ensures
        exists|numbers: Numbers| #[trigger] came_up(*disasm, numbers, r),
        exists|x: &mut StdRng, n: usize, at: usize| #[trigger]
            is_pick(x, n, at) && *x == *old(rng) && n == disasm.jumps.seq().len() && r.file_offset
                == disasm.jumps.seq()[at as int].0 && ({
                let hex = disasm.jumps.seq()[at as int].1.hex_data@;
                exists|y: &mut StdRng, first: u64| #[trigger]
                    is_draw(y, first) && *y == *final(x) && (if flips(first) {
                        *final(y) == *final(rng) && r.new_bytes@ == flipped(hex)
                    } else {
                        exists|z: &mut StdRng, second: u64| #[trigger]
                            is_draw(z, second) && *z == *final(y) && (if drops(second) {
                                *final(z) == *final(rng) && r.new_bytes@ == dropped(hex)
                            } else {
                                exists|u: &mut StdRng, third: u64| #[trigger]
                                    is_draw(u, third) && *u == *final(z) && (if frees(third) {
                                        *final(u) == *final(rng) && r.new_bytes@ == unconditional(hex)
                                    } else {
                                        exists|w: &mut StdRng, m: usize, pick: usize| #[trigger]
                                            is_pick(w, m, pick) && m == other_count(hex) && *w
                                                == *final(u) && *final(w) == *final(rng)
                                                && r.new_bytes@ == reconditioned(hex, pick as int)
                                    })
                            })
                    })
            }),
        is_mutation(*disasm, r),
        disasm.jumps.ok(),
{
    let at = next_pick(rng, disasm.jumps.len());
    let jump = disasm.jumps.value_at(at);
    let (first, second, third, pick) = draw_numbers(jump.hex_data.as_slice(), rng);
    let numbers = Numbers { at, first, second, third, pick };
    let record = mutation_for_draws(disasm, numbers);
    assert(came_up(*disasm, numbers, record));
    record
}

/// A mutation by its place and its bytes.
pub open spec fn key_of(record: MutationRecord) -> Mutation {
    (record.file_offset, record.new_bytes@)
}

/// Whether a mutation was made before.
pub open spec fn was_made(visited: Visited, record: MutationRecord) -> bool {
    visited.count(key_of(record)) > 0
}

/// Whether these mutations can be drawn in search of one that was not made before: the search ends
/// with the first such, or after twenty.
pub open spec fn is_search(
    disasm: DisassemblyResult,
    visited: Visited,
    drawn: Seq<MutationRecord>,
) -> bool {
    &&& forall|k: int| 0 <= k < drawn.len() ==> is_mutation(disasm, #[trigger] drawn[k])
    &&& 0 < drawn.len() <= 20
    &&& forall|k: int| 0 <= k < drawn.len() - 1 ==> was_made(visited, #[trigger] drawn[k])
    &&& drawn.len() < 20 ==> !was_made(visited, drawn.last())
}

/// Whether these are the mutations for which these numbers are drawn.
pub open spec fn are_drawn(
    disasm: DisassemblyResult,
    numbers: Seq<Numbers>,
    records: Seq<MutationRecord>,
) -> bool {
    &&& numbers.len() == records.len()
    &&& forall|k: int|
        0 <= k < records.len() ==> came_up(disasm, numbers[k], #[trigger] records[k])
}

/// Whether a mutation is what `draw_mutation` gives when it is called on this generator.
pub closed spec fn is_taken(
    disasm: DisassemblyResult,
    rng: &mut StdRng,
    record: MutationRecord,
) -> bool {
    call_ensures(draw_mutation, (&disasm, rng), record)
}

/// Whether these can be the states of a generator before each of `n` steps, and after the last.
pub open spec fn is_stretch(states: Seq<StdRng>, n: nat) -> bool {
    states.len() == n + 1
}

/// The next mutation.
fn take_mutation(disasm: &DisassemblyResult, rng: &mut StdRng) -> (r: MutationRecord)
    requires
        disasm.jumps.seq().len() > 0,
        jumps_ok(*disasm),
    ensures
        exists|numbers: Numbers| #[trigger] came_up(*disasm, numbers, r),
        is_mutation(*disasm, r),
        disasm.jumps.ok(),
        exists|x: &mut StdRng| #[trigger]
            is_taken(*disasm, x, r) && *x == *old(rng) && *final(x) == *final(rng),
{
    let r = draw_mutation(disasm, rng);
    proof {
        let x = choose|x: &mut StdRng| #[trigger]
            call_ensures(draw_mutation, (disasm, x), r) && *x == *old(rng) && *final(x) == *rng;
        assert(is_taken(*disasm, x, r));
    }
    r
}

/// Draws mutations until one comes that was not made before, twenty at most.
fn draw_unvisited(disasm: &DisassemblyResult, visited: &Visited, rng: &mut StdRng) -> (r: Vec<
    MutationRecord,
>)
    requires
        disasm.jumps.seq().len() > 0,
        jumps_ok(*disasm),
    ensures
        is_search(*disasm, *visited, r@),
        exists|numbers: Seq<Numbers>| #[trigger] are_drawn(*disasm, numbers, r@),
        exists|states: Seq<StdRng>| #[trigger]
            is_stretch(states, r@.len()) && states[0] == *old(rng) && states.last() == *final(rng)
                && forall|k: int|
                0 <= k < r@.len() && is_mutation(*disasm, #[trigger] r@[k]) ==> exists|
                    x: &mut StdRng,
                | #[trigger]
                    is_taken(*disasm, x, r@[k]) && *x == states[k] && *final(x)
                        == states[k + 1],
{
    let mut drawn: Vec<MutationRecord> = Vec::new();
    let ghost mut numbers: Seq<Numbers> = Seq::empty();
    let ghost mut states: Seq<StdRng> = seq![*rng];
    loop
        invariant
            is_stretch(states, drawn@.len()),
            states[0] == *old(rng),
            states.last() == *rng,
            forall|k: int|
                0 <= k < drawn@.len() && is_mutation(*disasm, #[trigger] drawn@[k]) ==> exists|
                    x: &mut StdRng,
                | #[trigger]
                    is_taken(*disasm, x, drawn@[k]) && *x == states[k] && *final(x)
                        == states[k + 1],
            are_drawn(*disasm, numbers, drawn@),
            disasm.jumps.seq().len() > 0,
            jumps_ok(*disasm),
            drawn@.len() < 20,
            forall|k: int| 0 <= k < drawn@.len() ==> is_mutation(*disasm, #[trigger] drawn@[k]),
            forall|k: int| 0 <= k < drawn@.len() ==> was_made(*visited, #[trigger] drawn@[k]),
        decreases 20 - drawn@.len(),
    {
        let ghost rng0 = *rng;
        let record = take_mutation(disasm, rng);
        let ghost (states0, record0) = (states, record);
        proof {
            numbers = numbers.push(
                choose|numbers: Numbers| #[trigger] came_up(*disasm, numbers, record),
            );
            states = states.push(*rng);
        }
        let made = visited.contains(record.file_offset, &record.new_bytes);
        let ghost before = drawn@;
        drawn.push(record);
        assert forall|k: int| 0 <= k < drawn@.len() implies came_up(
            *disasm,
            numbers[k],
            #[trigger] drawn@[k],
        ) by {
            if k < before.len() {
                assert(came_up(*disasm, numbers[k], before[k]));
            }
        }
        assert(are_drawn(*disasm, numbers, drawn@));
        assert forall|k: int|
            0 <= k < drawn@.len() && is_mutation(*disasm, #[trigger] drawn@[k]) implies exists|
            x: &mut StdRng,
        | #[trigger]
            is_taken(*disasm, x, drawn@[k]) && *x == states[k] && *final(x)
                == states[k + 1] by {
            if k < before.len() {
                assert(drawn@[k] == before[k]);
                assert(states[k] == states0[k] && states[k + 1] == states0[k + 1]);
                let x = choose|x: &mut StdRng| #[trigger]
                    is_taken(*disasm, x, before[k]) && *x == states0[k] && *final(x) == states0[k
                        + 1];
                assert(is_taken(*disasm, x, drawn@[k]));
            } else {
                assert(drawn@[k] == record0);
                let x = choose|x: &mut StdRng| #[trigger]
                    is_taken(*disasm, x, record0) && *x == rng0 && *final(x) == *rng;
                assert(is_taken(*disasm, x, drawn@[k]));
            }
        }
        assert(is_stretch(states, drawn@.len()));
        if !made || drawn.len() == 20 {
            return drawn;
        }
    }
}

/// How many changes there are of a jump, when they are counted one by one.
pub open spec fn change_count(hex: Seq<u8>) -> int {
    3 + other_count(hex)
}

/// The changes of a jump, one by one.
pub open spec fn nth_change(hex: Seq<u8>, c: int) -> Seq<u8> {
    if c == 0 {
        flipped(hex)
    } else if c == 1 {
        dropped(hex)
    } else if c == 2 {
        unconditional(hex)
    } else {
        reconditioned(hex, c - 3)
    }
}

proof fn lemma_nth_change(hex: Seq<u8>, new: Seq<u8>)
    ensures
        is_change(hex, new) <==> exists|c: int|
            0 <= c < change_count(hex) && new == #[trigger] nth_change(hex, c),
{
    if is_change(hex, new) {
        if new == flipped(hex) {
            assert(new == nth_change(hex, 0));
        } else if new == dropped(hex) {
            assert(new == nth_change(hex, 1));
        } else if new == unconditional(hex) {
            assert(new == nth_change(hex, 2));
        } else {
            let pick = choose|pick: int|
                0 <= pick < other_count(hex) && new == #[trigger] reconditioned(hex, pick);
            assert(new == nth_change(hex, pick + 3));
        }
    }
    if exists|c: int| 0 <= c < change_count(hex) && new == #[trigger] nth_change(hex, c) {
        let c = choose|c: int| 0 <= c < change_count(hex) && new == #[trigger] nth_change(hex, c);
        if c >= 3 {
            assert(new == reconditioned(hex, c - 3));
        }
    }
}

fn make_change(hex_data: &[u8], c: usize) -> (r: Vec<u8>)
    requires
        hex_data@.len() > 0,
        c < change_count(hex_data@),
    ensures
        r@ == nth_change(hex_data@, c as int),
{
    if c == 0 {
        flip_jump(hex_data)
    } else if c == 1 {
        drop_jump(hex_data)
    } else if c == 2 {
        free_jump(hex_data)
    } else {
        recondition_jump(hex_data, c - 3)
    }
}

/// Whether a mutation is the change number `c` of the jump number `j`.
pub open spec fn stands_at(disasm: DisassemblyResult, record: MutationRecord, j: int, c: int) -> bool {
    let jump = disasm.jumps.seq()[j].1;
    &&& 0 <= j < disasm.jumps.seq().len()
    &&& 0 <= c < change_count(jump.hex_data@)
    &&& record.function_name@ == jump.function_name@
    &&& record.file_offset == disasm.jumps.seq()[j].0
    &&& record.new_bytes@ == nth_change(jump.hex_data@, c)
}

/// Whether the change number `c` of the jump number `j` was made before.
pub open spec fn made_at(disasm: DisassemblyResult, visited: Visited, j: int, c: int) -> bool {
    visited.count(
        (disasm.jumps.seq()[j].0, nth_change(disasm.jumps.seq()[j].1.hex_data@, c)),
    ) > 0
}

/// Whether there is a mutation that was not made before.
pub open spec fn some_left(disasm: DisassemblyResult, visited: Visited) -> bool {
    exists|m: MutationRecord| #[trigger] is_mutation(disasm, m) && !was_made(visited, m)
}

/// Whether a mutation is the first that was not made before, when the jumps are gone through in the
/// order of their places, and of each jump all changes.
pub open spec fn is_first_left(
    disasm: DisassemblyResult,
    visited: Visited,
    record: MutationRecord,
) -> bool {
    exists|j: int, c: int| #[trigger]
        stands_at(disasm, record, j, c) && !was_made(visited, record) && forall|j2: int, c2: int|
            0 <= j2 <= j && 0 <= c2 < change_count(disasm.jumps.seq()[j2].1.hex_data@) && (j2 < j
                || c2 < c) ==> #[trigger] made_at(disasm, visited, j2, c2)
}

/// Goes through all changes of all jumps for one that was not made before.
fn first_left(disasm: &DisassemblyResult, visited: &Visited) -> (r: Option<MutationRecord>)
    requires
        jumps_ok(*disasm),
    ensures
        r is Some <==> some_left(*disasm, *visited),
        r is Some ==> is_first_left(*disasm, *visited, r->0) && is_mutation(*disasm, r->0),
{
    let ghost all = disasm.jumps.seq();
    let n = disasm.jumps.len();
    let mut j: usize = 0;
    while j < n
        invariant
            jumps_ok(*disasm),
            all == disasm.jumps.seq(),
            n == all.len(),
            j <= n,
            forall|j2: int, c2: int|
                0 <= j2 < j && 0 <= c2 < change_count(all[j2].1.hex_data@) ==> #[trigger] made_at(
                    *disasm,
                    *visited,
                    j2,
                    c2,
                ),
        decreases n - j,
    {
        let offset = *disasm.jumps.key_at(j);
        let jump = disasm.jumps.value_at(j);
        let count = 3 + count_others(jump.hex_data.as_slice());
        let mut c: usize = 0;
        while c < count
            invariant
                all == disasm.jumps.seq(),
                j < all.len(),
                offset == all[j as int].0,
                *jump == all[j as int].1,
                disasm.jumps@.contains_key(offset),
                disasm.jumps@[offset] == *jump,
                jump.hex_data@.len() > 0,
                count == change_count(jump.hex_data@),
                c <= count,
                forall|j2: int, c2: int|
                    0 <= j2 <= j && 0 <= c2 < change_count(all[j2].1.hex_data@) && (j2 < j || c2
                        < c) ==> #[trigger] made_at(*disasm, *visited, j2, c2),
            decreases count - c,
        {
            let new_bytes = make_change(jump.hex_data.as_slice(), c);
            if !visited.contains(offset, &new_bytes) {
                let record = MutationRecord {
                    function_name: jump.function_name.clone(),
                    file_offset: offset,
                    new_bytes,
                };
                proof {
                    lemma_nth_change(jump.hex_data@, record.new_bytes@);
                    assert(nth_change(jump.hex_data@, c as int) == record.new_bytes@);
                    assert(stands_at(*disasm, record, j as int, c as int));
                    assert(is_mutation(*disasm, record));
                }
                return Some(record);
            }
            assert(made_at(*disasm, *visited, j as int, c as int));
            c = c + 1;
        }
        j = j + 1;
    }
    proof {
        assert forall|m: MutationRecord| #[trigger] is_mutation(*disasm, m) implies was_made(
            *visited,
            m,
        ) by {
            let k = choose|k: int| 0 <= k < all.len() && (#[trigger] all[k]).0 == m.file_offset;
            lemma_entry::<usize, JumpInfo>(all, k);
            lemma_nth_change(all[k].1.hex_data@, m.new_bytes@);
            let c = choose|c: int|
                0 <= c < change_count(all[k].1.hex_data@) && m.new_bytes@ == #[trigger] nth_change(
                    all[k].1.hex_data@,
                    c,
                );
            assert(made_at(*disasm, *visited, k, c));
        }
    }
    None
}

/// Whether `k` is the first of the mutations that was not made before.
pub open spec fn is_first_new(visited: Visited, drawn: Seq<MutationRecord>, k: int) -> bool {
    &&& 0 <= k < drawn.len()
    &&& !was_made(visited, drawn[k])
    &&& forall|i: int| 0 <= i < k ==> was_made(visited, #[trigger] drawn[i])
}

/// Whether one of the mutations was not made before.
pub open spec fn has_new(visited: Visited, drawn: Seq<MutationRecord>) -> bool {
    exists|k: int| #[trigger] is_first_new(visited, drawn, k)
}

/// Which mutation is kept, of a first one and further ones. That is the first one if it was not
/// made before; else the first of the further ones that was not; else the first that is left of all.
/// Only where none is left, the first one is made again.
pub open spec fn is_kept(
    disasm: DisassemblyResult,
    visited: Visited,
    first: MutationRecord,
    further: Seq<MutationRecord>,
    r: MutationRecord,
) -> bool {
    if !was_made(visited, first) {
        r == first
    } else if has_new(visited, further) {
        exists|k: int| #[trigger] is_first_new(visited, further, k) && r == further[k]
    } else if some_left(disasm, visited) {
        is_first_left(disasm, visited, r)
    } else {
        r == first
    }
}

/// Whether the first mutation and the one that is kept in its place were counted, and nothing else.
pub open spec fn is_counted(
    before: Visited,
    first: MutationRecord,
    r: MutationRecord,
    after: Visited,
) -> bool {
    forall|m: Mutation| #[trigger]
        after.count(m) == before.count(m) + (if m == key_of(first) {
            1int
        } else {
            0
        }) + (if m == key_of(r) && was_made(before, first) && !was_made(before, r) {
            1int
        } else {
            0
        })
}

/// Keeps one of a first mutation and further ones, and counts it.
pub fn keep_mutation(
    disasm: &DisassemblyResult,
    first: MutationRecord,
    further: Vec<MutationRecord>,
    visited: &mut Visited,
) -> (r: MutationRecord)
    requires
        jumps_ok(*disasm),
        old(visited).count(key_of(first)) < u32::MAX,
    ensures
        is_kept(*disasm, *old(visited), first, further@, r),
        is_counted(*old(visited), first, r, *final(visited)),
{
    let ghost before = *visited;
    if visited.record(first.file_offset, &first.new_bytes) == 1 {
        return first;
    }
    let ghost between = *visited;
    assert(forall|m: Mutation| #[trigger] between.count(m) > 0 <==> before.count(m) > 0);
    let ghost all = further@;
    let mut rest = further;
    let n = rest.len();
    let mut i: usize = 0;
    while i < n
        invariant
            n == rest@.len(),
            all == rest@,
            all == further@,
            i <= n,
            was_made(before, first),
            is_counted(before, first, first, between),
            forall|m: Mutation| #[trigger] between.count(m) > 0 <==> before.count(m) > 0,
            forall|m: Mutation| #[trigger] visited.count(m) == between.count(m),
            forall|k: int| 0 <= k < i ==> was_made(before, #[trigger] all[k]),
            before == *old(visited),
        decreases n - i,
    {
        if visited.claim(rest[i].file_offset, &rest[i].new_bytes) {
            assert(between.count(key_of(all[i as int])) == 0);
            assert(is_first_new(before, all, i as int));
            return rest.remove(i);
        }
        assert(between.count(key_of(all[i as int])) > 0);
        i = i + 1;
    }
    proof {
        assert forall|m: MutationRecord| was_made(*visited, m) == #[trigger] was_made(before, m) by {
            assert(visited.count(key_of(m)) == between.count(key_of(m)));
        }
        assert(forall|k: int| #[trigger] is_first_new(before, all, k) ==> false);
        assert(some_left(*disasm, *visited) <==> some_left(*disasm, before)) by {
            if some_left(*disasm, *visited) {
                let m = choose|m: MutationRecord| #[trigger]
                    is_mutation(*disasm, m) && !was_made(*visited, m);
                assert(!was_made(before, m));
            }
            if some_left(*disasm, before) {
                let m = choose|m: MutationRecord| #[trigger]
                    is_mutation(*disasm, m) && !was_made(before, m);
                assert(!was_made(*visited, m));
            }
        }
    }
    let ghost now = *visited;
    match first_left(disasm, visited) {
        Some(other) => {
            let _ = visited.claim(other.file_offset, &other.new_bytes);
            proof {
                lemma_first_left_same(*disasm, now, before, other);
                assert(now.count(key_of(other)) == between.count(key_of(other)));
                assert forall|m: Mutation| #[trigger] visited.count(m) == before.count(m) + (if m
                    == key_of(first) {
                    1int
                } else {
                    0
                }) + (if m == key_of(other) && was_made(before, first) && !was_made(before, other) {
                    1int
                } else {
                    0
                }) by {
                    assert(now.count(m) == between.count(m));
                }
            }
            other
        },
        None => {
            proof {
                assert forall|m: Mutation| #[trigger] visited.count(m) == before.count(m) + (if m
                    == key_of(first) {
                    1int
                } else {
                    0
                }) by {
                    assert(visited.count(m) == between.count(m));
                }
            }
            first
        },
    }
}

/// What is left depends only on what was made, not how often.
proof fn lemma_first_left_same(
    disasm: DisassemblyResult,
    a: Visited,
    b: Visited,
    record: MutationRecord,
)
    requires
        forall|m: Mutation| #[trigger] a.count(m) > 0 <==> b.count(m) > 0,
        is_first_left(disasm, a, record),
    ensures
        is_first_left(disasm, b, record),
{
    let (j, c) = choose|j: int, c: int| #[trigger]
        stands_at(disasm, record, j, c) && !was_made(a, record) && forall|j2: int, c2: int|
            0 <= j2 <= j && 0 <= c2 < change_count(disasm.jumps.seq()[j2].1.hex_data@) && (j2 < j
                || c2 < c) ==> #[trigger] made_at(disasm, a, j2, c2);
    assert(stands_at(disasm, record, j, c));
    assert(a.count(key_of(record)) == 0);
    assert forall|j2: int, c2: int|
        0 <= j2 <= j && 0 <= c2 < change_count(disasm.jumps.seq()[j2].1.hex_data@) && (j2 < j || c2
            < c) implies #[trigger] made_at(disasm, b, j2, c2) by {
        assert(made_at(disasm, a, j2, c2));
    }
}

/// What is drawn for one mutation: a first one, and further ones where that was made before. Each
/// comes of the numbers that were drawn for it.
pub struct Draws {
    pub numbers: Numbers,
    pub first: MutationRecord,
    pub further_numbers: Seq<Numbers>,
    pub further: Seq<MutationRecord>,
}

/// Whether a mutation is made in this way, when these are drawn.
pub open spec fn is_step(
    disasm: DisassemblyResult,
    avoid_repeats: bool,
    before: Visited,
    draws: Draws,
    r: MutationRecord,
    after: Visited,
) -> bool {
    &&& came_up(disasm, draws.numbers, draws.first)
    &&& are_drawn(disasm, draws.further_numbers, draws.further)
    &&& is_mutation(disasm, draws.first)
    &&& is_mutation(disasm, r)
    &&& if !avoid_repeats {
        draws.further.len() == 0 && r == draws.first && after == before
    } else {
        &&& if was_made(before, draws.first) {
            is_search(disasm, before, draws.further)
        } else {
            draws.further.len() == 0
        }
        &&& is_kept(disasm, before, draws.first, draws.further, r)
        &&& is_counted(before, draws.first, r, after)
    }
}

/// Whether these mutations are what `draw_unvisited` gives when it is called on this generator.
pub closed spec fn is_searched(
    disasm: DisassemblyResult,
    visited: Visited,
    rng: &mut StdRng,
    drawn: Vec<MutationRecord>,
) -> bool {
    call_ensures(draw_unvisited, (&disasm, &visited, rng), drawn)
}

/// Searches for a mutation that was not made before.
fn search(disasm: &DisassemblyResult, visited: &Visited, rng: &mut StdRng) -> (r: Vec<
    MutationRecord,
>)
    requires
        disasm.jumps.seq().len() > 0,
        jumps_ok(*disasm),
    ensures
        is_search(*disasm, *visited, r@),
        exists|numbers: Seq<Numbers>| #[trigger] are_drawn(*disasm, numbers, r@),
        exists|y: &mut StdRng| #[trigger]
            is_searched(*disasm, *visited, y, r) && *y == *old(rng) && *final(y) == *final(rng),
{
    let r = draw_unvisited(disasm, visited, rng);
    proof {
        let y = choose|y: &mut StdRng| #[trigger]
            call_ensures(draw_unvisited, (disasm, visited, y), r) && *y == *old(rng) && *final(y)
                == *rng;
        assert(is_searched(*disasm, *visited, y, r));
    }
    r
}

/// The next mutation of a mutant. One that was made before is replaced, as long as there are others.
fn next_mutation(
    disasm: &DisassemblyResult,
    avoid_repeats: bool,
    visited: &mut Visited,
    rng: &mut StdRng,
) -> (r: MutationRecord)
    requires
        disasm.jumps.seq().len() > 0,
        jumps_ok(*disasm),
        avoid_repeats ==> forall|m: Mutation| #[trigger] old(visited).count(m) < u32::MAX,
    ensures
        exists|draws: Draws| #[trigger]
            is_step(*disasm, avoid_repeats, *old(visited), draws, r, *final(visited)),
        exists|x: &mut StdRng, first: MutationRecord| #[trigger]
            is_taken(*disasm, x, first) && *x == *old(rng) && (if !avoid_repeats || !was_made(
                *old(visited),
                first,
            ) {
                r == first && *final(x) == *final(rng)
            } else {
                exists|y: &mut StdRng, drawn: Vec<MutationRecord>| #[trigger]
                    is_searched(*disasm, *old(visited), y, drawn) && *y == *final(x) && *final(y)
                        == *final(rng) && is_kept(*disasm, *old(visited), first, drawn@, r)
            }),
{
    let first = take_mutation(disasm, rng);
    let ghost numbers = choose|numbers: Numbers| #[trigger] came_up(*disasm, numbers, first);
    if !avoid_repeats {
        proof {
            let draws = Draws {
                numbers,
                first,
                further_numbers: Seq::empty(),
                further: Seq::empty(),
            };
            assert(is_step(*disasm, avoid_repeats, *old(visited), draws, first, *visited));
        }
        return first;
    }
    let further = if visited.contains(first.file_offset, &first.new_bytes) {
        search(disasm, visited, rng)
    } else {
        assert(are_drawn(*disasm, Seq::empty(), Seq::empty()));
        Vec::new()
    };
    let ghost further_numbers = choose|numbers: Seq<Numbers>| #[trigger]
        are_drawn(*disasm, numbers, further@);
    let ghost draws = Draws { numbers, first, further_numbers, further: further@ };
    let r = keep_mutation(disasm, first, further, visited);
    proof {
        lemma_kept_is_mutation(*disasm, *old(visited), draws.first, draws.further, r);
        assert(is_step(*disasm, avoid_repeats, *old(visited), draws, r, *visited));
    }
    r
}

proof fn lemma_kept_is_mutation(
    disasm: DisassemblyResult,
    visited: Visited,
    first: MutationRecord,
    further: Seq<MutationRecord>,
    r: MutationRecord,
)
    requires
        disasm.jumps.ok(),
        is_mutation(disasm, first),
        forall|k: int| 0 <= k < further.len() ==> is_mutation(disasm, #[trigger] further[k]),
        is_kept(disasm, visited, first, further, r),
    ensures
        is_mutation(disasm, r),
{
    if was_made(visited, first) && !has_new(visited, further) && some_left(disasm, visited) {
        let (j, c) = choose|j: int, c: int| #[trigger] stands_at(disasm, r, j, c);
        let all = disasm.jumps.seq();
        lemma_entry::<usize, JumpInfo>(all, j);
        lemma_nth_change(all[j].1.hex_data@, r.new_bytes@);
        assert(r.new_bytes@ == nth_change(all[j].1.hex_data@, c));
    }
}

/// Whether the mutations of a mutant are made in this way, one after the other, when these are
/// drawn. `states` is what was made before each of them, and after the last.
pub open spec fn is_course(
    disasm: DisassemblyResult,
    avoid_repeats: bool,
    states: Seq<Visited>,
    draws: Seq<Draws>,
    records: Seq<MutationRecord>,
) -> bool {
    &&& draws.len() == records.len()
    &&& states.len() == records.len() + 1
    &&& forall|k: int|
        0 <= k < records.len() ==> is_step(
            disasm,
            avoid_repeats,
            states[k],
            #[trigger] draws[k],
            records[k],
            states[k + 1],
        )
}

/// Whether a mutation is what `next_mutation` gives when it is called on this generator.
pub closed spec fn is_next(
    disasm: DisassemblyResult,
    avoid_repeats: bool,
    visited: &mut Visited,
    rng: &mut StdRng,
    record: MutationRecord,
) -> bool {
    call_ensures(next_mutation, (&disasm, avoid_repeats, visited, rng), record)
}

/// Makes the next mutation.
fn make_mutation(
    disasm: &DisassemblyResult,
    avoid_repeats: bool,
    visited: &mut Visited,
    rng: &mut StdRng,
) -> (r: MutationRecord)
    requires
        disasm.jumps.seq().len() > 0,
        jumps_ok(*disasm),
        avoid_repeats ==> forall|m: Mutation| #[trigger] old(visited).count(m) < u32::MAX,
    ensures
        exists|draws: Draws| #[trigger]
            is_step(*disasm, avoid_repeats, *old(visited), draws, r, *final(visited)),
        exists|v: &mut Visited, x: &mut StdRng| #[trigger]
            is_next(*disasm, avoid_repeats, v, x, r) && *x == *old(rng) && *final(x) == *final(rng)
                && *v == *old(visited) && *final(v) == *final(visited),
{
    let r = next_mutation(disasm, avoid_repeats, visited, rng);
    proof {
        let (v, x) = choose|v: &mut Visited, x: &mut StdRng| #[trigger]
            call_ensures(next_mutation, (disasm, avoid_repeats, v, x), r) && *x == *old(rng)
                && *final(x) == *rng && *v == *old(visited) && *final(v) == *visited;
        assert(is_next(*disasm, avoid_repeats, v, x, r));
    }
    r
}

/// Makes a mutant: a binary in which some jumps, drawn at random, are changed. There is none where
/// there is no jump.
#[verifier::spinoff_prover]
pub fn create_mutant(
    original: &[u8],
    disasm: &DisassemblyResult,
    order: usize,
    avoid_repeats: bool,
    visited: &mut Visited,
    rng: &mut StdRng,
) -> (r: Option<(Vec<u8>, Vec<MutationRecord>)>)
    requires
        jumps_ok(*disasm),
        avoid_repeats ==> forall|m: Mutation| #[trigger]
            old(visited).count(m) + order <= u32::MAX,
    ensures
        r is None <==> disasm.jumps.seq().len() == 0,
        r is None || !avoid_repeats ==> *final(visited) == *old(visited),
        r is Some ==> {
            let (mutant, records) = r->0;
            &&& records@.len() == order
            &&& mutant@ == patched_all(original@, records@)
            &&& exists|states: Seq<Visited>, draws: Seq<Draws>| #[trigger]
                is_course(*disasm, avoid_repeats, states, draws, records@) && states[0] == *old(
                    visited,
                ) && states.last() == *final(visited)
            &&& exists|rngs: Seq<StdRng>| #[trigger]
                is_stretch(rngs, records@.len()) && rngs[0] == *old(rng) && rngs.last()
                    == *final(rng) && forall|k: int|
                    0 <= k < records@.len() && is_mutation(*disasm, #[trigger] records@[k])
                        ==> exists|v: &mut Visited, x: &mut StdRng| #[trigger]
                        is_next(*disasm, avoid_repeats, v, x, records@[k]) && *x == rngs[k]
                            && *final(x) == rngs[k + 1]
            &&& forall|k: int| 0 <= k < records@.len() ==> is_mutation(*disasm, #[trigger] records@[k])
            &&& avoid_repeats && order > 0 && some_left(*disasm, *old(visited)) ==> !was_made(
                *old(visited),
                records@[0],
            )
            &&& avoid_repeats ==> forall|k: int|
                0 <= k < records@.len() ==> was_made(*final(visited), #[trigger] records@[k])
        },
        forall|m: Mutation| #[trigger]
            final(visited).count(m) >= old(visited).count(m) && final(visited).count(m) <= old(
                visited,
            ).count(m) + (if avoid_repeats {
                order as int
            } else {
                0
            }),
{
    if disasm.jumps.is_empty() {
        return None;
    }
    let mut mutated = copy(original);
    let mut records: Vec<MutationRecord> = Vec::new();
    let ghost mut states: Seq<Visited> = seq![*visited];
    let ghost mut draws: Seq<Draws> = Seq::empty();
    let ghost mut rngs: Seq<StdRng> = seq![*rng];
    let mut i: usize = 0;
    while i < order
        invariant
            is_stretch(rngs, records@.len()),
            rngs[0] == *old(rng),
            rngs.last() == *rng,
            forall|k: int|
                0 <= k < records@.len() && is_mutation(*disasm, #[trigger] records@[k])
                    ==> exists|v: &mut Visited, x: &mut StdRng| #[trigger]
                    is_next(*disasm, avoid_repeats, v, x, records@[k]) && *x == rngs[k] && *final(x)
                        == rngs[k + 1],
            jumps_ok(*disasm),
            disasm.jumps.seq().len() > 0,
            avoid_repeats ==> forall|m: Mutation| #[trigger]
                old(visited).count(m) + order <= u32::MAX,
            i <= order,
            records@.len() == i,
            mutated@ == patched_all(original@, records@),
            is_course(*disasm, avoid_repeats, states, draws, records@),
            states[0] == *old(visited),
            states.last() == *visited,
            !avoid_repeats ==> *visited == *old(visited),
            forall|k: int| 0 <= k < i ==> is_mutation(*disasm, #[trigger] records@[k]),
            avoid_repeats && i > 0 && some_left(*disasm, *old(visited)) ==> !was_made(
                *old(visited),
                records@[0],
            ),
            avoid_repeats ==> forall|k: int|
                0 <= k < i ==> was_made(*visited, #[trigger] records@[k]),
            forall|m: Mutation| #[trigger]
                visited.count(m) >= old(visited).count(m) && visited.count(m) <= old(visited).count(
                    m,
                ) + (if avoid_repeats {
                    i as int
                } else {
                    0
                }),
        decreases order - i,
    {
        let ghost before = *visited;
        let ghost records0 = records@;
        proof {
            assert forall|m: Mutation| avoid_repeats implies #[trigger] visited.count(m)
                < u32::MAX by {
                assert(old(visited).count(m) + order <= u32::MAX);
            }
        }
        let ghost rng0 = *rng;
        let record = make_mutation(disasm, avoid_repeats, visited, rng);
        let ghost (rngs0, record0) = (rngs, record);
        proof {
            rngs = rngs.push(*rng);
            let drawn = choose|drawn: Draws| #[trigger]
                is_step(*disasm, avoid_repeats, before, drawn, record, *visited);
            lemma_step_counts(*disasm, avoid_repeats, before, drawn, record, *visited);
            let states0 = states;
            let draws0 = draws;
            states = states.push(*visited);
            draws = draws.push(drawn);
            let more = records0.push(record);
            assert forall|k: int| 0 <= k < more.len() implies is_step(
                *disasm,
                avoid_repeats,
                states[k],
                #[trigger] draws[k],
                more[k],
                states[k + 1],
            ) by {
                if k < i {
                    assert(draws0[k] == draws[k]);
                    assert(states0[k] == states[k]);
                    assert(states0[k + 1] == states[k + 1]);
                }
            }
        }
        apply_mutation(&mut mutated, record.file_offset, &record.new_bytes);
        records.push(record);
        proof {
            assert(records@.drop_last() =~= records0);
            assert forall|k: int|
                0 <= k < records@.len() && is_mutation(*disasm, #[trigger] records@[k]) implies exists|
                v: &mut Visited,
                x: &mut StdRng,
            | #[trigger]
                is_next(*disasm, avoid_repeats, v, x, records@[k]) && *x == rngs[k] && *final(x)
                    == rngs[k + 1] by {
                if k < i {
                    assert(records@[k] == records0[k]);
                    assert(rngs[k] == rngs0[k] && rngs[k + 1] == rngs0[k + 1]);
                    let (v, x) = choose|v: &mut Visited, x: &mut StdRng| #[trigger]
                        is_next(*disasm, avoid_repeats, v, x, records0[k]) && *x == rngs0[k]
                            && *final(x) == rngs0[k + 1];
                    assert(is_next(*disasm, avoid_repeats, v, x, records@[k]));
                } else {
                    assert(records@[k] == record0);
                    let (v, x) = choose|v: &mut Visited, x: &mut StdRng| #[trigger]
                        is_next(*disasm, avoid_repeats, v, x, record0) && *x == rng0 && *final(x)
                            == *rng;
                    assert(is_next(*disasm, avoid_repeats, v, x, records@[k]));
                }
            }
            assert forall|m: Mutation| #[trigger]
                visited.count(m) >= old(visited).count(m) && visited.count(m) <= old(visited).count(
                    m,
                ) + (if avoid_repeats {
                    i + 1
                } else {
                    0
                }) by {
                assert(before.count(m) >= old(visited).count(m));
            }
            assert forall|k: int| avoid_repeats && 0 <= k < i + 1 implies was_made(
                *visited,
                #[trigger] records@[k],
            ) by {
                if k < i {
                    assert(records0[k] == records@[k]);
                    assert(before.count(key_of(records0[k])) > 0);
                }
            }
            if i > 0 {
                assert(records@[0] == records0[0]);
            }
        }
        i = i + 1;
    }
    assert(is_course(*disasm, avoid_repeats, states, draws, records@) && states[0] == *old(visited)
        && states.last() == *visited);
    assert(is_stretch(rngs, records@.len()) && rngs[0] == *old(rng) && rngs.last() == *rng);
    assert(records@.len() == order && mutated@ == patched_all(original@, records@));
    Some((mutated, records))
}

/// A step counts the mutation that it makes; a mutation is counted once at most; and one that was
/// made before is made again only where none is left.
proof fn lemma_step_counts(
    disasm: DisassemblyResult,
    avoid_repeats: bool,
    before: Visited,
    draws: Draws,
    r: MutationRecord,
    after: Visited,
)
    requires
        is_step(disasm, avoid_repeats, before, draws, r, after),
    ensures
        forall|m: Mutation| #[trigger]
            after.count(m) >= before.count(m) && after.count(m) <= before.count(m) + (if avoid_repeats {
                1int
            } else {
                0
            }),
        avoid_repeats ==> was_made(after, r),
        avoid_repeats && some_left(disasm, before) ==> !was_made(before, r),
{
    if avoid_repeats {
        assert forall|m: Mutation| #[trigger]
            after.count(m) >= before.count(m) && after.count(m) <= before.count(m) + 1 by {
            if m == key_of(r) && was_made(before, draws.first) && !was_made(before, r) {
                assert(key_of(r) != key_of(draws.first));
            }
        }
        assert(after.count(key_of(r)) > 0);
    }
}

/// As long as a mutation is left that was not made, no mutation of a mutant was made before, and
/// none is made twice.
pub proof fn law_mutants_are_not_reused(
    disasm: DisassemblyResult,
    states: Seq<Visited>,
    draws: Seq<Draws>,
    records: Seq<MutationRecord>,
)
    requires
        is_course(disasm, true, states, draws, records),
        some_left(disasm, states.last()),
    ensures
        forall|k: int| 0 <= k < records.len() ==> !was_made(states[0], #[trigger] records[k]),
        forall|i: int, k: int|
            0 <= i < k < records.len() ==> key_of(#[trigger] records[i]) != key_of(
                #[trigger] records[k],
            ),
{
    let n = records.len() as int;
    let left = choose|m: MutationRecord| #[trigger]
        is_mutation(disasm, m) && !was_made(states.last(), m);
    assert forall|k: int| 0 <= k < n implies !was_made(states[k], #[trigger] records[k])
        && was_made(states[k + 1], records[k]) by {
        assert(is_step(disasm, true, states[k], draws[k], records[k], states[k + 1]));
        lemma_step_counts(disasm, true, states[k], draws[k], records[k], states[k + 1]);
        lemma_counts_grow(disasm, true, states, draws, records, k, n, key_of(left));
        assert(!was_made(states[k], left));
    }
    assert forall|k: int| 0 <= k < n implies !was_made(states[0], #[trigger] records[k]) by {
        lemma_counts_grow(disasm, true, states, draws, records, 0, k, key_of(records[k]));
        assert(!was_made(states[k], records[k]));
    }
    assert forall|i: int, k: int| 0 <= i < k < n implies key_of(#[trigger] records[i]) != key_of(
        #[trigger] records[k],
    ) by {
        lemma_counts_grow(disasm, true, states, draws, records, i + 1, k, key_of(records[i]));
        assert(was_made(states[i + 1], records[i]));
        assert(!was_made(states[k], records[k]));
    }
}

proof fn lemma_counts_grow(
    disasm: DisassemblyResult,
    avoid_repeats: bool,
    states: Seq<Visited>,
    draws: Seq<Draws>,
    records: Seq<MutationRecord>,
    i: int,
    k: int,
    m: Mutation,
)
    requires
        is_course(disasm, avoid_repeats, states, draws, records),
        0 <= i <= k <= records.len(),
    ensures
        states[i].count(m) <= states[k].count(m),
    decreases k - i,
{
    if i < k {
        lemma_counts_grow(disasm, avoid_repeats, states, draws, records, i, k - 1, m);
        let j = k - 1;
        assert(is_step(disasm, avoid_repeats, states[j], draws[j], records[j], states[j + 1]));
        lemma_step_counts(disasm, avoid_repeats, states[j], draws[j], records[j], states[j + 1]);
        assert(states[k].count(m) >= states[j].count(m));
    }
}

/// Whether two mutations put the same bytes in the same places.
pub open spec fn same_mutations(a: Seq<MutationRecord>, b: Seq<MutationRecord>) -> bool {
    a.len() == b.len() && forall|k: int|
        0 <= k < a.len() ==> key_of(#[trigger] a[k]) == key_of(b[k])
}

/// Whether the same numbers were drawn for the mutations of two mutants.
pub open spec fn same_numbers(a: Seq<Draws>, b: Seq<Draws>) -> bool {
    a.len() == b.len() && forall|k: int|
        0 <= k < a.len() ==> (#[trigger] a[k]).numbers == b[k].numbers && a[k].further_numbers
            == b[k].further_numbers
}

/// Where the same was made before and the same numbers are drawn, the same mutations are made, of a
/// binary comes the same mutant, and the same is counted.
pub proof fn law_same_numbers_same_mutant(
    disasm: DisassemblyResult,
    avoid_repeats: bool,
    binary: Seq<u8>,
    draws_a: Seq<Draws>,
    states_a: Seq<Visited>,
    records_a: Seq<MutationRecord>,
    draws_b: Seq<Draws>,
    states_b: Seq<Visited>,
    records_b: Seq<MutationRecord>,
)
    requires
        is_course(disasm, avoid_repeats, states_a, draws_a, records_a),
        is_course(disasm, avoid_repeats, states_b, draws_b, records_b),
        same_numbers(draws_a, draws_b),
        forall|m: Mutation| #[trigger] states_a[0].count(m) == states_b[0].count(m),
    ensures
        same_mutations(records_a, records_b),
        patched_all(binary, records_a) == patched_all(binary, records_b),
        forall|m: Mutation| #[trigger] states_a.last().count(m) == states_b.last().count(m),
    decreases draws_a.len(),
{
    if draws_a.len() > 0 {
        let n = draws_a.len() - 1;
        let (sa, sb) = (states_a.drop_last(), states_b.drop_last());
        let (ra, rb) = (records_a.drop_last(), records_b.drop_last());
        let (da, db) = (draws_a.drop_last(), draws_b.drop_last());
        lemma_shorter_course(disasm, avoid_repeats, states_a, draws_a, records_a);
        lemma_shorter_course(disasm, avoid_repeats, states_b, draws_b, records_b);
        assert(same_numbers(da, db)) by {
            assert forall|k: int| 0 <= k < da.len() implies (#[trigger] da[k]).numbers
                == db[k].numbers && da[k].further_numbers == db[k].further_numbers by {
                assert(da[k] == draws_a[k] && db[k] == draws_b[k]);
            }
        }
        law_same_numbers_same_mutant(disasm, avoid_repeats, binary, da, sa, ra, db, sb, rb);
        assert(draws_a[n].numbers == draws_b[n].numbers);
        assert(is_step(
            disasm,
            avoid_repeats,
            states_a[n],
            draws_a[n],
            records_a[n],
            states_a[n + 1],
        ));
        assert(is_step(
            disasm,
            avoid_repeats,
            states_b[n],
            draws_b[n],
            records_b[n],
            states_b[n + 1],
        ));
        assert(sa.last() == states_a[n] && sb.last() == states_b[n]);
        lemma_same_step(
            disasm,
            avoid_repeats,
            draws_a[n],
            states_a[n],
            records_a[n],
            states_a[n + 1],
            draws_b[n],
            states_b[n],
            records_b[n],
            states_b[n + 1],
        );
        assert forall|k: int| 0 <= k < records_a.len() implies key_of(#[trigger] records_a[k])
            == key_of(records_b[k]) by {
            if k < n {
                assert(key_of(ra[k]) == key_of(rb[k]));
            }
        }
    }
}

/// All but the last of the mutations are made in the same way.
proof fn lemma_shorter_course(
    disasm: DisassemblyResult,
    avoid_repeats: bool,
    states: Seq<Visited>,
    draws: Seq<Draws>,
    records: Seq<MutationRecord>,
)
    requires
        is_course(disasm, avoid_repeats, states, draws, records),
        records.len() > 0,
    ensures
        is_course(
            disasm,
            avoid_repeats,
            states.drop_last(),
            draws.drop_last(),
            records.drop_last(),
        ),
{
    let (s, d, r) = (states.drop_last(), draws.drop_last(), records.drop_last());
    assert forall|k: int| 0 <= k < r.len() implies is_step(
        disasm,
        avoid_repeats,
        s[k],
        #[trigger] d[k],
        r[k],
        s[k + 1],
    ) by {
        assert(d[k] == draws[k]);
    }
}

/// The same numbers give the same mutation.
proof fn lemma_same_drawn(
    disasm: DisassemblyResult,
    numbers: Numbers,
    a: MutationRecord,
    b: MutationRecord,
)
    requires
        is_drawn(disasm, numbers, a),
        is_drawn(disasm, numbers, b),
    ensures
        key_of(a) == key_of(b),
{
}

proof fn lemma_same_step(
    disasm: DisassemblyResult,
    avoid_repeats: bool,
    da: Draws,
    a: Visited,
    r: MutationRecord,
    after_a: Visited,
    db: Draws,
    b: Visited,
    q: MutationRecord,
    after_b: Visited,
)
    requires
        is_step(disasm, avoid_repeats, a, da, r, after_a),
        is_step(disasm, avoid_repeats, b, db, q, after_b),
        da.numbers == db.numbers,
        da.further_numbers == db.further_numbers,
        forall|m: Mutation| #[trigger] a.count(m) == b.count(m),
    ensures
        key_of(r) == key_of(q),
        forall|m: Mutation| #[trigger] after_a.count(m) == after_b.count(m),
{
    lemma_same_drawn(disasm, da.numbers, da.first, db.first);
    if avoid_repeats {
        assert forall|m: MutationRecord| was_made(a, m) == #[trigger] was_made(b, m) by {
            assert(a.count(key_of(m)) == b.count(key_of(m)));
        }
        assert(was_made(a, da.first) == was_made(b, da.first));
        assert forall|i: int| 0 <= i < da.further.len() implies key_of(#[trigger] da.further[i])
            == key_of(db.further[i]) by {
            assert(came_up(disasm, da.further_numbers[i], da.further[i]));
            assert(came_up(disasm, db.further_numbers[i], db.further[i]));
        }
        if was_made(a, da.first) {
            assert forall|k: int| is_first_new(a, da.further, k) implies #[trigger] is_first_new(
                b,
                db.further,
                k,
            ) by {
                lemma_same_first_new(a, da.further, b, db.further, k);
            }
            assert forall|k: int| is_first_new(b, db.further, k) implies #[trigger] is_first_new(
                a,
                da.further,
                k,
            ) by {
                assert forall|i: int| 0 <= i < db.further.len() implies key_of(
                    #[trigger] db.further[i],
                ) == key_of(da.further[i]) by {
                    assert(key_of(da.further[i]) == key_of(db.further[i]));
                }
                lemma_same_first_new(b, db.further, a, da.further, k);
            }
            if has_new(a, da.further) {
                let i = choose|k: int| #[trigger]
                    is_first_new(a, da.further, k) && r == da.further[k];
                assert(is_first_new(b, db.further, i));
                let k = choose|k: int| #[trigger]
                    is_first_new(b, db.further, k) && q == db.further[k];
                assert(is_first_new(b, db.further, i) && is_first_new(b, db.further, k));
                assert(i == k);
                assert(key_of(da.further[i]) == key_of(db.further[i]));
            } else {
                assert(!has_new(b, db.further)) by {
                    if has_new(b, db.further) {
                        let k = choose|k: int| #[trigger] is_first_new(b, db.further, k);
                        assert(is_first_new(a, da.further, k));
                    }
                }
                assert(some_left(disasm, a) == some_left(disasm, b)) by {
                    assert(forall|m: MutationRecord| #[trigger]
                        is_mutation(disasm, m) ==> was_made(a, m) == was_made(b, m));
                }
                if some_left(disasm, a) {
                    lemma_first_left_same(disasm, b, a, q);
                    lemma_first_left_unique(disasm, a, r, q);
                }
            }
        }
        assert(key_of(r) == key_of(q));
        assert(was_made(a, r) == was_made(b, q)) by {
            assert(a.count(key_of(r)) == b.count(key_of(q)));
        }
        assert forall|m: Mutation| #[trigger] after_a.count(m) == after_b.count(m) by {
            assert(a.count(m) == b.count(m));
            assert(after_b.count(m) >= 0);
        }
    }
}

proof fn lemma_same_first_new(
    a: Visited,
    xs: Seq<MutationRecord>,
    b: Visited,
    ys: Seq<MutationRecord>,
    k: int,
)
    requires
        xs.len() == ys.len(),
        forall|i: int| 0 <= i < xs.len() ==> key_of(#[trigger] xs[i]) == key_of(ys[i]),
        forall|m: Mutation| #[trigger] a.count(m) == b.count(m),
        is_first_new(a, xs, k),
    ensures
        is_first_new(b, ys, k),
{
    assert forall|i: int| 0 <= i < xs.len() implies was_made(a, xs[i]) == was_made(
        b,
        #[trigger] ys[i],
    ) by {
        assert(key_of(xs[i]) == key_of(ys[i]));
        assert(a.count(key_of(xs[i])) == b.count(key_of(ys[i])));
    }
    assert(was_made(a, xs[k]) == was_made(b, ys[k]));
}

proof fn lemma_first_left_unique(
    disasm: DisassemblyResult,
    visited: Visited,
    r: MutationRecord,
    q: MutationRecord,
)
    requires
        is_first_left(disasm, visited, r),
        is_first_left(disasm, visited, q),
    ensures
        key_of(r) == key_of(q),
{
    let (j, c) = choose|j: int, c: int| #[trigger]
        stands_at(disasm, r, j, c) && !was_made(visited, r) && forall|j2: int, c2: int|
            0 <= j2 <= j && 0 <= c2 < change_count(disasm.jumps.seq()[j2].1.hex_data@) && (j2 < j
                || c2 < c) ==> #[trigger] made_at(disasm, visited, j2, c2);
    let (i, d) = choose|j: int, c: int| #[trigger]
        stands_at(disasm, q, j, c) && !was_made(visited, q) && forall|j2: int, c2: int|
            0 <= j2 <= j && 0 <= c2 < change_count(disasm.jumps.seq()[j2].1.hex_data@) && (j2 < j
                || c2 < c) ==> #[trigger] made_at(disasm, visited, j2, c2);
    assert(!made_at(disasm, visited, j, c));
    assert(!made_at(disasm, visited, i, d));
}

/// A mutation leaves the size of a binary as it is, and changes nothing but the bytes of the jump.
pub proof fn law_mutation_is_local(binary: Seq<u8>, offset: int, bytes: Seq<u8>, i: int)
    requires
        0 <= i < binary.len(),
    ensures
        patched(binary, offset, bytes).len() == binary.len(),
        !(offset <= i < offset + bytes.len()) ==> patched(binary, offset, bytes)[i] == binary[i],
{
}

/// Putting back the bytes that a mutation replaced gives the binary again.
pub proof fn law_mutation_can_be_undone(binary: Seq<u8>, offset: int, bytes: Seq<u8>)
    requires
        0 <= offset,
        offset + bytes.len() <= binary.len(),
    ensures
        patched(
            patched(binary, offset, bytes),
            offset,
            binary.subrange(offset, offset + bytes.len()),
        ) == binary,
{
    assert(patched(
        patched(binary, offset, bytes),
        offset,
        binary.subrange(offset, offset + bytes.len()),
    ) =~= binary);
}

/// A mutant is as large as the binary that it was made of.
pub proof fn law_mutant_keeps_size(binary: Seq<u8>, records: Seq<MutationRecord>)
    ensures
        patched_all(binary, records).len() == binary.len(),
    decreases records.len(),
{
    if records.len() > 0 {
        law_mutant_keeps_size(binary, records.drop_last());
    }
}

/// Where the draws find nothing new, the mutation that is made was not made before, and none that was
/// not made before stands in front of it.
pub proof fn law_first_left_stands_first(
    disasm: DisassemblyResult,
    visited: Visited,
    r: MutationRecord,
    m: MutationRecord,
)
    requires
        disasm.jumps.ok(),
        is_first_left(disasm, visited, r),
        is_mutation(disasm, m),
        visited.count((m.file_offset, m.new_bytes@)) == 0,
    ensures
        visited.count((r.file_offset, r.new_bytes@)) == 0,
        r.file_offset <= m.file_offset,
{
    let all = disasm.jumps.seq();
    let (j, c) = choose|j: int, c: int| #[trigger]
        stands_at(disasm, r, j, c) && !was_made(visited, r) && forall|j2: int, c2: int|
            0 <= j2 <= j && 0 <= c2 < change_count(all[j2].1.hex_data@) && (j2 < j || c2 < c)
                ==> #[trigger] made_at(disasm, visited, j2, c2);
    let k = choose|k: int| 0 <= k < all.len() && (#[trigger] all[k]).0 == m.file_offset;
    lemma_entry::<usize, JumpInfo>(all, k);
    let hex = all[k].1.hex_data@;
    lemma_nth_change(hex, m.new_bytes@);
    let c2 = choose|c2: int|
        0 <= c2 < change_count(hex) && m.new_bytes@ == #[trigger] nth_change(hex, c2);
    if k < j {
        assert(made_at(disasm, visited, k, c2));
    } else if k > j {
        assert(<usize as Key>::lt(all[j].0, all[k].0));
    }
}

} // verus!
