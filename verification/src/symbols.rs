//! Names of functions.

use crate::coverage::text_option;
use crate::ordered::{has_key, lemma_entry, Key, SortedMap};
use crate::text::{append, chars_of, hexadecimal, hexadecimal_text, starts_with, text_starts_with};
use crate::trace::GuardTable;
use rustc_demangle::demangle;
use vstd::prelude::*;

verus! {

/// A symbol name as it stands in the source, without the hash at the end.
pub uninterp spec fn demangled(raw: Seq<char>) -> Seq<char>;

/// `rustc_demangle::demangle`, written out in the alternate form, gives the readable name of a
/// symbol. What it makes of a text depends on the text alone, and is named here.
#[verifier::external_body]
pub(crate) fn demangle_name(raw: &str) -> (r: String)
    ensures
        r@ == demangled(raw@),
{
    format!("{:#}", demangle(raw))
}

/// Names by address.
pub type SymbolTable = SortedMap<u64, String>;

/// The names by address, as texts.
pub open spec fn symbol_names(table: Map<u64, String>) -> Map<u64, Seq<char>> {
    table.map_values(|name: String| name@)
}

/// The name of the function at an address: that of the outermost function that the debug
/// information knows there; else that of the symbol, unless it is one of the coverage data; else
/// one made of the address.
pub open spec fn name_at(pc: u64, frame: Option<Seq<char>>, symbol: Option<Seq<char>>) -> Seq<char> {
    match frame {
        Some(name) => demangled(name),
        None => match symbol {
            Some(name) if name.len() > 0 && !text_starts_with(name, "__covrec_"@) => demangled(name),
            _ => "unknown_0x"@ + hexadecimal(pc as nat),
        },
    }
}

pub fn function_name_at(pc: u64, frame: Option<&str>, symbol: Option<&str>) -> (r: String)
    ensures
        r@ == name_at(pc, text_option(frame), text_option(symbol)),
{
    if let Some(name) = frame {
        return demangle_name(name);
    }
    if let Some(name) = symbol {
        if chars_of(name).len() > 0 && !starts_with(name, "__covrec_") {
            return demangle_name(name);
        }
    }
    let mut out = "unknown_0x".to_owned();
    let number = hexadecimal_text(pc);
    append(&mut out, number.as_str());
    out
}

/// The last name in a list in which some have none.
pub open spec fn last_named(frames: Seq<Option<String>>) -> Option<Seq<char>>
    decreases frames.len(),
{
    if frames.len() == 0 {
        None
    } else {
        match frames.last() {
            Some(name) => Some(name@),
            None => last_named(frames.drop_last()),
        }
    }
}

/// The name of the outermost function at an address. The functions there are inlined into each
/// other, the innermost first, and the debug information may not name them all.
pub fn outermost_function(frames: &[Option<String>]) -> (r: Option<&str>)
    ensures
        text_option(r) == last_named(frames@),
{
    let mut n: usize = frames.len();
    assert(frames@.take(n as int) =~= frames@);
    while n > 0
        invariant
            n <= frames@.len(),
            last_named(frames@.take(n as int)) == last_named(frames@),
        decreases n,
    {
        assert(frames@.take(n as int).drop_last() =~= frames@.take(n - 1));
        if let Some(name) = &frames[n - 1] {
            return Some(name.as_str());
        }
        n = n - 1;
    }
    None
}

/// Whether some place has that address.
pub open spec fn is_recorded(table: Map<u32, u64>, pc: u64) -> bool {
    exists|guard: u32| #[trigger] table.contains_key(guard) && table[guard] == pc
}

pub open spec fn ascending_numbers(s: Seq<u64>) -> bool {
    forall|i: int, j: int| 0 <= i < j < s.len() ==> #[trigger] s[i] < #[trigger] s[j]
}

/// The addresses of all places, each once, in ascending order.
pub fn unique_pcs(pc_table: &GuardTable) -> (r: Vec<u64>)
    ensures
        ascending_numbers(r@),
        forall|pc: u64| #[trigger] r@.contains(pc) <==> is_recorded(pc_table@, pc),
{
    let mut set: SortedMap<u64, ()> = SortedMap::new();
    let ghost all = pc_table.seq();
    let n = pc_table.len();
    let mut i: usize = 0;
    while i < n
        invariant
            all == pc_table.seq(),
            n == all.len(),
            i <= n,
            set.ok(),
            forall|pc: u64| #[trigger]
                set@.contains_key(pc) <==> exists|k: int| 0 <= k < i && (#[trigger] all[k]).1 == pc,
        decreases n - i,
    {
        let pc = *pc_table.value_at(i);
        let ghost before = set@;
        set.insert(pc, ());
        proof {
            assert forall|p: u64| #[trigger] set@.contains_key(p) <==> exists|k: int|
                0 <= k < i + 1 && (#[trigger] all[k]).1 == p by {
                assert(before.contains_key(p) <==> exists|k: int|
                    0 <= k < i && (#[trigger] all[k]).1 == p);
                if p == pc {
                    assert(all[i as int].1 == p);
                }
            }
        }
        i = i + 1;
    }
    let mut out: Vec<u64> = Vec::new();
    let m = set.len();
    let ghost pcs = set.seq();
    let mut j: usize = 0;
    while j < m
        invariant
            pcs == set.seq(),
            m == pcs.len(),
            j <= m,
            out@.len() == j,
            forall|k: int| 0 <= k < j ==> #[trigger] out@[k] == pcs[k].0,
        decreases m - j,
    {
        out.push(*set.key_at(j));
        j = j + 1;
    }
    proof {
        assert forall|a: int, b: int| 0 <= a < b < out@.len() implies #[trigger] out@[a]
            < #[trigger] out@[b] by {
            assert(<u64 as Key>::lt(pcs[a].0, pcs[b].0));
        }
        assert forall|pc: u64| #[trigger] out@.contains(pc) <==> is_recorded(pc_table@, pc) by {
            assert(set@.contains_key(pc) <==> exists|k: int|
                0 <= k < n && (#[trigger] all[k]).1 == pc);
            if out@.contains(pc) {
                let k = out@.index_of(pc);
                assert(pcs[k].0 == pc);
                assert(has_key(pcs, pc));
                let g = choose|g: int| 0 <= g < n && (#[trigger] all[g]).1 == pc;
                lemma_entry::<u32, u64>(all, g);
                assert(pc_table@.contains_key(all[g].0));
            }
            if is_recorded(pc_table@, pc) {
                let guard = choose|guard: u32| #[trigger]
                    pc_table@.contains_key(guard) && pc_table@[guard] == pc;
                let g = choose|g: int| 0 <= g < all.len() && (#[trigger] all[g]).0 == guard;
                lemma_entry::<u32, u64>(all, g);
                assert(set@.contains_key(pc));
                let k = choose|k: int| 0 <= k < pcs.len() && (#[trigger] pcs[k]).0 == pc;
                assert(out@[k] == pc);
            }
        }
    }
    out
}

/// Those of the addresses that have no name yet, in order.
pub open spec fn unnamed(pcs: Seq<u64>, names: Map<u64, String>) -> Seq<u64> {
    pcs.filter(|pc: u64| !names.contains_key(pc))
}

pub fn missing_pcs(pcs: &[u64], table: &SymbolTable) -> (r: Vec<u64>)
    ensures
        r@ == unnamed(pcs@, table@),
{
    let ghost new = |pc: u64| !table@.contains_key(pc);
    let n = pcs.len();
    let mut out: Vec<u64> = Vec::new();
    let mut i: usize = 0;
    assert(pcs@.take(0).filter(new) =~= Seq::empty()) by {
        reveal(Seq::filter);
    }
    while i < n
        invariant
            n == pcs@.len(),
            i <= n,
            new == (|pc: u64| !table@.contains_key(pc)),
            out@ == pcs@.take(i as int).filter(new),
        decreases n - i,
    {
        assert(pcs@.take(i + 1).drop_last() =~= pcs@.take(i as int));
        assert(pcs@.take(i + 1).last() == pcs@[i as int]);
        proof {
            reveal(Seq::filter);
        }
        if !table.contains(&pcs[i]) {
            out.push(pcs[i]);
        }
        i = i + 1;
    }
    assert(pcs@.take(n as int) =~= pcs@);
    out
}

/// The names of these addresses.
pub fn names_of(table: &SymbolTable, pcs: &[u64]) -> (r: SymbolTable)
    ensures
        r@ == table@.restrict(pcs@.to_set()),
{
    let n = pcs.len();
    let mut out: SymbolTable = SortedMap::new();
    let mut i: usize = 0;
    while i < n
        invariant
            n == pcs@.len(),
            i <= n,
            forall|pc: u64| #[trigger]
                out@.contains_key(pc) <==> table@.contains_key(pc) && pcs@.take(i as int).contains(
                    pc,
                ),
            forall|pc: u64| #[trigger] out@.contains_key(pc) ==> out@[pc] == table@[pc],
        decreases n - i,
    {
        let pc = pcs[i];
        let ghost before = out@;
        if let Some(name) = table.get(&pc) {
            out.insert(pc, name.clone());
        }
        proof {
            assert forall|p: u64| #[trigger] out@.contains_key(p) <==> table@.contains_key(p)
                && pcs@.take(i + 1).contains(p) by {
                assert(before.contains_key(p) <==> table@.contains_key(p) && pcs@.take(
                    i as int,
                ).contains(p));
                if pcs@.take(i as int).contains(p) {
                    let k = pcs@.take(i as int).index_of(p);
                    assert(pcs@.take(i + 1)[k] == p);
                }
                if pcs@.take(i + 1).contains(p) {
                    let k = pcs@.take(i + 1).index_of(p);
                    if k < i {
                        assert(pcs@.take(i as int)[k] == p);
                    }
                }
                if p == pc {
                    assert(pcs@.take(i + 1)[i as int] == p);
                }
            }
        }
        i = i + 1;
    }
    proof {
        assert(pcs@.take(n as int) =~= pcs@);
        assert(out@ =~= table@.restrict(pcs@.to_set()));
    }
    out
}

/// When the addresses that had no name have been named, every recorded address has one.
pub proof fn law_every_pc_is_named(
    recorded: Map<u32, u64>,
    pcs: Seq<u64>,
    cached: Map<u64, String>,
    found: Map<u64, String>,
    pc: u64,
)
    requires
        forall|p: u64| #[trigger] pcs.contains(p) <==> is_recorded(recorded, p),
        forall|p: u64| #[trigger] unnamed(pcs, cached).contains(p) ==> found.contains_key(p),
        is_recorded(recorded, pc),
    ensures
        cached.union_prefer_right(found).restrict(pcs.to_set()).contains_key(pc),
{
    assert(pcs.contains(pc));
    if !cached.contains_key(pc) {
        pcs.lemma_filter_contains_rev(|p: u64| !cached.contains_key(p), pc);
        assert(unnamed(pcs, cached).contains(pc));
    }
}

} // verus!
