//! Maps kept in ascending order of their keys.
//!
//! Walking such a map visits every key once, the smallest first, so whatever
//! is computed from a map depends on its contents alone.

use crate::text::{
    lemma_text_lt_irreflexive, lemma_text_lt_total, lemma_text_lt_transitive, text_eq, text_less,
    text_lt,
};
use vstd::prelude::*;

verus! {

/// A type whose values can serve as keys.
pub trait Key: Sized {
    /// What a key stands for: two keys are the same if and only if their models are.
    type Model;

    spec fn key(&self) -> Self::Model;

    spec fn lt(a: Self::Model, b: Self::Model) -> bool;

    proof fn lt_irreflexive(a: Self::Model)
        ensures
            !Self::lt(a, a),
    ;

    proof fn lt_transitive(a: Self::Model, b: Self::Model, c: Self::Model)
        requires
            Self::lt(a, b),
            Self::lt(b, c),
        ensures
            Self::lt(a, c),
    ;

    proof fn lt_total(a: Self::Model, b: Self::Model)
        ensures
            Self::lt(a, b) || Self::lt(b, a) || a == b,
    ;

    fn less(&self, other: &Self) -> (r: bool)
        ensures
            r == Self::lt(self.key(), other.key()),
    ;

    fn duplicate(&self) -> (r: Self)
        ensures
            r.key() == self.key(),
    ;
}

/// The keys of `s` go up strictly.
pub open spec fn ascending<K: Key, V>(s: Seq<(K::Model, V)>) -> bool {
    forall|i: int, j: int| 0 <= i < j < s.len() ==> K::lt(#[trigger] s[i].0, #[trigger] s[j].0)
}

/// Whether one of the entries of `s` has the key `k`.
pub open spec fn has_key<M, V>(s: Seq<(M, V)>, k: M) -> bool {
    exists|i: int| 0 <= i < s.len() && (#[trigger] s[i]).0 == k
}

/// The entries of `s` as a map.
pub open spec fn entries_map<M, V>(s: Seq<(M, V)>) -> Map<M, V> {
    Map::new(
        |k: M| has_key(s, k),
        |k: M| s[choose|i: int| 0 <= i < s.len() && (#[trigger] s[i]).0 == k].1,
    )
}

/// The keys of the entries.
pub open spec fn keys<M, V>(s: Seq<(M, V)>) -> Seq<M> {
    Seq::new(s.len(), |i: int| s[i].0)
}

/// A map whose entries stand in ascending order of their keys, each key once.
pub struct SortedMap<K: Key, V> {
    entries: Vec<(K, V)>,
}

/// A set of names.
pub type NameSet = SortedMap<String, ()>;

impl<K: Key, V> View for SortedMap<K, V> {
    type V = Map<K::Model, V>;

    open spec fn view(&self) -> Map<K::Model, V> {
        entries_map(self.seq())
    }
}

pub proof fn lemma_entry<K: Key, V>(s: Seq<(K::Model, V)>, i: int)
    requires
        ascending::<K, V>(s),
        0 <= i < s.len(),
    ensures
        entries_map(s).contains_key(s[i].0),
        entries_map(s)[s[i].0] == s[i].1,
{
    let k = s[i].0;
    assert(has_key(s, k));
    let j = choose|j: int| 0 <= j < s.len() && (#[trigger] s[j]).0 == k;
    K::lt_irreflexive(k);
    assert(i == j);
}

/// The keys of the first entries of `s`, one entry at a time.
pub proof fn lemma_has_key_take<M, V>(s: Seq<(M, V)>, i: int, k: M)
    requires
        0 <= i < s.len(),
    ensures
        has_key(s.take(i + 1), k) <==> has_key(s.take(i), k) || s[i].0 == k,
{
    let more = s.take(i + 1);
    let less = s.take(i);
    if has_key(more, k) {
        let j = choose|j: int| 0 <= j < more.len() && (#[trigger] more[j]).0 == k;
        if j < i {
            assert(less[j].0 == k);
        }
    }
    if has_key(less, k) {
        let j = choose|j: int| 0 <= j < less.len() && (#[trigger] less[j]).0 == k;
        assert(more[j].0 == k);
    }
    if s[i].0 == k {
        assert(more[i].0 == k);
    }
}

/// The first `n` entries as a map, one entry at a time.
pub proof fn lemma_entries_step<K: Key, V>(s: Seq<(K::Model, V)>, n: int)
    requires
        ascending::<K, V>(s),
        0 < n <= s.len(),
    ensures
        entries_map(s.take(n)) == entries_map(s.take(n - 1)).insert(s[n - 1].0, s[n - 1].1),
{
    let more = s.take(n);
    let less = s.take(n - 1);
    let (key, value) = s[n - 1];
    let inserted = entries_map(less).insert(key, value);
    assert forall|k: K::Model| #[trigger]
        entries_map(more).contains_key(k) <==> inserted.contains_key(k) by {
        lemma_has_key_take(s, n - 1, k);
    }
    assert forall|k: K::Model| #[trigger] entries_map(more).contains_key(k) implies entries_map(
        more,
    )[k] == inserted[k] by {
        let i = choose|i: int| 0 <= i < more.len() && (#[trigger] more[i]).0 == k;
        lemma_entry::<K, V>(more, i);
        if i < n - 1 {
            assert(less[i] == more[i]);
            lemma_entry::<K, V>(less, i);
            assert(K::lt(s[i].0, s[n - 1].0));
            K::lt_irreflexive(key);
        }
    }
    assert(entries_map(more) =~= inserted);
}

/// Two ascending lists with the same entries are the same list.
pub proof fn lemma_entries_unique<K: Key, V>(a: Seq<(K::Model, V)>, b: Seq<(K::Model, V)>)
    requires
        ascending::<K, V>(a),
        ascending::<K, V>(b),
        entries_map(a) == entries_map(b),
    ensures
        a == b,
    decreases a.len(),
{
    let (m, n) = (entries_map(a), entries_map(b));
    if a.len() == 0 {
        if b.len() > 0 {
            lemma_entry::<K, V>(b, 0);
            assert(m.contains_key(b[0].0));
        }
        assert(a =~= b);
    } else {
        lemma_entry::<K, V>(a, 0);
        assert(n.contains_key(a[0].0));
        let x = a.last();
        let y = b.last();
        lemma_entry::<K, V>(a, a.len() - 1);
        lemma_entry::<K, V>(b, b.len() - 1);
        assert(n.contains_key(x.0));
        assert(m.contains_key(y.0));
        let i = choose|i: int| 0 <= i < b.len() && (#[trigger] b[i]).0 == x.0;
        let j = choose|j: int| 0 <= j < a.len() && (#[trigger] a[j]).0 == y.0;
        K::lt_irreflexive(x.0);
        if x.0 != y.0 {
            assert(K::lt(b[i].0, b[b.len() - 1].0));
            assert(K::lt(a[j].0, a[a.len() - 1].0));
            K::lt_transitive(x.0, y.0, x.0);
        }
        let (a1, b1) = (a.drop_last(), b.drop_last());
        lemma_drop_entry::<K, V>(a);
        lemma_drop_entry::<K, V>(b);
        assert(ascending::<K, V>(a1)) by {
            assert forall|k: int, l: int| 0 <= k < l < a1.len() implies K::lt(
                #[trigger] a1[k].0,
                #[trigger] a1[l].0,
            ) by {
                assert(K::lt(a[k].0, a[l].0));
            }
        }
        assert(ascending::<K, V>(b1)) by {
            assert forall|k: int, l: int| 0 <= k < l < b1.len() implies K::lt(
                #[trigger] b1[k].0,
                #[trigger] b1[l].0,
            ) by {
                assert(K::lt(b[k].0, b[l].0));
            }
        }
        lemma_entries_unique::<K, V>(a1, b1);
        assert(a =~= a1.push(x));
        assert(b =~= b1.push(y));
    }
}

proof fn lemma_drop_entry<K: Key, V>(a: Seq<(K::Model, V)>)
    requires
        ascending::<K, V>(a),
        a.len() > 0,
    ensures
        entries_map(a.drop_last()) == entries_map(a).remove(a.last().0),
{
    let b = a.drop_last();
    let m = entries_map(a).remove(a.last().0);
    let last = a.len() - 1;
    K::lt_irreflexive(a.last().0);
    assert(ascending::<K, V>(b)) by {
        assert forall|k: int, l: int| 0 <= k < l < b.len() implies K::lt(
            #[trigger] b[k].0,
            #[trigger] b[l].0,
        ) by {
            assert(K::lt(a[k].0, a[l].0));
        }
    }
    assert forall|k: K::Model| #[trigger] entries_map(b).contains_key(k) <==> m.contains_key(k) by {
        if has_key(b, k) {
            let i = choose|i: int| 0 <= i < b.len() && (#[trigger] b[i]).0 == k;
            assert(a[i].0 == k);
            assert(K::lt(a[i].0, a[last].0));
        }
        if m.contains_key(k) {
            let i = choose|i: int| 0 <= i < a.len() && (#[trigger] a[i]).0 == k;
            assert(b[i].0 == k);
        }
    }
    assert forall|k: K::Model| #[trigger] entries_map(b).contains_key(k) implies entries_map(b)[k]
        == m[k] by {
        let i = choose|i: int| 0 <= i < b.len() && (#[trigger] b[i]).0 == k;
        lemma_entry::<K, V>(b, i);
        lemma_entry::<K, V>(a, i);
    }
    assert(entries_map(b) =~= m);
}

impl<K: Key, V> SortedMap<K, V> {
    /// The entries, in ascending order of their keys.
    pub closed spec fn seq(&self) -> Seq<(K::Model, V)> {
        Seq::new(self.entries@.len(), |i: int| (self.entries@[i].0.key(), self.entries@[i].1))
    }

    /// What holds of every map.
    pub open spec fn ok(&self) -> bool {
        ascending::<K, V>(self.seq())
    }

    #[verifier::type_invariant]
    closed spec fn inv(self) -> bool {
        self.ok()
    }

    pub fn new() -> (r: Self)
        ensures
            r.ok(),
            r.seq() == Seq::<(K::Model, V)>::empty(),
            r@ == Map::<K::Model, V>::empty(),
    {
        let r = SortedMap { entries: Vec::new() };
        proof {
            assert(r.seq() =~= Seq::<(K::Model, V)>::empty());
            assert(r@ =~= Map::<K::Model, V>::empty());
        }
        r
    }

    pub fn len(&self) -> (r: usize)
        ensures
            self.ok(),
            r == self.seq().len(),
    {
        proof {
            use_type_invariant(self);
        }
        self.entries.len()
    }

    pub fn is_empty(&self) -> (r: bool)
        ensures
            self.ok(),
            r == (self.seq().len() == 0),
    {
        proof {
            use_type_invariant(self);
        }
        self.entries.len() == 0
    }

    pub fn key_at(&self, i: usize) -> (r: &K)
        requires
            i < self.seq().len(),
        ensures
            self.ok(),
            r.key() == self.seq()[i as int].0,
            self@.contains_key(r.key()),
            self@[r.key()] == self.seq()[i as int].1,
    {
        proof {
            use_type_invariant(self);
            lemma_entry::<K, V>(self.seq(), i as int);
        }
        &self.entries[i].0
    }

    pub fn value_at(&self, i: usize) -> (r: &V)
        requires
            i < self.seq().len(),
        ensures
            self.ok(),
            *r == self.seq()[i as int].1,
            self@.contains_key(self.seq()[i as int].0),
            *r == self@[self.seq()[i as int].0],
    {
        proof {
            use_type_invariant(self);
            lemma_entry::<K, V>(self.seq(), i as int);
        }
        &self.entries[i].1
    }

    /// How many keys come before `k`.
    fn position(&self, k: &K) -> (r: usize)
        ensures
            r <= self.seq().len(),
            forall|i: int| 0 <= i < r ==> K::lt(#[trigger] self.seq()[i].0, k.key()),
            forall|i: int| r <= i < self.seq().len() ==> !K::lt(#[trigger] self.seq()[i].0, k.key()),
    {
        proof {
            use_type_invariant(self);
        }
        let mut lo: usize = 0;
        let mut hi: usize = self.entries.len();
        while lo < hi
            invariant
                self.ok(),
                lo <= hi <= self.seq().len(),
                self.seq().len() == self.entries@.len(),
                forall|i: int| 0 <= i < lo ==> K::lt(#[trigger] self.seq()[i].0, k.key()),
                forall|i: int|
                    hi <= i < self.seq().len() ==> !K::lt(#[trigger] self.seq()[i].0, k.key()),
            decreases hi - lo,
        {
            let mid: usize = lo + (hi - lo) / 2;
            if self.entries[mid].0.less(k) {
                proof {
                    assert(K::lt(self.seq()[mid as int].0, k.key()));
                    assert forall|i: int| 0 <= i < mid + 1 implies K::lt(
                        #[trigger] self.seq()[i].0,
                        k.key(),
                    ) by {
                        if i < mid {
                            K::lt_transitive(
                                self.seq()[i].0,
                                self.seq()[mid as int].0,
                                k.key(),
                            );
                        }
                    }
                }
                lo = mid + 1;
            } else {
                proof {
                    assert(!K::lt(self.seq()[mid as int].0, k.key()));
                    assert forall|i: int| mid <= i < self.seq().len() implies !K::lt(
                        #[trigger] self.seq()[i].0,
                        k.key(),
                    ) by {
                        if mid < i && K::lt(self.seq()[i].0, k.key()) {
                            K::lt_transitive(
                                self.seq()[mid as int].0,
                                self.seq()[i].0,
                                k.key(),
                            );
                        }
                    }
                }
                hi = mid;
            }
        }
        lo
    }

    /// The index of `k` among the entries, if `k` is a key.
    pub fn index_of(&self, k: &K) -> (r: Option<usize>)
        ensures
            self.ok(),
            r is Some <==> self@.contains_key(k.key()),
            r is Some ==> r->0 < self.seq().len() && self.seq()[r->0 as int].0 == k.key()
                && self.seq()[r->0 as int].1 == self@[k.key()],
    {
        proof {
            use_type_invariant(self);
        }
        let p = self.position(k);
        let found = p < self.entries.len() && !k.less(&self.entries[p].0);
        proof {
            if found {
                K::lt_total(self.seq()[p as int].0, k.key());
                lemma_entry::<K, V>(self.seq(), p as int);
            } else if self@.contains_key(k.key()) {
                let i = choose|i: int|
                    0 <= i < self.seq().len() && (#[trigger] self.seq()[i]).0 == k.key();
                K::lt_irreflexive(k.key());
                assert(p <= i);
                assert(p < i ==> K::lt(self.seq()[p as int].0, self.seq()[i].0));
            }
        }
        if found {
            Some(p)
        } else {
            None
        }
    }

    pub fn contains(&self, k: &K) -> (r: bool)
        ensures
            self.ok(),
            r == self@.contains_key(k.key()),
    {
        self.index_of(k).is_some()
    }

    pub fn get(&self, k: &K) -> (r: Option<&V>)
        ensures
            self.ok(),
            r is Some <==> self@.contains_key(k.key()),
            r is Some ==> *r->0 == self@[k.key()],
    {
        match self.index_of(k) {
            Some(i) => Some(&self.entries[i].1),
            None => None,
        }
    }

    /// Sets the value of `k`.
    pub fn insert(&mut self, k: K, v: V)
        ensures
            final(self).ok(),
            final(self)@ == old(self)@.insert(k.key(), v),
            final(self).seq().len() == old(self).seq().len() + (if old(self)@.contains_key(
                k.key(),
            ) {
                0int
            } else {
                1
            }),
    {
        let found = self.index_of(&k);
        let p = self.position(&k);
        let ghost before = self.seq();
        let ghost key = k.key();
        let mut entries: Vec<(K, V)> = Vec::new();
        std::mem::swap(&mut entries, &mut self.entries);
        if let Some(i) = found {
            entries.set(i, (k, v));
        } else {
            entries.insert(p, (k, v));
        }
        let ghost after = Seq::new(
            entries@.len(),
            |i: int| (entries@[i].0.key(), entries@[i].1),
        );
        proof {
            if let Some(i) = found {
                assert(after =~= before.update(i as int, (key, v)));
                assert forall|a: int, b: int| 0 <= a < b < after.len() implies K::lt(
                    #[trigger] after[a].0,
                    #[trigger] after[b].0,
                ) by {
                    assert(K::lt(before[a].0, before[b].0));
                }
            } else {
                assert(after =~= before.insert(p as int, (key, v)));
                assert forall|a: int, b: int| 0 <= a < b < after.len() implies K::lt(
                    #[trigger] after[a].0,
                    #[trigger] after[b].0,
                ) by {
                    if b == p {
                        assert(K::lt(before[a].0, key));
                    } else if a == p {
                        let other = before[b - 1].0;
                        K::lt_total(key, other);
                        assert(has_key(before, other));
                        assert(other == key ==> has_key(before, key));
                    } else {
                        let x = if a < p { a } else { a - 1 };
                        let y = if b < p { b } else { b - 1 };
                        assert(K::lt(before[x].0, before[y].0));
                    }
                }
            }
            lemma_set_entry::<K, V>(before, after, key, v, found, p as int);
        }
        self.entries = entries;
        assert(self.seq() =~= after);
    }
}

proof fn lemma_set_entry<K: Key, V>(
    before: Seq<(K::Model, V)>,
    after: Seq<(K::Model, V)>,
    key: K::Model,
    v: V,
    found: Option<usize>,
    p: int,
)
    requires
        ascending::<K, V>(before),
        ascending::<K, V>(after),
        0 <= p <= before.len(),
        found is Some ==> 0 <= found->0 < before.len() && before[found->0 as int].0 == key && after
            == before.update(found->0 as int, (key, v)),
        found is None ==> after == before.insert(p, (key, v)),
    ensures
        entries_map(after) == entries_map(before).insert(key, v),
{
    let m = entries_map(before).insert(key, v);
    let at = if found is Some {
        found->0 as int
    } else {
        p
    };
    assert(after[at] == (key, v));
    assert forall|k: K::Model| m.contains_key(k) <==> #[trigger] entries_map(after).contains_key(
        k,
    ) by {
        if has_key(after, k) {
            let i = choose|i: int| 0 <= i < after.len() && (#[trigger] after[i]).0 == k;
            if found is None && i > p {
                assert(before[i - 1].0 == k);
            } else if i != at {
                assert(before[i].0 == k);
            }
        }
        if k == key {
            assert(after[at].0 == k);
        } else if has_key(before, k) {
            let i = choose|i: int| 0 <= i < before.len() && (#[trigger] before[i]).0 == k;
            let j = if found is None && i >= p {
                i + 1
            } else {
                i
            };
            assert(after[j].0 == k);
        }
    }
    assert forall|k: K::Model| #[trigger]
        m.contains_key(k) implies m[k] == entries_map(after)[k] by {
        if k == key {
            lemma_entry::<K, V>(after, at);
        } else {
            let i = choose|i: int| 0 <= i < before.len() && (#[trigger] before[i]).0 == k;
            let j = if found is None && i >= p {
                i + 1
            } else {
                i
            };
            lemma_entry::<K, V>(before, i);
            lemma_entry::<K, V>(after, j);
        }
    }
    assert(entries_map(after) =~= m);
}

impl Key for String {
    type Model = Seq<char>;

    open spec fn key(&self) -> Seq<char> {
        self@
    }

    open spec fn lt(a: Seq<char>, b: Seq<char>) -> bool {
        text_lt(a, b)
    }

    proof fn lt_irreflexive(a: Seq<char>) {
        lemma_text_lt_irreflexive(a);
    }

    proof fn lt_transitive(a: Seq<char>, b: Seq<char>, c: Seq<char>) {
        lemma_text_lt_transitive(a, b, c);
    }

    proof fn lt_total(a: Seq<char>, b: Seq<char>) {
        lemma_text_lt_total(a, b);
    }

    fn less(&self, other: &Self) -> (r: bool) {
        text_less(self.as_str(), other.as_str())
    }

    fn duplicate(&self) -> (r: Self) {
        self.clone()
    }
}

impl Key for (String, String) {
    type Model = (Seq<char>, Seq<char>);

    open spec fn key(&self) -> (Seq<char>, Seq<char>) {
        (self.0@, self.1@)
    }

    open spec fn lt(a: (Seq<char>, Seq<char>), b: (Seq<char>, Seq<char>)) -> bool {
        text_lt(a.0, b.0) || (a.0 == b.0 && text_lt(a.1, b.1))
    }

    proof fn lt_irreflexive(a: (Seq<char>, Seq<char>)) {
        lemma_text_lt_irreflexive(a.0);
        lemma_text_lt_irreflexive(a.1);
    }

    proof fn lt_transitive(
        a: (Seq<char>, Seq<char>),
        b: (Seq<char>, Seq<char>),
        c: (Seq<char>, Seq<char>),
    ) {
        if text_lt(a.0, b.0) && text_lt(b.0, c.0) {
            lemma_text_lt_transitive(a.0, b.0, c.0);
        }
        if text_lt(a.1, b.1) && text_lt(b.1, c.1) {
            lemma_text_lt_transitive(a.1, b.1, c.1);
        }
    }

    proof fn lt_total(a: (Seq<char>, Seq<char>), b: (Seq<char>, Seq<char>)) {
        lemma_text_lt_total(a.0, b.0);
        lemma_text_lt_total(a.1, b.1);
    }

    fn less(&self, other: &Self) -> (r: bool) {
        text_less(self.0.as_str(), other.0.as_str()) || (text_eq(
            self.0.as_str(),
            other.0.as_str(),
        ) && text_less(self.1.as_str(), other.1.as_str()))
    }

    fn duplicate(&self) -> (r: Self) {
        (self.0.clone(), self.1.clone())
    }
}

impl Key for u32 {
    type Model = u32;

    open spec fn key(&self) -> u32 {
        *self
    }

    open spec fn lt(a: u32, b: u32) -> bool {
        a < b
    }

    proof fn lt_irreflexive(a: u32) {
    }

    proof fn lt_transitive(a: u32, b: u32, c: u32) {
    }

    proof fn lt_total(a: u32, b: u32) {
    }

    fn less(&self, other: &Self) -> (r: bool) {
        *self < *other
    }

    fn duplicate(&self) -> (r: Self) {
        *self
    }
}

impl Key for u64 {
    type Model = u64;

    open spec fn key(&self) -> u64 {
        *self
    }

    open spec fn lt(a: u64, b: u64) -> bool {
        a < b
    }

    proof fn lt_irreflexive(a: u64) {
    }

    proof fn lt_transitive(a: u64, b: u64, c: u64) {
    }

    proof fn lt_total(a: u64, b: u64) {
    }

    fn less(&self, other: &Self) -> (r: bool) {
        *self < *other
    }

    fn duplicate(&self) -> (r: Self) {
        *self
    }
}

impl Key for usize {
    type Model = usize;

    open spec fn key(&self) -> usize {
        *self
    }

    open spec fn lt(a: usize, b: usize) -> bool {
        a < b
    }

    proof fn lt_irreflexive(a: usize) {
    }

    proof fn lt_transitive(a: usize, b: usize, c: usize) {
    }

    proof fn lt_total(a: usize, b: usize) {
    }

    fn less(&self, other: &Self) -> (r: bool) {
        *self < *other
    }

    fn duplicate(&self) -> (r: Self) {
        *self
    }
}

impl Key for (u32, u32) {
    type Model = (u32, u32);

    open spec fn key(&self) -> (u32, u32) {
        *self
    }

    open spec fn lt(a: (u32, u32), b: (u32, u32)) -> bool {
        a.0 < b.0 || (a.0 == b.0 && a.1 < b.1)
    }

    proof fn lt_irreflexive(a: (u32, u32)) {
    }

    proof fn lt_transitive(a: (u32, u32), b: (u32, u32), c: (u32, u32)) {
    }

    proof fn lt_total(a: (u32, u32), b: (u32, u32)) {
    }

    fn less(&self, other: &Self) -> (r: bool) {
        self.0 < other.0 || (self.0 == other.0 && self.1 < other.1)
    }

    fn duplicate(&self) -> (r: Self) {
        *self
    }
}

} // verus!
