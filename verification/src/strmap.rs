//! [`StrMap`] — a string-keyed map of strings, used for event fields, record
//! fields and node/edge properties.
//!
//! Keys are unique; entries keep the order in which keys were first inserted.
//! The abstract view is a `Map<Seq<char>, Seq<char>>`.

use vstd::prelude::*;

use crate::tally::{lex_lt, str_less};
use crate::text::{owned, str_eq};

verus! {

/// A map from string keys to string values.
#[derive(Debug, PartialEq, Eq)]
pub struct StrMap {
    entries: Vec<(String, String)>,
}

/// The key/value pairs of an entry list, as character sequences.
pub open spec fn pairs_view(e: Seq<(String, String)>) -> Seq<(Seq<char>, Seq<char>)> {
    e.map_values(|p: (String, String)| (p.0@, p.1@))
}

/// The position of the least key among `ps[..n]` (the first such position).
pub open spec fn least_key_at(ps: Seq<(Seq<char>, Seq<char>)>, n: int) -> int
    decreases n,
{
    if n <= 1 {
        0
    } else {
        let j = least_key_at(ps, n - 1);
        if lex_lt(ps[n - 1].0, ps[j].0) {
            n - 1
        } else {
            j
        }
    }
}

/// The pairs in ascending key order: the least key first, then the rest in
/// key order.
pub open spec fn key_order(ps: Seq<(Seq<char>, Seq<char>)>) -> Seq<(Seq<char>, Seq<char>)>
    decreases ps.len(),
{
    if ps.len() == 0 {
        Seq::empty()
    } else {
        let j = least_key_at(ps, ps.len() as int);
        if 0 <= j < ps.len() {
            seq![ps[j]] + key_order(ps.remove(j))
        } else {
            Seq::empty()
        }
    }
}

proof fn lemma_least_key_in_range(ps: Seq<(Seq<char>, Seq<char>)>, n: int)
    requires
        1 <= n,
    ensures
        0 <= least_key_at(ps, n) < n,
    decreases n,
{
    if n > 1 {
        lemma_least_key_in_range(ps, n - 1);
    }
}

/// The position of the least key of a non-empty entry list.
fn least_key_pos(e: &Vec<(String, String)>) -> (j: usize)
    requires
        e@.len() > 0,
    ensures
        j == least_key_at(pairs_view(e@), e@.len() as int),
        j < e@.len(),
{
    let ghost ps = pairs_view(e@);
    let mut j: usize = 0;
    let mut k: usize = 1;
    while k < e.len()
        invariant
            1 <= k <= e@.len(),
            ps == pairs_view(e@),
            j == least_key_at(ps, k as int),
            j < k,
        decreases e@.len() - k,
    {
        if str_less(e[k].0.as_str(), e[j].0.as_str()) {
            j = k;
        }
        k = k + 1;
    }
    j
}

/// No key occurs twice.
pub open spec fn keys_unique(ps: Seq<(Seq<char>, Seq<char>)>) -> bool {
    forall|i: int, j: int| 0 <= i < ps.len() && 0 <= j < ps.len() && i != j ==> ps[i].0 != ps[j].0
}

/// The map denoted by a list of pairs with unique keys.
pub open spec fn map_of(ps: Seq<(Seq<char>, Seq<char>)>) -> Map<Seq<char>, Seq<char>> {
    Map::new(
        |k: Seq<char>| exists|i: int| 0 <= i < ps.len() && ps[i].0 == k,
        |k: Seq<char>| ps[choose|i: int| 0 <= i < ps.len() && ps[i].0 == k].1,
    )
}

/// Looking up the key of entry `i` yields entry `i`'s value.
pub proof fn lemma_map_of_index(ps: Seq<(Seq<char>, Seq<char>)>, i: int)
    requires
        keys_unique(ps),
        0 <= i < ps.len(),
    ensures
        map_of(ps).contains_key(ps[i].0),
        map_of(ps)[ps[i].0] == ps[i].1,
{
    let k = ps[i].0;
    assert(exists|j: int| 0 <= j < ps.len() && ps[j].0 == k);
    let c = choose|j: int| 0 <= j < ps.len() && ps[j].0 == k;
    assert(c == i);
}

impl View for StrMap {
    type V = Map<Seq<char>, Seq<char>>;

    open spec fn view(&self) -> Map<Seq<char>, Seq<char>> {
        map_of(self.pairs())
    }
}

impl Clone for StrMap {
    fn clone(&self) -> (r: Self)
        ensures
            r.pairs() == self.pairs(),
            r@ == self@,
    {
        proof {
            use_type_invariant(self);
        }
        let mut entries: Vec<(String, String)> = Vec::new();
        let mut i: usize = 0;
        while i < self.entries.len()
            invariant
                i <= self.entries@.len(),
                pairs_view(entries@) =~= self.pairs().subrange(0, i as int),
            decreases self.entries.len() - i,
        {
            let k = self.entries[i].0.clone();
            let v = self.entries[i].1.clone();
            let ghost before = entries@;
            entries.push((k, v));
            proof {
                assert(entries@ =~= before.push((k, v)));
                assert(self.pairs()[i as int] == (self.entries@[i as int].0@, self.entries@[i as int].1@));
                assert(pairs_view(entries@) =~= pairs_view(before).push((k@, v@)));
            }
            i = i + 1;
        }
        assert(pairs_view(entries@) =~= self.pairs());
        StrMap { entries }
    }
}

impl StrMap {
    /// The entries as character-sequence pairs, in insertion order.
    pub closed spec fn pairs(&self) -> Seq<(Seq<char>, Seq<char>)> {
        pairs_view(self.entries@)
    }

    /// Keys are unique: the type invariant of every map.
    #[verifier::type_invariant]
    pub open spec fn wf(&self) -> bool {
        keys_unique(self.pairs())
    }

    /// An empty map.
    pub fn new() -> (m: StrMap)
        ensures
            m@ == Map::<Seq<char>, Seq<char>>::empty(),
            m.pairs().len() == 0,
    {
        let m = StrMap { entries: Vec::new() };
        assert(m@ =~= Map::<Seq<char>, Seq<char>>::empty());
        m
    }

    /// Number of entries.
    pub fn len(&self) -> (n: usize)
        ensures
            n == self@.len(),
            n == self.pairs().len(),
    {
        proof {
            use_type_invariant(self);
            self.lemma_len();
        }
        self.entries.len()
    }

    proof fn lemma_len(&self)
        requires
            keys_unique(self.pairs()),
        ensures
            self@.len() == self.pairs().len(),
            self@.dom().finite(),
    {
        let ps = self.pairs();
        let f = |i: int| ps[i].0;
        let idx = Set::new(|i: int| 0 <= i < ps.len());
        assert forall|k: Seq<char>| self@.dom().contains(k) <==> idx.map(f).contains(k) by {
            if self@.dom().contains(k) {
                let i = choose|i: int| 0 <= i < ps.len() && ps[i].0 == k;
                assert(idx.contains(i) && f(i) == k);
            }
            if idx.map(f).contains(k) {
                let i = choose|i: int| idx.contains(i) && f(i) == k;
                assert(0 <= i < ps.len() && ps[i].0 == k);
            }
        }
        assert(self@.dom() =~= idx.map(f));
        vstd::set_lib::lemma_int_range(0, ps.len() as int);
        assert(idx =~= vstd::set_lib::set_int_range(0, ps.len() as int));
        assert(vstd::relations::injective_on(f, idx)) by {
            assert forall|a: int, b: int| idx.contains(a) && idx.contains(b) && #[trigger] f(a)
                == #[trigger] f(b) implies a == b by {}
        }
        vstd::set_lib::lemma_map_size(idx, idx.map(f), f);
    }

    /// `true` iff the map has no entries.
    pub fn is_empty(&self) -> (b: bool)
        ensures
            b == (self@.len() == 0),
    {
        self.len() == 0
    }

    /// Position of `key` among the entries.
    fn position(&self, key: &str) -> (r: Option<usize>)
        ensures
            r matches Some(i) ==> i < self.pairs().len() && self.pairs()[i as int].0 == key@,
            r is None ==> forall|i: int| 0 <= i < self.pairs().len() ==> self.pairs()[i].0 != key@,
    {
        let mut i: usize = 0;
        while i < self.entries.len()
            invariant
                i <= self.entries@.len(),
                forall|j: int| 0 <= j < i ==> self.pairs()[j].0 != key@,
            decreases self.entries.len() - i,
        {
            if str_eq(self.entries[i].0.as_str(), key) {
                return Some(i);
            }
            i = i + 1;
        }
        None
    }

    /// The value stored under `key`.
    pub fn get(&self, key: &str) -> (r: Option<&String>)
        ensures
            r is Some == self@.contains_key(key@),
            r matches Some(v) ==> v@ == self@[key@],
    {
        proof {
            use_type_invariant(self);
        }
        match self.position(key) {
            Some(i) => {
                proof {
                    lemma_map_of_index(self.pairs(), i as int);
                }
                Some(&self.entries[i].1)
            },
            None => None,
        }
    }

    /// `true` iff `key` is present.
    pub fn contains_key(&self, key: &str) -> (b: bool)
        ensures
            b == self@.contains_key(key@),
    {
        self.get(key).is_some()
    }

    /// Insert or replace the value under `key`.
    pub fn insert(&mut self, key: String, value: String)
        ensures
            final(self)@ == old(self)@.insert(key@, value@),
    {
        proof {
            use_type_invariant(&*self);
        }
        let ghost old_ps = self.pairs();
        let pos = self.position(key.as_str());
        let mut entries: Vec<(String, String)> = Vec::new();
        std::mem::swap(&mut entries, &mut self.entries);
        assert(pairs_view(entries@) == old_ps);
        match pos {
            Some(i) => {
                let ghost kv = key@;
                entries.set(i, (key, value));
                let ghost ps = pairs_view(entries@);
                assert(ps =~= old_ps.update(i as int, (kv, value@)));
                assert(keys_unique(ps)) by {
                    assert forall|a: int, b: int|
                        0 <= a < ps.len() && 0 <= b < ps.len() && a != b implies ps[a].0
                        != ps[b].0 by {
                        if a != i && b != i {
                            assert(old_ps[a].0 == ps[a].0 && old_ps[b].0 == ps[b].0);
                        } else if a == i {
                            assert(old_ps[b].0 == ps[b].0);
                        } else {
                            assert(old_ps[a].0 == ps[a].0);
                        }
                    }
                }
                self.entries = entries;
                assert forall|k: Seq<char>| #[trigger] self@.contains_key(k) == old(self)@.insert(
                    kv,
                    value@,
                ).contains_key(k) by {
                    if k == kv {
                        assert(ps[i as int].0 == kv);
                    } else {
                        if exists|j: int| 0 <= j < ps.len() && ps[j].0 == k {
                            let j = choose|j: int| 0 <= j < ps.len() && ps[j].0 == k;
                            assert(old_ps[j].0 == k);
                        }
                        if exists|j: int| 0 <= j < old_ps.len() && old_ps[j].0 == k {
                            let j = choose|j: int| 0 <= j < old_ps.len() && old_ps[j].0 == k;
                            assert(ps[j].0 == k);
                        }
                    }
                }
                assert forall|k: Seq<char>| #[trigger] self@.contains_key(k) implies self@[k]
                    == old(self)@.insert(kv, value@)[k] by {
                    let j = choose|j: int| 0 <= j < ps.len() && ps[j].0 == k;
                    lemma_map_of_index(ps, j);
                    if k != kv {
                        lemma_map_of_index(old_ps, j);
                    }
                }
                assert(self@ =~= old(self)@.insert(kv, value@));
            },
            None => {
                let ghost kv = key@;
                entries.push((key, value));
                let ghost ps = pairs_view(entries@);
                assert(ps =~= old_ps.push((kv, value@)));
                assert(keys_unique(ps)) by {
                    assert forall|a: int, b: int|
                        0 <= a < ps.len() && 0 <= b < ps.len() && a != b implies ps[a].0
                        != ps[b].0 by {
                        if a < old_ps.len() && b < old_ps.len() {
                            assert(old_ps[a].0 == ps[a].0 && old_ps[b].0 == ps[b].0);
                        } else if a < old_ps.len() {
                            assert(old_ps[a].0 == ps[a].0);
                        } else {
                            assert(old_ps[b].0 == ps[b].0);
                        }
                    }
                }
                self.entries = entries;
                assert forall|k: Seq<char>| #[trigger] self@.contains_key(k) == old(self)@.insert(
                    kv,
                    value@,
                ).contains_key(k) by {
                    if k != kv {
                        if exists|j: int| 0 <= j < ps.len() && ps[j].0 == k {
                            let j = choose|j: int| 0 <= j < ps.len() && ps[j].0 == k;
                            assert(old_ps[j].0 == k);
                        }
                        if exists|j: int| 0 <= j < old_ps.len() && old_ps[j].0 == k {
                            let j = choose|j: int| 0 <= j < old_ps.len() && old_ps[j].0 == k;
                            assert(ps[j].0 == k);
                        }
                    } else {
                        assert(ps[ps.len() - 1].0 == kv);
                    }
                }
                assert forall|k: Seq<char>| #[trigger] self@.contains_key(k) implies self@[k]
                    == old(self)@.insert(kv, value@)[k] by {
                    let j = choose|j: int| 0 <= j < ps.len() && ps[j].0 == k;
                    lemma_map_of_index(ps, j);
                    if k != kv {
                        lemma_map_of_index(old_ps, j);
                    }
                }
                assert(self@ =~= old(self)@.insert(kv, value@));
            },
        }
    }

    /// Insert `value` under `key` only if `key` is absent (`entry().or_insert`).
    pub fn insert_if_absent(&mut self, key: String, value: String)
        ensures
            final(self)@ == if old(self)@.contains_key(key@) {
                old(self)@
            } else {
                old(self)@.insert(key@, value@)
            },
    {
        if !self.contains_key(key.as_str()) {
            self.insert(key, value);
        }
    }

    /// The number of entries (for iteration by index).
    pub fn entry_count(&self) -> (n: usize)
        ensures
            n == self.pairs().len(),
    {
        self.entries.len()
    }

    /// The key and value of entry `i`, in insertion order.
    pub fn entry(&self, i: usize) -> (r: (&String, &String))
        requires
            i < self.pairs().len(),
        ensures
            r.0@ == self.pairs()[i as int].0,
            r.1@ == self.pairs()[i as int].1,
    {
        (&self.entries[i].0, &self.entries[i].1)
    }

    /// The entries in ascending key order (as a `BTreeMap` walks them).
    pub fn entries_by_key(&self) -> (r: Vec<(String, String)>)
        ensures
            pairs_view(r@) == key_order(self.pairs()),
    {
        let mut rest: Vec<(String, String)> = Vec::new();
        let mut i: usize = 0;
        while i < self.entries.len()
            invariant
                i <= self.entries@.len(),
                pairs_view(rest@) == pairs_view(self.entries@.take(i as int)),
            decreases self.entries@.len() - i,
        {
            let k = owned(self.entries[i].0.as_str());
            let v = owned(self.entries[i].1.as_str());
            let ghost before = rest@;
            rest.push((k, v));
            proof {
                let t = self.entries@.take(i + 1);
                assert(t[i as int] == self.entries@[i as int]);
                assert(rest@ == before.push((k, v)));
                assert(k@ == self.entries@[i as int].0@);
                assert(v@ == self.entries@[i as int].1@);
                assert(pairs_view(before).len() == i);
                assert(before.len() == i);
                assert(rest@.len() == i + 1);
                assert(t.len() == i + 1);
                assert forall|x: int| 0 <= x < i + 1 implies #[trigger] pairs_view(rest@)[x] == pairs_view(t)[x] by {
                    if x < i {
                        assert(pairs_view(before)[x] == pairs_view(self.entries@.take(i as int))[x]);
                        assert(self.entries@.take(i as int)[x] == t[x]);
                        assert(rest@[x] == before[x]);
                    } else {
                        assert(rest@[x] == (k, v));
                    }
                }
                assert(pairs_view(rest@) =~= pairs_view(t));
            }
            i = i + 1;
        }
        proof {
            assert(self.entries@.take(self.entries@.len() as int) =~= self.entries@);
        }
        let mut out: Vec<(String, String)> = Vec::new();
        let ghost ps = self.pairs();
        proof {
            assert(pairs_view(out@) + key_order(pairs_view(rest@)) =~= key_order(ps));
        }
        while rest.len() > 0
            invariant
                pairs_view(out@) + key_order(pairs_view(rest@)) == key_order(ps),
            decreases rest@.len(),
        {
            let j = least_key_pos(&rest);
            let ghost rv = pairs_view(rest@);
            let ghost before = pairs_view(out@);
            let p = rest.remove(j);
            proof {
                assert(pairs_view(rest@) =~= rv.remove(j as int));
            }
            out.push(p);
            proof {
                assert(pairs_view(out@) =~= before.push(rv[j as int]));
                assert(key_order(rv) == seq![rv[j as int]] + key_order(rv.remove(j as int)));
                assert(pairs_view(out@) + key_order(pairs_view(rest@)) =~= before + key_order(rv));
            }
        }
        proof {
            assert(key_order(pairs_view(rest@)) =~= Seq::<(Seq<char>, Seq<char>)>::empty());
            assert(pairs_view(out@) =~= pairs_view(out@) + key_order(pairs_view(rest@)));
        }
        out
    }

    /// Every key of the map is the key of some entry.
    pub proof fn lemma_key_has_entry(&self, k: Seq<char>) -> (i: int)
        requires
            self@.contains_key(k),
        ensures
            0 <= i < self.pairs().len(),
            self.pairs()[i].0 == k,
    {
        choose|i: int| 0 <= i < self.pairs().len() && self.pairs()[i].0 == k
    }
}

} // verus!
