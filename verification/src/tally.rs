//! Counting by key: a tally lists each distinct key once, in ascending key
//! order, with the number of times it occurs (the content of a
//! `BTreeMap<key, count>` filled by `*entry(key).or_default() += 1`).

use vstd::prelude::*;

use crate::dsl::strs_v;
use crate::text::str_eq;

verus! {

/// How many elements of `s` equal `k`.
pub open spec fn occ<K>(s: Seq<K>, k: K) -> nat
    decreases s.len(),
{
    if s.len() == 0 {
        0
    } else {
        occ(s.drop_last(), k) + if s.last() == k {
            1nat
        } else {
            0nat
        }
    }
}

/// `k` occurs in `s` iff it is counted, and no count exceeds the length.
pub proof fn lemma_occ<K>(s: Seq<K>, k: K)
    ensures
        occ(s, k) > 0 <==> s.contains(k),
        occ(s, k) <= s.len(),
    decreases s.len(),
{
    if s.len() > 0 {
        lemma_occ(s.drop_last(), k);
        if s.drop_last().contains(k) {
            let i = choose|i: int| 0 <= i < s.drop_last().len() && s.drop_last()[i] == k;
            assert(s[i] == k);
        }
        if s.contains(k) && s.last() != k {
            let i = choose|i: int| 0 <= i < s.len() && s[i] == k;
            assert(s.drop_last()[i] == k);
        }
    }
}

/// `t` is the tally of `s` under the strict order `lt`: its keys ascend, each
/// carries its (non-zero) number of occurrences in `s`, and every element of
/// `s` has its entry.
pub open spec fn is_tally<K>(s: Seq<K>, t: Seq<(K, usize)>, lt: spec_fn(K, K) -> bool) -> bool {
    &&& forall|i: int, j: int| 0 <= i < j < t.len() ==> lt(#[trigger] t[i].0, #[trigger] t[j].0)
    &&& forall|i: int| 0 <= i < t.len() ==> (#[trigger] t[i]).1 == occ(s, t[i].0) && t[i].1 > 0
    &&& forall|j: int| 0 <= j < s.len() ==> exists|i: int| 0 <= i < t.len() && (#[trigger] t[i]).0 == #[trigger] s[j]
}

/// The numeric order.
pub open spec fn u32_lt() -> spec_fn(u32, u32) -> bool {
    |a: u32, b: u32| a < b
}

/// The order of `str`: lexicographic by character, which is the order of
/// their UTF-8 bytes.
pub open spec fn lex_lt(a: Seq<char>, b: Seq<char>) -> bool
    decreases a.len(),
{
    if a.len() == 0 {
        b.len() > 0
    } else if b.len() == 0 {
        false
    } else if a[0] != b[0] {
        (a[0] as int) < (b[0] as int)
    } else {
        lex_lt(a.drop_first(), b.drop_first())
    }
}

/// The order of `str`, as a closure.
pub open spec fn str_lt() -> spec_fn(Seq<char>, Seq<char>) -> bool {
    |a: Seq<char>, b: Seq<char>| lex_lt(a, b)
}

/// The string order is a strict total order.
pub proof fn lemma_lex_total(a: Seq<char>, b: Seq<char>)
    ensures
        !(lex_lt(a, b) && lex_lt(b, a)),
        !lex_lt(a, a),
        a != b ==> lex_lt(a, b) || lex_lt(b, a),
    decreases a.len(),
{
    if a.len() > 0 {
        lemma_lex_total(a.drop_first(), a.drop_first());
    }
    if a.len() == 0 && b.len() == 0 {
        assert(a =~= b);
    } else if a.len() > 0 && b.len() > 0 {
        if a[0] == b[0] {
            lemma_lex_total(a.drop_first(), b.drop_first());
            if a.drop_first() == b.drop_first() {
                assert(a =~= b) by {
                    assert forall|i: int| 0 <= i < a.len() implies a[i] == b[i] by {
                        if i > 0 {
                            assert(a[i] == a.drop_first()[i - 1]);
                            assert(b[i] == b.drop_first()[i - 1]);
                        }
                    }
                }
            }
        } else {
            assert((a[0] as int) != (b[0] as int));
        }
    }
}

/// The string order is transitive.
pub proof fn lemma_lex_trans(a: Seq<char>, b: Seq<char>, c: Seq<char>)
    requires
        lex_lt(a, b),
        lex_lt(b, c),
    ensures
        lex_lt(a, c),
    decreases a.len(),
{
    if a.len() > 0 && b.len() > 0 && c.len() > 0 && a[0] == b[0] && b[0] == c[0] {
        lemma_lex_trans(a.drop_first(), b.drop_first(), c.drop_first());
    }
}

/// `a < b` in the string order.
pub fn str_less(a: &str, b: &str) -> (r: bool)
    ensures
        r == lex_lt(a@, b@),
{
    let x = crate::text::chars_of(a);
    let y = crate::text::chars_of(b);
    let mut i: usize = 0;
    proof {
        assert(a@.skip(0) =~= a@);
        assert(b@.skip(0) =~= b@);
    }
    while i < x.len() && i < y.len() && x[i] == y[i]
        invariant
            i <= x@.len(),
            i <= y@.len(),
            x@ == a@,
            y@ == b@,
            lex_lt(a@, b@) == lex_lt(a@.skip(i as int), b@.skip(i as int)),
        decreases x@.len() - i,
    {
        proof {
            let (p, q) = (a@.skip(i as int), b@.skip(i as int));
            assert(p.drop_first() =~= a@.skip(i + 1));
            assert(q.drop_first() =~= b@.skip(i + 1));
        }
        i = i + 1;
    }
    if i == x.len() {
        i < y.len()
    } else if i == y.len() {
        false
    } else {
        x[i] < y[i]
    }
}

/// One more occurrence of `k` in a tally of `s`: the tally of `s.push(k)`.
fn add_u32(t: &mut Vec<(u32, usize)>, k: u32, Ghost(s): Ghost<Seq<u32>>)
    requires
        is_tally(s, old(t)@, u32_lt()),
        s.len() < usize::MAX,
    ensures
        is_tally(s.push(k), final(t)@, u32_lt()),
{
    let ghost t0 = t@;
    let ghost lt = u32_lt();
    let mut i: usize = 0;
    while i < t.len() && t[i].0 < k
        invariant
            t@ == t0,
            i <= t0.len(),
            forall|j: int| 0 <= j < i ==> t0[j].0 < k,
        decreases t0.len() - i,
    {
        i = i + 1;
    }
    let ghost s2 = s.push(k);
    proof {
        assert(s2.drop_last() =~= s);
        assert forall|key: u32| #[trigger] occ(s2, key) == occ(s, key) + if key == k { 1nat } else { 0nat } by {}
        lemma_occ(s, k);
    }
    if i < t.len() && t[i].0 == k {
        let c = t[i].1;
        proof {
            assert(t0[i as int].1 == occ(s, k));
            lemma_occ(s, k);
        }
        t.set(i, (k, c + 1));
        proof {
            assert forall|j: int| 0 <= j < s2.len() implies exists|m: int|
                0 <= m < t@.len() && (#[trigger] t@[m]).0 == #[trigger] s2[j] by {
                if j < s.len() {
                    assert(s2[j] == s[j]);
                    let m = choose|m: int| 0 <= m < t0.len() && (#[trigger] t0[m]).0 == s[j];
                    assert(t@[m].0 == t0[m].0);
                } else {
                    assert(t@[i as int].0 == s2[j]);
                }
            }
        }
    } else {
        proof {
            if s.contains(k) {
                let j = choose|j: int| 0 <= j < s.len() && s[j] == k;
                let m = choose|m: int| 0 <= m < t0.len() && (#[trigger] t0[m]).0 == #[trigger] s[j];
                if m < i {
                } else if m > i {
                    assert(lt(t0[i as int].0, t0[m].0));
                }
            }
            lemma_occ(s, k);
        }
        t.insert(i, (k, 1));
        proof {
            assert(t@ =~= t0.insert(i as int, (k, 1usize)));
            assert forall|a: int, b: int| 0 <= a < b < t@.len() implies lt(#[trigger] t@[a].0, #[trigger] t@[b].0) by {
                if b < i {
                    assert(t@[a] == t0[a] && t@[b] == t0[b]);
                } else if a < i && b == i {
                    assert(t@[a] == t0[a]);
                } else if a < i {
                    assert(t@[a] == t0[a] && t@[b] == t0[b - 1]);
                } else if a == i {
                    assert(t@[b] == t0[b - 1]);
                    if b - 1 > i {
                        assert(lt(t0[i as int].0, t0[b - 1].0));
                    }
                } else {
                    assert(t@[a] == t0[a - 1] && t@[b] == t0[b - 1]);
                }
            }
            assert forall|a: int| 0 <= a < t@.len() implies (#[trigger] t@[a]).1 == occ(s2, t@[a].0) && t@[a].1 > 0 by {
                if a < i {
                    assert(t@[a] == t0[a]);
                } else if a > i {
                    assert(t@[a] == t0[a - 1]);
                    if a - 1 > i {
                        assert(lt(t0[i as int].0, t0[a - 1].0));
                    }
                }
            }
            assert forall|j: int| 0 <= j < s2.len() implies exists|m: int|
                0 <= m < t@.len() && (#[trigger] t@[m]).0 == #[trigger] s2[j] by {
                if j < s.len() {
                    assert(s2[j] == s[j]);
                    let m = choose|m: int| 0 <= m < t0.len() && (#[trigger] t0[m]).0 == s[j];
                    if m < i {
                        assert(t@[m] == t0[m]);
                    } else {
                        assert(t@[m + 1] == t0[m]);
                    }
                } else {
                    assert(t@[i as int].0 == s2[j]);
                }
            }
        }
    }
}

/// The tally of some numbers, keys ascending.
pub fn tally_u32(keys: &Vec<u32>) -> (t: Vec<(u32, usize)>)
    ensures
        is_tally(keys@, t@, u32_lt()),
{
    let mut t: Vec<(u32, usize)> = Vec::new();
    let mut j: usize = 0;
    while j < keys.len()
        invariant
            j <= keys@.len(),
            is_tally(keys@.take(j as int), t@, u32_lt()),
        decreases keys@.len() - j,
    {
        proof {
            assert(keys@.take(j as int).push(keys@[j as int]) =~= keys@.take(j + 1));
        }
        add_u32(&mut t, keys[j], Ghost(keys@.take(j as int)));
        j = j + 1;
    }
    proof {
        assert(keys@.take(j as int) =~= keys@);
    }
    t
}

/// The view of a tally of strings.
pub open spec fn str_tally_v(t: Seq<(String, usize)>) -> Seq<(Seq<char>, usize)> {
    t.map_values(|e: (String, usize)| (e.0@, e.1))
}

/// One more occurrence of `k` in a tally of `s`: the tally of `s.push(k)`.
fn add_str(t: &mut Vec<(String, usize)>, k: &str, Ghost(s): Ghost<Seq<Seq<char>>>)
    requires
        is_tally(s, str_tally_v(old(t)@), str_lt()),
        s.len() < usize::MAX,
    ensures
        is_tally(s.push(k@), str_tally_v(final(t)@), str_lt()),
{
    let ghost t0 = str_tally_v(t@);
    let ghost lt = str_lt();
    let ghost kv = k@;
    let mut i: usize = 0;
    while i < t.len() && str_less(t[i].0.as_str(), k)
        invariant
            str_tally_v(t@) == t0,
            i <= t0.len(),
            t@.len() == t0.len(),
            kv == k@,
            forall|j: int| 0 <= j < i ==> lex_lt(t0[j].0, kv),
        decreases t0.len() - i,
    {
        proof {
            assert(t0[i as int] == (t@[i as int].0@, t@[i as int].1));
        }
        i = i + 1;
    }
    let ghost s2 = s.push(kv);
    proof {
        assert(s2.drop_last() =~= s);
        assert forall|key: Seq<char>| #[trigger] occ(s2, key) == occ(s, key) + if key == kv { 1nat } else { 0nat } by {}
        lemma_occ(s, kv);
    }
    if i < t.len() && str_eq(t[i].0.as_str(), k) {
        let c = t[i].1;
        proof {
            assert(t0[i as int] == (t@[i as int].0@, t@[i as int].1));
            lemma_occ(s, kv);
        }
        let key = crate::text::owned(k);
        t.set(i, (key, c + 1));
        proof {
            let t1 = str_tally_v(t@);
            assert(t1 =~= t0.update(i as int, (kv, (c + 1) as usize)));
            assert forall|j: int| 0 <= j < s2.len() implies exists|m: int|
                0 <= m < t1.len() && (#[trigger] t1[m]).0 == #[trigger] s2[j] by {
                if j < s.len() {
                    assert(s2[j] == s[j]);
                    let m = choose|m: int| 0 <= m < t0.len() && (#[trigger] t0[m]).0 == s[j];
                    assert(t1[m].0 == t0[m].0);
                } else {
                    assert(t1[i as int].0 == s2[j]);
                }
            }
        }
    } else {
        proof {
            if i < t0.len() {
                assert(t0[i as int] == (t@[i as int].0@, t@[i as int].1));
                lemma_lex_total(t0[i as int].0, kv);
            }
            if s.contains(kv) {
                let j = choose|j: int| 0 <= j < s.len() && s[j] == kv;
                let m = choose|m: int| 0 <= m < t0.len() && (#[trigger] t0[m]).0 == #[trigger] s[j];
                lemma_lex_total(kv, kv);
                if m > i {
                    assert(lt(t0[i as int].0, t0[m].0));
                    lemma_lex_total(t0[i as int].0, kv);
                }
            }
            lemma_occ(s, kv);
        }
        let key = crate::text::owned(k);
        t.insert(i, (key, 1));
        proof {
            let t1 = str_tally_v(t@);
            assert(t1 =~= t0.insert(i as int, (kv, 1usize)));
            assert forall|a: int, b: int| 0 <= a < b < t1.len() implies lt(#[trigger] t1[a].0, #[trigger] t1[b].0) by {
                if b < i {
                    assert(t1[a] == t0[a] && t1[b] == t0[b]);
                } else if a < i && b == i {
                    assert(t1[a] == t0[a]);
                } else if a < i {
                    assert(t1[a] == t0[a] && t1[b] == t0[b - 1]);
                    assert(lt(t0[a].0, t0[b - 1].0));
                } else if a == i {
                    assert(t1[b] == t0[b - 1]);
                    if b - 1 > i {
                        assert(lt(t0[i as int].0, t0[b - 1].0));
                        lemma_lex_trans(kv, t0[i as int].0, t0[b - 1].0);
                    }
                } else {
                    assert(t1[a] == t0[a - 1] && t1[b] == t0[b - 1]);
                }
            }
            assert forall|a: int| 0 <= a < t1.len() implies (#[trigger] t1[a]).1 == occ(s2, t1[a].0) && t1[a].1 > 0 by {
                if a < i {
                    assert(t1[a] == t0[a]);
                    lemma_lex_total(t0[a].0, kv);
                } else if a > i {
                    assert(t1[a] == t0[a - 1]);
                    if a - 1 > i {
                        assert(lt(t0[i as int].0, t0[a - 1].0));
                        lemma_lex_trans(kv, t0[i as int].0, t0[a - 1].0);
                    }
                    lemma_lex_total(t0[a - 1].0, kv);
                }
            }
            assert forall|j: int| 0 <= j < s2.len() implies exists|m: int|
                0 <= m < t1.len() && (#[trigger] t1[m]).0 == #[trigger] s2[j] by {
                if j < s.len() {
                    assert(s2[j] == s[j]);
                    let m = choose|m: int| 0 <= m < t0.len() && (#[trigger] t0[m]).0 == s[j];
                    if m < i {
                        assert(t1[m] == t0[m]);
                    } else {
                        assert(t1[m + 1] == t0[m]);
                    }
                } else {
                    assert(t1[i as int].0 == s2[j]);
                }
            }
        }
    }
}

/// The tally of some strings, keys in string order.
pub fn tally_strs(keys: &Vec<String>) -> (t: Vec<(String, usize)>)
    ensures
        is_tally(strs_v(keys@), str_tally_v(t@), str_lt()),
{
    let mut t: Vec<(String, usize)> = Vec::new();
    let ghost sv = strs_v(keys@);
    proof {
        assert(str_tally_v(t@) =~= Seq::<(Seq<char>, usize)>::empty());
    }
    let mut j: usize = 0;
    while j < keys.len()
        invariant
            j <= keys@.len(),
            sv == strs_v(keys@),
            sv.len() == keys@.len(),
            is_tally(sv.take(j as int), str_tally_v(t@), str_lt()),
        decreases keys@.len() - j,
    {
        proof {
            assert(sv.take(j as int).push(keys@[j as int]@) =~= sv.take(j + 1));
        }
        add_str(&mut t, keys[j].as_str(), Ghost(sv.take(j as int)));
        j = j + 1;
    }
    proof {
        assert(sv.take(j as int) =~= sv);
    }
    t
}

} // verus!
