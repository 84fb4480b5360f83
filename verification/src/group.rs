//! Stable grouping of positions by a small integer key (a counting sort).
//!
//! Given `keys[j] < n`, the positions `j` are laid out group by group: all
//! positions with key `0` (in their original order), then key `1`, and so on.
//! `offsets[u]` is where group `u` starts. This is the layout of a CSR row
//! array and of its reverse index.

use vstd::prelude::*;

verus! {

/// How many keys equal `u`.
pub open spec fn cnt_eq(keys: Seq<usize>, u: int) -> nat
    decreases keys.len(),
{
    if keys.len() == 0 {
        0
    } else {
        cnt_eq(keys.drop_last(), u) + if keys.last() == u {
            1nat
        } else {
            0nat
        }
    }
}

/// How many keys are below `u`.
pub open spec fn cnt_lt(keys: Seq<usize>, u: int) -> nat
    decreases keys.len(),
{
    if keys.len() == 0 {
        0
    } else {
        cnt_lt(keys.drop_last(), u) + if keys.last() < u {
            1nat
        } else {
            0nat
        }
    }
}

/// The positions whose key is `u`, in increasing order.
pub open spec fn group(keys: Seq<usize>, u: int) -> Seq<int>
    decreases keys.len(),
{
    if keys.len() == 0 {
        Seq::empty()
    } else {
        let g = group(keys.drop_last(), u);
        if keys.last() == u {
            g.push(keys.len() - 1)
        } else {
            g
        }
    }
}

/// Every key is below `n`.
pub open spec fn keys_below(keys: Seq<usize>, n: int) -> bool {
    forall|j: int| 0 <= j < keys.len() ==> keys[j] < n
}

/// The positions of `keys` that carry `u`.
pub open spec fn positions_of(keys: Seq<usize>, u: int) -> Set<int> {
    Set::new(|j: int| 0 <= j < keys.len() && keys[j] == u)
}

/// `cnt_eq` is the size of the set of positions carrying `u`.
pub proof fn lemma_cnt_eq_positions(keys: Seq<usize>, u: int)
    ensures
        positions_of(keys, u).finite(),
        positions_of(keys, u).len() == cnt_eq(keys, u),
    decreases keys.len(),
{
    if keys.len() == 0 {
        assert(positions_of(keys, u) =~= Set::<int>::empty());
    } else {
        let p = keys.drop_last();
        lemma_cnt_eq_positions(p, u);
        let l = keys.len() - 1;
        if keys.last() == u {
            assert(positions_of(keys, u) =~= positions_of(p, u).insert(l));
        } else {
            assert(positions_of(keys, u) =~= positions_of(p, u));
        }
    }
}

/// `group` has `cnt_eq` members; each is a position carrying key `u`, in
/// strictly increasing order, and every such position is a member.
pub proof fn lemma_group(keys: Seq<usize>, u: int)
    ensures
        group(keys, u).len() == cnt_eq(keys, u),
        forall|t: int|
            0 <= t < group(keys, u).len() ==> 0 <= #[trigger] group(keys, u)[t] < keys.len()
                && keys[group(keys, u)[t]] == u,
        forall|t1: int, t2: int|
            0 <= t1 < t2 < group(keys, u).len() ==> group(keys, u)[t1] < group(keys, u)[t2],
        forall|j: int|
            0 <= j < keys.len() && keys[j] == u ==> exists|t: int|
                0 <= t < group(keys, u).len() && #[trigger] group(keys, u)[t] == j,
    decreases keys.len(),
{
    if keys.len() > 0 {
        let k = keys.drop_last();
        lemma_group(k, u);
        assert forall|j: int| 0 <= j < keys.len() && keys[j] == u implies exists|t: int|
            0 <= t < group(keys, u).len() && #[trigger] group(keys, u)[t] == j by {
            if j < keys.len() - 1 {
                assert(k[j] == keys[j]);
                let t = choose|t: int| 0 <= t < group(k, u).len() && #[trigger] group(k, u)[t] == j;
                assert(group(keys, u)[t] == j);
            } else {
                assert(group(keys, u)[group(keys, u).len() - 1] == j);
            }
        }
    }
}

/// Counting below `u + 1` adds the keys equal to `u`.
pub proof fn lemma_cnt_lt_step(keys: Seq<usize>, u: int)
    ensures
        cnt_lt(keys, u + 1) == cnt_lt(keys, u) + cnt_eq(keys, u),
    decreases keys.len(),
{
    if keys.len() > 0 {
        lemma_cnt_lt_step(keys.drop_last(), u);
    }
}

/// With every key below `n`, all of them are counted below `n`; none below 0.
pub proof fn lemma_cnt_lt_bounds(keys: Seq<usize>, n: int)
    requires
        keys_below(keys, n),
    ensures
        cnt_lt(keys, n) == keys.len(),
        cnt_lt(keys, 0) == 0,
    decreases keys.len(),
{
    if keys.len() > 0 {
        lemma_cnt_lt_bounds(keys.drop_last(), n);
    }
}

/// Extending a prefix by one position.
pub proof fn lemma_take_step(keys: Seq<usize>, j: int, u: int)
    requires
        0 <= j < keys.len(),
    ensures
        cnt_eq(keys.take(j + 1), u) == cnt_eq(keys.take(j), u) + if keys[j] == u {
            1nat
        } else {
            0nat
        },
        group(keys.take(j + 1), u) == if keys[j] == u {
            group(keys.take(j), u).push(j)
        } else {
            group(keys.take(j), u)
        },
{
    assert(keys.take(j + 1).drop_last() =~= keys.take(j));
}

/// A prefix has no more keys equal to `u` than the whole sequence, and strictly
/// fewer when the position right after the prefix carries `u`.
pub proof fn lemma_cnt_prefix(keys: Seq<usize>, j: int, u: int)
    requires
        0 <= j <= keys.len(),
    ensures
        cnt_eq(keys.take(j), u) <= cnt_eq(keys, u),
        j < keys.len() && keys[j] == u ==> cnt_eq(keys.take(j), u) < cnt_eq(keys, u),
    decreases keys.len() - j,
{
    if j < keys.len() {
        lemma_take_step(keys, j, u);
        lemma_cnt_prefix(keys, j + 1, u);
    } else {
        assert(keys.take(j) =~= keys);
    }
}

/// Stable grouping of the positions `0..keys.len()` by key.
///
/// Returns `(offsets, order)`: `offsets[u]` is the number of keys below `u`,
/// and the positions of group `u` occupy `order[offsets[u] .. offsets[u + 1]]`
/// in their original order.
pub fn group_by_key(keys: &Vec<usize>, n: usize) -> (r: (Vec<usize>, Vec<usize>))
    requires
        keys_below(keys@, n as int),
        n < usize::MAX,
    ensures
        r.0.len() == n + 1,
        r.1.len() == keys.len(),
        forall|u: int| 0 <= u <= n ==> #[trigger] r.0[u] == cnt_lt(keys@, u),
        forall|u: int| 0 <= u < n ==> r.0[u + 1] == r.0[u] + cnt_eq(keys@, u),
        forall|a: int, b: int| 0 <= a <= b <= n ==> r.0[a] <= r.0[b],
        r.0[0] == 0,
        r.0[n as int] == keys.len(),
        forall|u: int, t: int|
            0 <= u < n && 0 <= t < cnt_eq(keys@, u) ==> r.1[r.0[u] + t] == #[trigger] group(
                keys@,
                u,
            )[t],
{
    let m = keys.len();
    // offsets by counting
    let mut counts: Vec<usize> = Vec::new();
    let mut i: usize = 0;
    while i < n
        invariant
            i <= n,
            counts.len() == i,
            forall|u: int| 0 <= u < i ==> counts[u] == 0,
        decreases n - i,
    {
        counts.push(0);
        i = i + 1;
    }
    let mut j: usize = 0;
    while j < m
        invariant
            j <= m,
            m == keys.len(),
            counts.len() == n,
            keys_below(keys@, n as int),
            forall|u: int| 0 <= u < n ==> #[trigger] counts[u] == cnt_eq(keys@.take(j as int), u),
        decreases m - j,
    {
        let k = keys[j];
        proof {
            assert forall|u: int| 0 <= u < n implies cnt_eq(keys@.take(j + 1), u) == cnt_eq(
                keys@.take(j as int),
                u,
            ) + if keys@[j as int] == u {
                1nat
            } else {
                0nat
            } by {
                lemma_take_step(keys@, j as int, u);
            }
            lemma_cnt_prefix(keys@, j as int, k as int);
            assert(keys@.take(j as int).len() == j);
            lemma_cnt_bounded(keys@.take(j as int), k as int);
        }
        counts.set(k, counts[k] + 1);
        j = j + 1;
    }
    assert(keys@.take(m as int) =~= keys@);
    let mut offsets: Vec<usize> = Vec::new();
    offsets.push(0);
    let mut acc: usize = 0;
    let mut u: usize = 0;
    proof {
        lemma_cnt_lt_bounds(keys@, n as int);
    }
    while u < n
        invariant
            u <= n,
            offsets.len() == u + 1,
            counts.len() == n,
            m == keys.len(),
            keys_below(keys@, n as int),
            acc == cnt_lt(keys@, u as int),
            acc == offsets[u as int],
            cnt_lt(keys@, n as int) == m,
            forall|w: int| 0 <= w < n ==> #[trigger] counts[w] == cnt_eq(keys@, w),
            forall|w: int| 0 <= w <= u ==> #[trigger] offsets[w] == cnt_lt(keys@, w),
            forall|w: int| 0 <= w < u ==> offsets[w + 1] == offsets[w] + cnt_eq(keys@, w),
            forall|a: int, b: int| 0 <= a <= b <= u ==> offsets[a] <= offsets[b],
        decreases n - u,
    {
        proof {
            lemma_cnt_lt_step(keys@, u as int);
            lemma_cnt_lt_monotone(keys@, u as int + 1, n as int);
        }
        acc = acc + counts[u];
        offsets.push(acc);
        u = u + 1;
    }
    // placement
    let mut cursor: Vec<usize> = Vec::new();
    let mut order: Vec<usize> = Vec::new();
    let mut w: usize = 0;
    while w < n
        invariant
            w <= n,
            cursor.len() == w,
            offsets.len() == n + 1,
            forall|x: int| 0 <= x < w ==> cursor[x] == offsets[x],
        decreases n - w,
    {
        cursor.push(offsets[w]);
        w = w + 1;
    }
    let mut z: usize = 0;
    while z < m
        invariant
            z <= m,
            order.len() == z,
            forall|x: int| 0 <= x < z ==> order[x] == 0,
        decreases m - z,
    {
        order.push(0);
        z = z + 1;
    }
    let mut j: usize = 0;
    while j < m
        invariant
            j <= m,
            m == keys.len(),
            order.len() == m,
            cursor.len() == n,
            offsets.len() == n + 1,
            keys_below(keys@, n as int),
            forall|u: int| 0 <= u <= n ==> #[trigger] offsets[u] == cnt_lt(keys@, u),
            forall|a: int, b: int| 0 <= a <= b <= n ==> offsets[a] <= offsets[b],
            offsets[n as int] == m,
            forall|u: int| 0 <= u < n ==> offsets[u + 1] == offsets[u] + cnt_eq(keys@, u),
            forall|u: int|
                0 <= u < n ==> #[trigger] cursor[u] == offsets[u] + cnt_eq(
                    keys@.take(j as int),
                    u,
                ),
            forall|u: int, t: int|
                0 <= u < n && 0 <= t < cnt_eq(keys@.take(j as int), u) ==> order[offsets[u] + t]
                    == #[trigger] group(keys@.take(j as int), u)[t],
        decreases m - j,
    {
        let k = keys[j];
        proof {
            lemma_cnt_prefix(keys@, j as int, k as int);
            lemma_take_step(keys@, j as int, k as int);
        }
        let pos = cursor[k];
        let ghost old_order = order@;
        order.set(pos, j);
        cursor.set(k, pos + 1);
        proof {
            assert forall|u: int| 0 <= u < n implies #[trigger] cursor[u] == offsets[u] + cnt_eq(
                keys@.take(j + 1),
                u,
            ) by {
                lemma_take_step(keys@, j as int, u);
            }
            assert forall|u: int, t: int|
                0 <= u < n && 0 <= t < cnt_eq(keys@.take(j + 1), u) implies order[offsets[u] + t]
                == #[trigger] group(keys@.take(j + 1), u)[t] by {
                lemma_take_step(keys@, j as int, u);
                lemma_cnt_prefix(keys@, j as int, u);
                lemma_group(keys@.take(j as int), u);
                if u == k as int {
                    if t < cnt_eq(keys@.take(j as int), u) {
                        assert(old_order[offsets[u] + t] == group(keys@.take(j as int), u)[t]);
                    }
                } else {
                    assert(offsets[u] + t != pos) by {
                        if u < k {
                            assert(offsets[u + 1] <= offsets[k as int]);
                        } else {
                            assert(offsets[k + 1] <= offsets[u]);
                        }
                    }
                    assert(old_order[offsets[u] + t] == group(keys@.take(j as int), u)[t]);
                }
            }
        }
        j = j + 1;
    }
    assert(keys@.take(m as int) =~= keys@);
    (offsets, order)
}

/// Counts over a sequence never exceed its length.
pub proof fn lemma_cnt_bounded(keys: Seq<usize>, u: int)
    ensures
        cnt_eq(keys, u) <= keys.len(),
        cnt_lt(keys, u) <= keys.len(),
    decreases keys.len(),
{
    if keys.len() > 0 {
        lemma_cnt_bounded(keys.drop_last(), u);
    }
}

/// Counting below a larger bound counts at least as many keys.
pub proof fn lemma_cnt_lt_monotone(keys: Seq<usize>, a: int, b: int)
    requires
        a <= b,
    ensures
        cnt_lt(keys, a) <= cnt_lt(keys, b),
    decreases keys.len(),
{
    if keys.len() > 0 {
        lemma_cnt_lt_monotone(keys.drop_last(), a, b);
    }
}

} // verus!
