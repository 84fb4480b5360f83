//! Reading the query parameters of the HTTP API into traversal options and
//! bounds: direction, edge-type filter, time window, hop and result limits.

use vstd::prelude::*;

use crate::edge::{edgetype_of_code, lemma_code_injective, lemma_code_roundtrip, EdgeType};
use crate::index::{Dir, EdgeTypeMask, TraversalOpts};
use crate::oplc::{csv_tokens, cvecs, split_trim};
use crate::text::{chars_of, str_eq, string_from};
use crate::time::Timestamp;

verus! {

/// The start of a window whose start is not given (`i64::MIN / 2`).
pub const OPEN_LO: i64 = -4611686018427387904i64;

/// The end of a window whose end is not given (`i64::MAX / 2`).
pub const OPEN_HI: i64 = 4611686018427387903i64;

/// `k` has name `s`, and no type of a smaller discriminant has it.
pub open spec fn first_named(k: EdgeType, s: Seq<char>) -> bool {
    k.label() == s && forall|j: u8| j < k.code() ==> edgetype_of_code(j).unwrap().label() != s
}

/// The edge type that [`EdgeType::from_name`] reads from `s`, if any.
pub open spec fn named_type(s: Seq<char>) -> Option<EdgeType> {
    if exists|k: EdgeType| #[trigger] first_named(k, s) {
        Some(choose|k: EdgeType| #[trigger] first_named(k, s))
    } else {
        None
    }
}

/// The edge types named by some pieces of text, in order; other pieces are
/// skipped.
pub open spec fn named_types(ts: Seq<Seq<char>>) -> Seq<EdgeType>
    decreases ts.len(),
{
    if ts.len() == 0 {
        Seq::empty()
    } else {
        match named_type(ts.last()) {
            Some(k) => named_types(ts.drop_last()).push(k),
            None => named_types(ts.drop_last()),
        }
    }
}

/// At most one type is first to carry a name.
proof fn lemma_first_named_unique(a: EdgeType, b: EdgeType, s: Seq<char>)
    requires
        first_named(a, s),
        first_named(b, s),
    ensures
        a == b,
{
    lemma_code_roundtrip(a);
    lemma_code_roundtrip(b);
    if a.code() < b.code() {
        assert(edgetype_of_code(a.code()).unwrap().label() != s);
    } else if b.code() < a.code() {
        assert(edgetype_of_code(b.code()).unwrap().label() != s);
    } else {
        lemma_code_injective(a, b);
    }
}

/// The edge type a name stands for.
fn type_named(s: &str) -> (r: Option<EdgeType>)
    ensures
        r == named_type(s@),
{
    let r = EdgeType::from_name(s);
    proof {
        match r {
            Some(k) => {
                assert(first_named(k, s@));
                let c = choose|c: EdgeType| #[trigger] first_named(c, s@);
                lemma_first_named_unique(k, c, s@);
            },
            None => {
                assert forall|k: EdgeType| !#[trigger] first_named(k, s@) by {}
            },
        }
    }
    r
}

/// The traversal direction a `dir` parameter asks for: `out`, `in`, or both.
pub fn parse_dir(s: Option<&str>) -> (d: Dir)
    ensures
        d == dir_spec(s),
{
    match s {
        Some(x) => {
            if str_eq(x, "out") {
                Dir::Out
            } else if str_eq(x, "in") {
                Dir::In
            } else {
                Dir::Both
            }
        },
        None => Dir::Both,
    }
}

/// The edge-type filter an `etypes` parameter asks for: the types named in
/// its comma-separated list (unknown names are skipped), or no filter when
/// there is no parameter or it names no type.
pub fn parse_etypes(s: Option<&str>) -> (r: Option<EdgeTypeMask>)
    ensures
        filter_for(s, r),
{
    let x = match s {
        Some(x) => x,
        None => {
            return None;
        },
    };
    let cs = chars_of(x);
    let pieces = split_trim(&cs);
    let ghost ps = cvecs(pieces@);
    let mut types: Vec<EdgeType> = Vec::new();
    let mut i: usize = 0;
    while i < pieces.len()
        invariant
            i <= pieces@.len(),
            ps == cvecs(pieces@),
            ps == csv_tokens(x@),
            types@ == named_types(ps.take(i as int)),
        decreases pieces@.len() - i,
    {
        let name = string_from(pieces[i].as_slice());
        let t = type_named(name.as_str());
        proof {
            assert(ps.take(i + 1).drop_last() =~= ps.take(i as int));
            assert(ps.take(i + 1).last() == pieces@[i as int]@);
        }
        match t {
            Some(k) => types.push(k),
            None => {},
        }
        i = i + 1;
    }
    proof {
        assert(ps.take(i as int) =~= ps);
    }
    if types.len() == 0 {
        None
    } else {
        Some(EdgeTypeMask::of(types.as_slice()))
    }
}

/// The time window `from`/`to` parameters ask for: none without either,
/// else `[from, to]` with a missing end left open ([`OPEN_LO`],
/// [`OPEN_HI`]).
pub fn time_window(from: Option<i64>, to: Option<i64>) -> (w: Option<(Timestamp, Timestamp)>)
    ensures
        w == time_window_spec(from, to),
{
    match (from, to) {
        (None, None) => None,
        (lo, hi) => {
            let l = match lo {
                Some(f) => f,
                None => OPEN_LO,
            };
            let h = match hi {
                Some(t) => t,
                None => OPEN_HI,
            };
            Some((Timestamp(l), Timestamp(h)))
        },
    }
}

/// The options of a neighborhood query: its window, type filter and
/// direction, and its hop count (one by default) clamped to `1..=5`.
pub fn neighbor_opts(
    hops: Option<u32>,
    etypes: Option<&str>,
    dir: Option<&str>,
    from: Option<i64>,
    to: Option<i64>,
) -> (o: TraversalOpts)
    ensures
        o.time == time_window_spec(from, to),
        filter_for(etypes, o.etypes),
        o.direction == dir_spec(dir),
        o.max_hops == match hops {
            Some(h) => if h < 1 {
                1
            } else if h > 5 {
                5
            } else {
                h
            },
            None => 1,
        },
{
    let h = match hops {
        Some(h) => h,
        None => 1,
    };
    let clamped = if h < 1 {
        1
    } else if h > 5 {
        5
    } else {
        h
    };
    TraversalOpts {
        time: time_window(from, to),
        etypes: parse_etypes(etypes),
        max_hops: clamped,
        direction: parse_dir(dir),
    }
}

/// The options of a path query: its window and direction, every edge type.
pub fn path_opts(dir: Option<&str>, from: Option<i64>, to: Option<i64>) -> (o: TraversalOpts)
    ensures
        o.time == time_window_spec(from, to),
        o.etypes is None,
        o.direction == dir_spec(dir),
        o.max_hops == 0,
{
    TraversalOpts { time: time_window(from, to), etypes: None, max_hops: 0, direction: parse_dir(dir) }
}

/// What [`time_window`] returns.
pub open spec fn time_window_spec(from: Option<i64>, to: Option<i64>) -> Option<(Timestamp, Timestamp)> {
    if from is None && to is None {
        None
    } else {
        Some(
            (
                Timestamp(
                    match from {
                        Some(f) => f,
                        None => OPEN_LO,
                    },
                ),
                Timestamp(
                    match to {
                        Some(t) => t,
                        None => OPEN_HI,
                    },
                ),
            ),
        )
    }
}

/// What [`parse_dir`] returns.
pub open spec fn dir_spec(s: Option<&str>) -> Dir {
    match s {
        Some(x) => if x@ == "out"@ {
            Dir::Out
        } else if x@ == "in"@ {
            Dir::In
        } else {
            Dir::Both
        },
        None => Dir::Both,
    }
}

/// `r` is the filter an `etypes` parameter asks for: none without the
/// parameter or when it names no type, else a mask admitting exactly the
/// named types.
pub open spec fn filter_for(s: Option<&str>, r: Option<EdgeTypeMask>) -> bool {
    match s {
        None => r is None,
        Some(x) => {
            let ts = named_types(csv_tokens(x@));
            if ts.len() == 0 {
                r is None
            } else {
                r matches Some(m) && forall|t: EdgeType| m.has(t) <==> ts.contains(t)
            }
        },
    }
}

/// A result limit: the asked one or a default, at most `cap`.
pub fn limit_or(limit: Option<usize>, default: usize, cap: usize) -> (n: usize)
    ensures
        n == {
            let l = match limit {
                Some(l) => l,
                None => default,
            };
            if l < cap {
                l
            } else {
                cap
            }
        },
{
    let l = match limit {
        Some(l) => l,
        None => default,
    };
    if l < cap {
        l
    } else {
        cap
    }
}

/// The bounds and bucket width of a timeline query: open ends as in
/// [`time_window`], one hour by default, at least one millisecond.
pub fn timeline_params(from: Option<i64>, to: Option<i64>, bucket: Option<i64>) -> (r: (i64, i64, i64))
    ensures
        r.0 == match from {
            Some(f) => f,
            None => OPEN_LO,
        },
        r.1 == match to {
            Some(t) => t,
            None => OPEN_HI,
        },
        r.2 == {
            let b = match bucket {
                Some(b) => b,
                None => 3_600_000,
            };
            if b < 1 {
                1
            } else {
                b
            }
        },
{
    let lo = match from {
        Some(f) => f,
        None => OPEN_LO,
    };
    let hi = match to {
        Some(t) => t,
        None => OPEN_HI,
    };
    let b = match bucket {
        Some(b) => b,
        None => 3_600_000,
    };
    (lo, hi, if b < 1 {
        1
    } else {
        b
    })
}

/// The bounds of an event-context query: `ts` plus or minus the window
/// (five minutes by default).
pub fn context_bounds(ts: i64, window: Option<i64>) -> (r: (i64, i64))
    requires
        i64::MIN <= ts - match window {
            Some(w) => w,
            None => 300_000,
        } <= i64::MAX,
        i64::MIN <= ts + match window {
            Some(w) => w,
            None => 300_000,
        } <= i64::MAX,
    ensures
        ({
            let w = match window {
                Some(w) => w,
                None => 300_000,
            };
            r.0 == ts - w && r.1 == ts + w
        }),
{
    let w = match window {
        Some(w) => w,
        None => 300_000,
    };
    (ts - w, ts + w)
}

/// How many attack paths a query asks for: three by default, clamped to
/// `1..=10`.
pub fn path_count(k: Option<usize>) -> (n: usize)
    ensures
        n == match k {
            Some(k) => if k < 1 {
                1
            } else if k > 10 {
                10
            } else {
                k
            },
            None => 3,
        },
{
    match k {
        Some(k) => if k < 1 {
            1
        } else if k > 10 {
            10
        } else {
            k
        },
        None => 3,
    }
}

} // verus!
