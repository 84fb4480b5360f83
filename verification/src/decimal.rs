//! Numbers as the filter DSL reads them: the text accepted by `f64`'s
//! `FromStr` (optional sign; `inf`, `infinity` or `nan` in any case; or
//! digits with an optional fraction and exponent), compared as the binary64
//! values they round to (see `binary64`).
//!
//! A finite number is normalized to `(negative, digits, exponent)` meaning
//! `±0.d1 d2 … dk × 10^exponent`, with no leading or trailing zero digit;
//! zero has no digits. A written exponent beyond `10^15` is read as `10^15`.

use vstd::prelude::*;

use crate::text::{ascii_lower_char, chars_of, trim, trim_chars};

verus! {

/// A parsed number.
pub enum NumV {
    NaN,
    /// An infinity; `true` when negative.
    Inf(bool),
    /// A finite value `±0.digits × 10^exp` (normalized; zero has no digits).
    Fin(bool, Seq<char>, int),
}

/// The exponent clamp.
pub open spec fn exp_cap() -> int {
    1_000_000_000_000_000
}

/// An ASCII decimal digit.
pub open spec fn is_digit(c: char) -> bool {
    '0' <= c <= '9'
}

/// The first position at or after `i` that is not a digit.
pub open spec fn digits_end(s: Seq<char>, i: int) -> int
    decreases s.len() - i,
{
    if i < 0 || i >= s.len() || !is_digit(s[i]) {
        i
    } else {
        digits_end(s, i + 1)
    }
}

/// The value of a digit string, clamped to `exp_cap()`.
pub open spec fn sat_value(ds: Seq<char>) -> int
    decreases ds.len(),
{
    if ds.len() == 0 {
        0
    } else {
        let v = 10 * sat_value(ds.drop_last()) + (ds.last() as int - '0' as int);
        if v > exp_cap() {
            exp_cap()
        } else {
            v
        }
    }
}

/// Drop leading zero digits, lowering the exponent for each.
pub open spec fn strip_lead(m: Seq<char>, e: int) -> (Seq<char>, int)
    decreases m.len(),
{
    if m.len() > 0 && m[0] == '0' {
        strip_lead(m.drop_first(), e - 1)
    } else {
        (m, e)
    }
}

/// Drop trailing zero digits.
pub open spec fn strip_trail(m: Seq<char>) -> Seq<char>
    decreases m.len(),
{
    if m.len() > 0 && m.last() == '0' {
        strip_trail(m.drop_last())
    } else {
        m
    }
}

/// The normalized value `±0.m × 10^e`.
pub open spec fn norm(neg: bool, m: Seq<char>, e: int) -> NumV {
    let (m1, e1) = strip_lead(m, e);
    let m2 = strip_trail(m1);
    if m2.len() == 0 {
        NumV::Fin(false, Seq::empty(), 0)
    } else {
        NumV::Fin(neg, m2, e1)
    }
}

/// The exponent written from position `b` of `body` on: nothing at all, or
/// `e`/`E`, an optional sign and at least one digit up to the end.
pub open spec fn exp_part(body: Seq<char>, b: int) -> Option<int> {
    if b == body.len() {
        Some(0)
    } else if body[b] == 'e' || body[b] == 'E' {
        let esigned = b + 1 < body.len() && (body[b + 1] == '-' || body[b + 1] == '+');
        let eneg = b + 1 < body.len() && body[b + 1] == '-';
        let es = if esigned {
            b + 2
        } else {
            b + 1
        };
        let ee = digits_end(body, es);
        if ee == es || ee != body.len() {
            None
        } else {
            let x = sat_value(body.subrange(es, ee));
            Some(if eneg {
                -x
            } else {
                x
            })
        }
    } else {
        None
    }
}

/// A finite number: digits, an optional `.` and fraction digits (at least one
/// digit in all), then an optional exponent.
pub open spec fn parse_finite(body: Seq<char>, neg: bool) -> Option<NumV> {
    let a = digits_end(body, 0);
    let dot = a < body.len() && body[a] == '.';
    let fs = if dot {
        a + 1
    } else {
        a
    };
    let b = if dot {
        digits_end(body, a + 1)
    } else {
        a
    };
    let ip = body.subrange(0, a);
    let fp = body.subrange(fs, b);
    if ip.len() + fp.len() == 0 {
        None
    } else {
        match exp_part(body, b) {
            Some(x) => Some(norm(neg, ip + fp, ip.len() + x)),
            None => None,
        }
    }
}

/// The number written by `s` (already trimmed), if it is one.
pub open spec fn parse_num(s: Seq<char>) -> Option<NumV> {
    let signed = s.len() > 0 && (s[0] == '-' || s[0] == '+');
    let neg = s.len() > 0 && s[0] == '-';
    let body = if signed {
        s.drop_first()
    } else {
        s
    };
    let low = body.map_values(|c: char| ascii_lower_char(c));
    if low == "inf"@ || low == "infinity"@ {
        Some(NumV::Inf(neg))
    } else if low == "nan"@ {
        Some(NumV::NaN)
    } else {
        parse_finite(body, neg)
    }
}

/// Numeric order as binary64 values: both sides rounded to the nearest
/// binary64 value, ties to even (`false` whenever a NaN is involved).
pub open spec fn num_lt(a: NumV, b: NumV) -> bool {
    crate::binary64::b64_lt(crate::binary64::to_b64(a), crate::binary64::to_b64(b))
}

/// A number (not NaN).
pub open spec fn is_num(a: NumV) -> bool {
    !(a is NaN)
}

/// The numeric comparisons of the DSL.
#[derive(Debug, Clone, Copy, PartialEq, Eq, Structural)]
pub enum NumOp {
    Gt,
    Lt,
    Ge,
    Le,
}

/// `a op b` on parsed numbers.
pub open spec fn num_holds(op: NumOp, a: NumV, b: NumV) -> bool {
    match op {
        NumOp::Gt => num_lt(b, a),
        NumOp::Lt => num_lt(a, b),
        NumOp::Ge => is_num(a) && is_num(b) && !num_lt(a, b),
        NumOp::Le => is_num(a) && is_num(b) && !num_lt(b, a),
    }
}

/// `lhs op rhs` where both sides are read as numbers after trimming;
/// `false` when either side is missing or not a number.
pub open spec fn num_text_holds(op: NumOp, lhs: Option<Seq<char>>, rhs: Seq<char>) -> bool {
    match lhs {
        Some(l) => match (parse_num(trim(l)), parse_num(trim(rhs))) {
            (Some(a), Some(b)) => num_holds(op, a, b),
            _ => false,
        },
        None => false,
    }
}

// ---------------------------------------------------------------------------
// Executable parsing and comparison
// ---------------------------------------------------------------------------

/// A parsed number (executable form).
pub enum Num {
    NaN,
    Inf(bool),
    Fin(bool, Vec<char>, i128),
}

/// The model of a parsed number.
pub open spec fn num_v(n: Num) -> NumV {
    match n {
        Num::NaN => NumV::NaN,
        Num::Inf(b) => NumV::Inf(b),
        Num::Fin(b, d, e) => NumV::Fin(b, d@, e as int),
    }
}

fn digits_end_exec(s: &Vec<char>, i: usize) -> (r: usize)
    requires
        i <= s@.len(),
    ensures
        r as int == digits_end(s@, i as int),
        i <= r <= s@.len(),
{
    let mut j = i;
    while j < s.len() && '0' <= s[j] && s[j] <= '9'
        invariant
            i <= j <= s@.len(),
            digits_end(s@, i as int) == digits_end(s@, j as int),
        decreases s@.len() - j,
    {
        j = j + 1;
    }
    j
}

fn eq_lit(a: &Vec<char>, lit: &str) -> (r: bool)
    ensures
        r == (a@ == lit@),
{
    let b = chars_of(lit);
    crate::text::chars_eq(a, &b)
}

fn sat_value_exec(s: &Vec<char>, lo: usize, hi: usize) -> (r: i128)
    requires
        lo <= hi <= s@.len(),
        forall|k: int| lo <= k < hi ==> is_digit(s@[k]),
    ensures
        r == sat_value(s@.subrange(lo as int, hi as int)),
        0 <= r <= exp_cap(),
{
    let mut v: i128 = 0;
    let mut k = lo;
    while k < hi
        invariant
            lo <= k <= hi,
            hi <= s@.len(),
            forall|x: int| lo <= x < hi ==> is_digit(s@[x]),
            v == sat_value(s@.subrange(lo as int, k as int)),
            0 <= v <= exp_cap(),
        decreases hi - k,
    {
        let d = (s[k] as u32 - '0' as u32) as i128;
        proof {
            assert(s@.subrange(lo as int, k + 1).drop_last() =~= s@.subrange(lo as int, k as int));
        }
        let w = 10 * v + d;
        v = if w > 1_000_000_000_000_000 {
            1_000_000_000_000_000
        } else {
            w
        };
        k = k + 1;
    }
    v
}

fn normalize(neg: bool, m: Vec<char>, e: i128) -> (r: Num)
    requires
        -(usize::MAX as int) - exp_cap() <= e <= usize::MAX as int + exp_cap(),
        forall|i: int| 0 <= i < m@.len() ==> #[trigger] is_digit(m@[i]),
    ensures
        num_v(r) == norm(neg, m@, e as int),
        crate::binary64::num_fits(r),
{
    let mut lo: usize = 0;
    let mut e1: i128 = e;
    proof {
        assert(m@.subrange(0, m@.len() as int) =~= m@);
    }
    while lo < m.len() && m[lo] == '0'
        invariant
            lo <= m@.len(),
            e1 == e - lo,
            -(usize::MAX as int) - exp_cap() <= e <= usize::MAX as int + exp_cap(),
            strip_lead(m@, e as int) == strip_lead(m@.subrange(lo as int, m@.len() as int), e1 as int),
        decreases m@.len() - lo,
    {
        proof {
            assert(m@.subrange(lo as int, m@.len() as int).drop_first() =~= m@.subrange(lo + 1, m@.len() as int));
        }
        lo = lo + 1;
        e1 = e1 - 1;
    }
    let mut hi: usize = m.len();
    proof {
        assert(m@.subrange(lo as int, m@.len() as int).len() == 0 || m@.subrange(lo as int, m@.len() as int)[0] != '0');
    }
    while hi > lo && m[hi - 1] == '0'
        invariant
            lo <= hi <= m@.len(),
            strip_trail(m@.subrange(lo as int, m@.len() as int)) == strip_trail(m@.subrange(lo as int, hi as int)),
        decreases hi,
    {
        proof {
            assert(m@.subrange(lo as int, hi as int).drop_last() =~= m@.subrange(lo as int, hi - 1));
        }
        hi = hi - 1;
    }
    if hi == lo {
        Num::Fin(false, Vec::new(), 0)
    } else {
        let d = crate::text::slice_of(&m, lo, hi);
        proof {
            assert forall|i: int| 0 <= i < d@.len() implies #[trigger] is_digit(d@[i]) by {
                assert(d@[i] == m@[lo + i]);
            }
        }
        Num::Fin(neg, d, e1)
    }
}

fn exp_part_exec(body: &Vec<char>, b: usize) -> (r: Option<i128>)
    requires
        b <= body@.len(),
    ensures
        match r {
            Some(x) => exp_part(body@, b as int) == Some(x as int) && -exp_cap() <= x <= exp_cap(),
            None => exp_part(body@, b as int) is None,
        },
{
    if b == body.len() {
        return Some(0);
    }
    if body[b] == 'e' || body[b] == 'E' {
        let esigned = b + 1 < body.len() && (body[b + 1] == '-' || body[b + 1] == '+');
        let eneg = b + 1 < body.len() && body[b + 1] == '-';
        let es = if esigned {
            b + 2
        } else {
            b + 1
        };
        let ee = digits_end_exec(body, es);
        if ee == es || ee != body.len() {
            return None;
        }
        proof {
            assert forall|x: int| es <= x < ee implies is_digit(body@[x]) by {
                lemma_digits_end(body@, es as int, x);
            }
        }
        let x = sat_value_exec(body, es, ee);
        return Some(if eneg {
            -x
        } else {
            x
        });
    }
    None
}

fn concat_chars(a: &Vec<char>, b: &Vec<char>) -> (r: Vec<char>)
    ensures
        r@ == a@ + b@,
{
    let mut m = a.clone();
    proof {
        assert(m@ =~= a@);
    }
    let mut k: usize = 0;
    while k < b.len()
        invariant
            k <= b@.len(),
            m@ == a@ + b@.take(k as int),
        decreases b@.len() - k,
    {
        m.push(b[k]);
        k = k + 1;
        proof {
            assert(m@ =~= a@ + b@.take(k as int));
        }
    }
    proof {
        assert(b@.take(k as int) =~= b@);
    }
    m
}

fn parse_finite_exec(body: &Vec<char>, neg: bool) -> (r: Option<Num>)
    ensures
        match r {
            Some(n) => parse_finite(body@, neg) == Some(num_v(n)) && crate::binary64::num_fits(n),
            None => parse_finite(body@, neg) is None,
        },
{
    let a = digits_end_exec(body, 0);
    let dot = a < body.len() && body[a] == '.';
    let fs = if dot {
        a + 1
    } else {
        a
    };
    let b = if dot {
        digits_end_exec(body, a + 1)
    } else {
        a
    };
    let ip = crate::text::slice_of(body, 0, a);
    let fp = crate::text::slice_of(body, fs, b);
    if ip.len() == 0 && fp.len() == 0 {
        return None;
    }
    let m = concat_chars(&ip, &fp);
    proof {
        assert forall|i: int| 0 <= i < m@.len() implies #[trigger] is_digit(m@[i]) by {
            if i < ip@.len() {
                assert(m@[i] == body@[i]);
                lemma_digits_end(body@, 0, i);
            } else {
                assert(m@[i] == body@[fs + i - ip@.len()]);
                lemma_digits_end(body@, (a + 1) as int, fs + i - ip@.len());
            }
        }
    }
    match exp_part_exec(body, b) {
        Some(x) => {
            let e = ip.len() as i128 + x;
            Some(normalize(neg, m, e))
        },
        None => None,
    }
}

/// Parse a (trimmed) number.
fn parse_num_exec(s: &Vec<char>) -> (r: Option<Num>)
    ensures
        match r {
            Some(n) => parse_num(s@) == Some(num_v(n)) && crate::binary64::num_fits(n),
            None => parse_num(s@) is None,
        },
{
    let signed = s.len() > 0 && (s[0] == '-' || s[0] == '+');
    let neg = s.len() > 0 && s[0] == '-';
    let body = if signed {
        crate::text::slice_of(s, 1, s.len())
    } else {
        crate::text::slice_of(s, 0, s.len())
    };
    proof {
        if signed {
            assert(body@ =~= s@.drop_first());
        } else {
            assert(body@ =~= s@);
        }
    }
    let low = crate::text::ascii_lower(&body);
    if eq_lit(&low, "inf") || eq_lit(&low, "infinity") {
        return Some(Num::Inf(neg));
    }
    if eq_lit(&low, "nan") {
        return Some(Num::NaN);
    }
    parse_finite_exec(&body, neg)
}

proof fn lemma_digits_end(s: Seq<char>, i: int, x: int)
    requires
        0 <= i <= x < digits_end(s, i),
    ensures
        is_digit(s[x]),
    decreases x - i,
{
    if x > i {
        lemma_digits_end(s, i + 1, x);
    }
}

fn num_lt_exec(a: &Num, b: &Num) -> (r: bool)
    requires
        crate::binary64::num_fits(*a),
        crate::binary64::num_fits(*b),
    ensures
        r == num_lt(num_v(*a), num_v(*b)),
{
    let x = crate::binary64::to_b64_exec(a);
    let y = crate::binary64::to_b64_exec(b);
    crate::binary64::b64_less(&x, &y)
}

/// `lhs op rhs` with both sides read as numbers (after trimming); `false`
/// when either side is missing or not a number.
pub fn num_text_cmp(op: NumOp, lhs: Option<&str>, rhs: &str) -> (r: bool)
    ensures
        r == num_text_holds(op, match lhs {
            Some(l) => Some(l@),
            None => None,
        }, rhs@),
{
    let l = match lhs {
        Some(l) => l,
        None => {
            return false;
        },
    };
    let lc = chars_of(l);
    let lt = trim_chars(&lc);
    let rc = chars_of(rhs);
    let rt = trim_chars(&rc);
    let a = match parse_num_exec(&lt) {
        Some(x) => x,
        None => {
            return false;
        },
    };
    let b = match parse_num_exec(&rt) {
        Some(x) => x,
        None => {
            return false;
        },
    };
    let a_num = match a {
        Num::NaN => false,
        _ => true,
    };
    let b_num = match b {
        Num::NaN => false,
        _ => true,
    };
    match op {
        NumOp::Gt => num_lt_exec(&b, &a),
        NumOp::Lt => num_lt_exec(&a, &b),
        NumOp::Ge => a_num && b_num && !num_lt_exec(&a, &b),
        NumOp::Le => a_num && b_num && !num_lt_exec(&b, &a),
    }
}

} // verus!
