//! IEEE-754 binary64 rounding of decimal numbers, in integer arithmetic.
//!
//! A positive decimal `x` becomes the binary64 value nearest to it, ties to
//! an even significand: `x` is scaled by a power of two `2^-q` into
//! `[2^52, 2^53)` (or to `q = -1074`, the subnormal range), its integer part
//! is the significand, and the fraction rounds it half to even; a carry to
//! `2^53` moves to the next exponent, and an exponent past `971` is an
//! overflow to infinity. This is how text read as a binary64 number compares.

use vstd::prelude::*;

use crate::decimal::{Num, NumV, num_v, is_digit};

verus! {

// ---------------------------------------------------------------------------
// Powers
// ---------------------------------------------------------------------------

/// `10^n`.
pub open spec fn ten(n: nat) -> int
    decreases n,
{
    if n == 0 {
        1
    } else {
        10 * ten((n - 1) as nat)
    }
}

/// `2^n`.
pub open spec fn two(n: nat) -> int
    decreases n,
{
    if n == 0 {
        1
    } else {
        2 * two((n - 1) as nat)
    }
}

pub proof fn lemma_ten_pos(n: nat)
    ensures
        ten(n) >= 1,
    decreases n,
{
    if n > 0 {
        lemma_ten_pos((n - 1) as nat);
    }
}

pub proof fn lemma_two_pos(n: nat)
    ensures
        two(n) >= 1,
    decreases n,
{
    if n > 0 {
        lemma_two_pos((n - 1) as nat);
    }
}

pub proof fn lemma_ten_adds(a: nat, b: nat)
    ensures
        ten(a + b) == ten(a) * ten(b),
    decreases a,
{
    if a > 0 {
        lemma_ten_adds((a - 1) as nat, b);
        assert(ten(a + b) == 10 * ten((a - 1 + b) as nat));
        assert(10 * (ten((a - 1) as nat) * ten(b)) == (10 * ten((a - 1) as nat)) * ten(b)) by (nonlinear_arith);
    }
}

pub proof fn lemma_two_adds(a: nat, b: nat)
    ensures
        two(a + b) == two(a) * two(b),
    decreases a,
{
    if a > 0 {
        lemma_two_adds((a - 1) as nat, b);
        assert(two(a + b) == 2 * two((a - 1 + b) as nat));
        assert(2 * (two((a - 1) as nat) * two(b)) == (2 * two((a - 1) as nat)) * two(b)) by (nonlinear_arith);
    }
}

pub proof fn lemma_ten_mono(a: nat, b: nat)
    requires
        a <= b,
    ensures
        ten(a) <= ten(b),
    decreases b - a,
{
    if a < b {
        lemma_ten_mono(a, (b - 1) as nat);
        lemma_ten_pos((b - 1) as nat);
    }
}

pub proof fn lemma_two_mono(a: nat, b: nat)
    requires
        a <= b,
    ensures
        two(a) <= two(b),
    decreases b - a,
{
    if a < b {
        lemma_two_mono(a, (b - 1) as nat);
        lemma_two_pos((b - 1) as nat);
    }
}

// ---------------------------------------------------------------------------
// Natural numbers as little-endian decimal digits
// ---------------------------------------------------------------------------

/// Every entry is a decimal digit.
pub open spec fn digits_ok(s: Seq<u8>) -> bool {
    forall|i: int| 0 <= i < s.len() ==> #[trigger] s[i] < 10
}

/// The value of little-endian decimal digits.
pub open spec fn dv(s: Seq<u8>) -> int
    decreases s.len(),
{
    if s.len() == 0 {
        0
    } else {
        dv(s.drop_last()) + s.last() * ten((s.len() - 1) as nat)
    }
}

/// The digit at `i`, zero past the end.
pub open spec fn dig(s: Seq<u8>, i: int) -> int {
    if 0 <= i < s.len() {
        s[i] as int
    } else {
        0
    }
}

proof fn lemma_dv_take_step(s: Seq<u8>, i: int)
    requires
        0 <= i < s.len(),
    ensures
        dv(s.take(i + 1)) == dv(s.take(i)) + s[i] * ten(i as nat),
{
    assert(s.take(i + 1).drop_last() =~= s.take(i));
}

proof fn lemma_dv_bound(s: Seq<u8>)
    requires
        digits_ok(s),
    ensures
        0 <= dv(s) < ten(s.len()),
    decreases s.len(),
{
    if s.len() > 0 {
        let p = s.drop_last();
        lemma_dv_bound(p);
        let l = (s.len() - 1) as nat;
        assert(s[s.len() - 1] < 10);
        lemma_ten_pos(l);
        let a = dv(p);
        let z = s.last() as int;
        let pl = ten(l);
        assert(dv(s) == a + z * pl);
        assert(0 <= a + z * pl <= pl - 1 + 9 * pl) by (nonlinear_arith)
            requires
                0 <= a < pl,
                0 <= z <= 9,
                pl >= 1,
        ;
        assert(ten(s.len()) == 10 * pl);
    }
}

/// `dv(s) = dv(s[..i]) + 10^i * dv(s[i..])`.
proof fn lemma_dv_split(s: Seq<u8>, i: int)
    requires
        0 <= i <= s.len(),
    ensures
        dv(s) == dv(s.take(i)) + ten(i as nat) * dv(s.skip(i)),
    decreases s.len() - i,
{
    if i == s.len() {
        assert(s.take(i) =~= s);
        assert(s.skip(i) =~= Seq::<u8>::empty());
    } else {
        lemma_dv_split(s, i + 1);
        lemma_dv_take_step(s, i);
        // dv(s.skip(i)) == s[i] + 10 * dv(s.skip(i + 1))
        lemma_dv_front(s.skip(i));
        assert(s.skip(i).drop_first() =~= s.skip(i + 1));
        assert(ten((i + 1) as nat) == 10 * ten(i as nat));
        assert(dv(s.take(i)) + s[i] * ten(i as nat) + ten((i + 1) as nat) * dv(s.skip(i + 1)) == dv(s.take(i))
            + ten(i as nat) * (s[i] + 10 * dv(s.skip(i + 1)))) by (nonlinear_arith)
            requires
                ten((i + 1) as nat) == 10 * ten(i as nat),
        ;
    }
}

/// `dv(s) = s[0] + 10 * dv(s[1..])`.
proof fn lemma_dv_front(s: Seq<u8>)
    requires
        s.len() > 0,
    ensures
        dv(s) == s[0] + 10 * dv(s.drop_first()),
    decreases s.len(),
{
    if s.len() == 1 {
        assert(s.drop_first() =~= Seq::<u8>::empty());
        assert(s.drop_last() =~= Seq::<u8>::empty());
    } else {
        let p = s.drop_last();
        lemma_dv_front(p);
        assert(p.drop_first() =~= s.drop_first().drop_last());
        assert(s.drop_first().last() == s.last());
        let l = (s.len() - 1) as nat;
        assert(ten(l) == 10 * ten((l - 1) as nat));
        assert(dv(s.drop_first()) == dv(s.drop_first().drop_last()) + s.last() * ten((l - 1) as nat));
        assert(s[0] + 10 * dv(p.drop_first()) + s.last() * ten(l) == s[0] + 10 * (dv(p.drop_first()) + s.last() * ten(
            (l - 1) as nat,
        ))) by (nonlinear_arith)
            requires
                ten(l) == 10 * ten((l - 1) as nat),
        ;
    }
}

/// Multiply little-endian digits by `m` and add `a`.
fn muladd(s: &Vec<u8>, m: u8, a: u8) -> (r: Vec<u8>)
    requires
        digits_ok(s@),
        m <= 10,
        a < 10,
    ensures
        digits_ok(r@),
        dv(r@) == m * dv(s@) + a,
{
    let mut r: Vec<u8> = Vec::new();
    let mut c: u8 = a;
    proof {
        assert(s@.take(0) =~= Seq::<u8>::empty());
    }
    let mut i: usize = 0;
    while i < s.len()
        invariant
            i <= s@.len(),
            digits_ok(s@),
            digits_ok(r@),
            r@.len() == i,
            m <= 10,
            c < 10,
            dv(r@) + c * ten(i as nat) == m * dv(s@.take(i as int)) + a,
        decreases s@.len() - i,
    {
        let x: u8 = s[i];
        proof {
            assert(s@[i as int] < 10);
            assert(m * x <= 90) by (nonlinear_arith)
                requires
                    m <= 10,
                    x < 10,
            ;
        }
        let v: u8 = m * x + c;
        let d: u8 = v % 10;
        let ghost old_r = r@;
        let ghost old_c = c;
        r.push(d);
        c = v / 10;
        proof {
            lemma_dv_take_step(s@, i as int);
            assert(r@.drop_last() =~= old_r);
            assert(dv(r@) == dv(old_r) + d * ten(i as nat));
            assert(ten((i + 1) as nat) == 10 * ten(i as nat));
            assert(dv(r@) + c * ten((i + 1) as nat) == m * dv(s@.take(i + 1)) + a) by (nonlinear_arith)
                requires
                    dv(r@) == dv(old_r) + d * ten(i as nat),
                    ten((i + 1) as nat) == 10 * ten(i as nat),
                    dv(old_r) + old_c * ten(i as nat) == m * dv(s@.take(i as int)) + a,
                    dv(s@.take(i + 1)) == dv(s@.take(i as int)) + x * ten(i as nat),
                    d + 10 * c == m * x + old_c,
            ;
        }
        i = i + 1;
    }
    if c > 0 {
        let ghost old_r = r@;
        r.push(c);
        proof {
            assert(r@.drop_last() =~= old_r);
            assert(r@.len() == s@.len() + 1);
        }
    }
    proof {
        assert(s@.take(s@.len() as int) =~= s@);
    }
    r
}

/// Compare two digit vectors by value: `-1`, `0` or `1`.
fn order_digits(a: &Vec<u8>, b: &Vec<u8>) -> (r: i8)
    requires
        digits_ok(a@),
        digits_ok(b@),
    ensures
        r == -1 <==> dv(a@) < dv(b@),
        r == 0 <==> dv(a@) == dv(b@),
        r == 1 <==> dv(a@) > dv(b@),
{
    let n = if a.len() > b.len() {
        a.len()
    } else {
        b.len()
    };
    let mut i = n;
    proof {
        lemma_dv_pad(a@, n as int);
        lemma_dv_pad(b@, n as int);
        assert(pad(a@, n as int).skip(n as int) =~= pad(b@, n as int).skip(n as int));
    }
    while i > 0
        invariant
            i <= n,
            n >= a@.len(),
            n >= b@.len(),
            digits_ok(a@),
            digits_ok(b@),
            forall|j: int| i <= j < n ==> dig(a@, j) == dig(b@, j),
            dv(a@) == dv(pad(a@, n as int)),
            dv(b@) == dv(pad(b@, n as int)),
            pad(a@, n as int).skip(i as int) == pad(b@, n as int).skip(i as int),
        decreases i,
    {
        let x: u8 = if i - 1 < a.len() {
            a[i - 1]
        } else {
            0
        };
        let y: u8 = if i - 1 < b.len() {
            b[i - 1]
        } else {
            0
        };
        if x != y {
            proof {
                let pa = pad(a@, n as int);
                let pb = pad(b@, n as int);
                let k = i - 1;
                lemma_pad_ok(a@, n as int);
                lemma_pad_ok(b@, n as int);
                lemma_dv_split(pa, k as int);
                lemma_dv_split(pb, k as int);
                lemma_dv_bound(pa.take(k as int));
                lemma_dv_bound(pb.take(k as int));
                lemma_dv_front(pa.skip(k as int));
                lemma_dv_front(pb.skip(k as int));
                assert(pa.skip(k as int).drop_first() =~= pa.skip(i as int));
                assert(pb.skip(k as int).drop_first() =~= pb.skip(i as int));
                assert(pa.skip(k as int)[0] == x);
                assert(pb.skip(k as int)[0] == y);
                let h = dv(pa.skip(i as int));
                let ta = dv(pa.take(k as int));
                let tb = dv(pb.take(k as int));
                let p = ten(k as nat);
                if x < y {
                    assert(ta + p * (x + 10 * h) < tb + p * (y + 10 * h)) by (nonlinear_arith)
                        requires
                            0 <= ta < p,
                            0 <= tb,
                            x < y,
                    ;
                } else {
                    assert(tb + p * (y + 10 * h) < ta + p * (x + 10 * h)) by (nonlinear_arith)
                        requires
                            0 <= tb < p,
                            0 <= ta,
                            y < x,
                    ;
                }
            }
            return if x < y {
                -1
            } else {
                1
            };
        }
        proof {
            let pa = pad(a@, n as int);
            let pb = pad(b@, n as int);
            assert(pa.skip(i - 1) =~= seq![x].add(pa.skip(i as int)));
            assert(pb.skip(i - 1) =~= seq![y].add(pb.skip(i as int)));
        }
        i = i - 1;
    }
    proof {
        assert(pad(a@, n as int).skip(0) =~= pad(a@, n as int));
        assert(pad(b@, n as int).skip(0) =~= pad(b@, n as int));
    }
    0
}

/// `s` extended with zero digits to length `n`.
pub open spec fn pad(s: Seq<u8>, n: int) -> Seq<u8> {
    Seq::new(n as nat, |j: int| dig(s, j) as u8)
}

proof fn lemma_pad_ok(s: Seq<u8>, n: int)
    requires
        digits_ok(s),
        n >= 0,
    ensures
        digits_ok(pad(s, n)),
{
}

proof fn lemma_dv_pad(s: Seq<u8>, n: int)
    requires
        n >= s.len(),
    ensures
        dv(pad(s, n)) == dv(s),
    decreases n,
{
    if n == s.len() {
        assert(pad(s, n) =~= s);
    } else {
        lemma_dv_pad(s, n - 1);
        assert(pad(s, n).drop_last() =~= pad(s, n - 1));
        assert(pad(s, n).last() == 0);
    }
}

// ---------------------------------------------------------------------------
// Rounding a positive rational X/Q to binary64
// ---------------------------------------------------------------------------

/// The numerator of `(X/Q) / 2^q`.
pub open spec fn up_num(x: int, q: int) -> int {
    if q < 0 {
        x * two((-q) as nat)
    } else {
        x
    }
}

/// The denominator of `(X/Q) / 2^q`.
pub open spec fn up_den(d: int, q: int) -> int {
    if q > 0 {
        d * two(q as nat)
    } else {
        d
    }
}

/// `(X/Q) / 2^q >= 2^53`.
pub open spec fn too_big(x: int, d: int, q: int) -> bool {
    up_num(x, q) >= two(53) * up_den(d, q)
}

/// `(X/Q) / 2^q < 2^52`.
pub open spec fn too_small(x: int, d: int, q: int) -> bool {
    up_num(x, q) < two(52) * up_den(d, q)
}

/// Halving from `q` on while the scaled value is at least `2^53`; `None`
/// once past the largest exponent.
pub open spec fn settle_up(x: int, d: int, q: int) -> Option<int>
    decreases 972 - q,
{
    if !too_big(x, d, q) {
        Some(q)
    } else if q >= 972 {
        None
    } else {
        settle_up(x, d, q + 1)
    }
}

/// Doubling from `q` on while the scaled value is below `2^52`, down to the
/// subnormal exponent `-1074`.
pub open spec fn settle_down(x: int, d: int, q: int) -> int
    decreases q + 1074,
{
    if !too_small(x, d, q) || q <= -1074 {
        q
    } else {
        settle_down(x, d, q - 1)
    }
}

/// The binary exponent of `X/Q`: the `q` that scales it into `[2^52, 2^53)`,
/// at least `-1074`; `None` beyond the largest.
pub open spec fn exponent(x: int, d: int) -> Option<int> {
    if too_big(x, d, 0) {
        settle_up(x, d, 0)
    } else {
        Some(settle_down(x, d, 0))
    }
}

/// A non-negative binary64 magnitude: zero, `m * 2^q`, or infinity.
pub enum MagV {
    Zero,
    Fin(int, int),
    Inf,
}

/// `m` rounded up or not: the fraction `r/d` above one half, or exactly one
/// half with `m` odd.
pub open spec fn rounds_up(m: int, r: int, d: int) -> bool {
    2 * r > d || (2 * r == d && m % 2 == 1)
}

/// The binary64 value nearest to `X/Q` (for `X >= 0`, `Q >= 1`), ties to an
/// even significand.
pub open spec fn round_pos(x: int, d: int) -> MagV {
    match exponent(x, d) {
        None => MagV::Inf,
        Some(q) => {
            let n = up_num(x, q);
            let dd = up_den(d, q);
            let m = n / dd;
            let m1 = if rounds_up(m, n % dd, dd) {
                m + 1
            } else {
                m
            };
            let m2 = if m1 == two(53) {
                two(52)
            } else {
                m1
            };
            let q2 = if m1 == two(53) {
                q + 1
            } else {
                q
            };
            if q2 > 971 {
                MagV::Inf
            } else if m2 == 0 {
                MagV::Zero
            } else {
                MagV::Fin(m2, q2)
            }
        },
    }
}

proof fn lemma_two_consts()
    ensures
        two(52) == 4503599627370496,
        two(53) == 9007199254740992,
{
    reveal_with_fuel(two, 54);
}

/// `too_big`/`too_small` read off a scaled copy `y` with `y * den == num * F`.
proof fn lemma_scaled(y: int, n: int, dd: int, f: int, k: int)
    requires
        y * dd == n * f,
        dd > 0,
        f > 0,
    ensures
        (n >= k * dd) <==> (y >= k * f),
        (n < k * dd) <==> (y < k * f),
{
    assert((n >= k * dd) <==> (n * f >= k * dd * f)) by (nonlinear_arith)
        requires
            f > 0,
    ;
    assert((y >= k * f) <==> (y * dd >= k * f * dd)) by (nonlinear_arith)
        requires
            dd > 0,
    ;
    assert(k * dd * f == k * f * dd) by (nonlinear_arith);
}

/// The floor and the half comparison of `n/dd` read off `y = hi * F + lo`
/// with `y * dd == n * F`.
proof fn lemma_floor(y: int, n: int, dd: int, f: int, hi: int, lo: int)
    requires
        y * dd == n * f,
        dd > 0,
        f > 0,
        y == hi * f + lo,
        0 <= lo < f,
    ensures
        n / dd == hi,
        (2 * (n % dd) > dd) <==> (2 * lo > f),
        (2 * (n % dd) == dd) <==> (2 * lo == f),
{
    let r = n - hi * dd;
    assert(f * r == lo * dd) by (nonlinear_arith)
        requires
            y * dd == n * f,
            y == hi * f + lo,
            r == n - hi * dd,
    ;
    assert(0 <= r < dd) by (nonlinear_arith)
        requires
            f * r == lo * dd,
            0 <= lo < f,
            dd > 0,
            f > 0,
    ;
    assert(n == hi * dd + r);
    vstd::arithmetic::div_mod::lemma_fundamental_div_mod_converse(n, dd, hi, r);
    assert((2 * r > dd) <==> (2 * lo > f)) by (nonlinear_arith)
        requires
            f * r == lo * dd,
            dd > 0,
            f > 0,
    ;
    assert((2 * r == dd) <==> (2 * lo == f)) by (nonlinear_arith)
        requires
            f * r == lo * dd,
            dd > 0,
            f > 0,
    ;
}

// ---------------------------------------------------------------------------
// The short cuts: far above the largest, far below the smallest
// ---------------------------------------------------------------------------

proof fn lemma_ten_two_block()
    ensures
        ten(10) >= two(33),
{
    reveal_with_fuel(ten, 11);
    reveal_with_fuel(two, 34);
}

/// `10^(10n) >= 2^(33n)`.
proof fn lemma_ten_two(n: nat)
    ensures
        ten(10 * n) >= two(33 * n),
    decreases n,
{
    if n > 0 {
        lemma_ten_two((n - 1) as nat);
        lemma_ten_two_block();
        lemma_ten_adds(10, (10 * (n - 1)) as nat);
        lemma_two_adds(33, (33 * (n - 1)) as nat);
        assert((10 + 10 * (n - 1)) as nat == 10 * n);
        assert((33 + 33 * (n - 1)) as nat == 33 * n);
        lemma_two_pos((33 * (n - 1)) as nat);
        lemma_two_pos(33);
        assert(ten(10) * ten((10 * (n - 1)) as nat) >= two(33) * two((33 * (n - 1)) as nat)) by (nonlinear_arith)
            requires
                ten(10) >= two(33),
                ten((10 * (n - 1)) as nat) >= two((33 * (n - 1)) as nat),
                two(33) >= 1,
                two((33 * (n - 1)) as nat) >= 1,
        ;
    }
}

/// Far above the largest binary64 value: infinity.
proof fn lemma_up_none(x: int, d: int, q: int)
    requires
        0 <= q <= 972,
        d >= 1,
        x >= two(1025) * d,
    ensures
        settle_up(x, d, q) is None,
    decreases 972 - q,
{
    lemma_two_adds(53, q as nat);
    lemma_two_mono((53 + q) as nat, 1025);
    assert(up_den(d, q) == d * two(q as nat));
    assert(two(53) * (d * two(q as nat)) == d * (two(53) * two(q as nat))) by (nonlinear_arith);
    assert(d * two((53 + q) as nat) <= d * two(1025)) by (nonlinear_arith)
        requires
            d >= 1,
            two((53 + q) as nat) <= two(1025),
    ;
    assert(two(1025) * d == d * two(1025)) by (nonlinear_arith);
    assert(two(53) * up_den(d, q) == d * two((53 + q) as nat));
    assert(up_num(x, q) == x);
    assert(too_big(x, d, q));
    if q < 972 {
        lemma_up_none(x, d, q + 1);
    }
}

/// Far below the smallest binary64 value: the exponent bottoms out.
proof fn lemma_down_floor(x: int, d: int, q: int)
    requires
        -1074 <= q <= 0,
        x >= 0,
        d >= 1,
        x * two(1076) < d,
    ensures
        settle_down(x, d, q) == -1074,
    decreases q + 1074,
{
    if q > -1074 {
        lemma_two_mono((-q) as nat, 1076);
        lemma_two_pos(52);
        assert(x * two((-q) as nat) <= x * two(1076)) by (nonlinear_arith)
            requires
                x >= 0,
                two((-q) as nat) <= two(1076),
        ;
        assert(d <= two(52) * d) by (nonlinear_arith)
            requires
                two(52) >= 1,
                d >= 1,
        ;
        if q == 0 {
            lemma_two_pos(1076);
            assert(x <= x * two(1076)) by (nonlinear_arith)
                requires
                    x >= 0,
                    two(1076) >= 1,
            ;
        }
        assert(too_small(x, d, q));
        lemma_down_floor(x, d, q - 1);
    }
}

/// Far below the smallest binary64 value: zero.
proof fn lemma_round_zero(x: int, d: int)
    requires
        x >= 0,
        d >= 1,
        x * two(1076) < d,
    ensures
        round_pos(x, d) == MagV::Zero,
{
    lemma_two_consts();
    lemma_two_pos(1076);
    assert(x <= x * two(1076)) by (nonlinear_arith)
        requires
            x >= 0,
            two(1076) >= 1,
    ;
    assert(!too_big(x, d, 0));
    lemma_down_floor(x, d, 0);
    let n = up_num(x, -1074);
    lemma_two_adds(1074, 2);
    reveal_with_fuel(two, 3);
    assert(two(1076) == two(1074) * 4);
    assert(n == x * two(1074));
    assert(4 * n < d) by (nonlinear_arith)
        requires
            n == x * two(1074),
            x * (two(1074) * 4) < d,
    ;
    lemma_two_pos(1074);
    assert(n >= 0) by (nonlinear_arith)
        requires
            x >= 0,
            two(1074) >= 1,
            n == x * two(1074),
    ;
    vstd::arithmetic::div_mod::lemma_fundamental_div_mod_converse(n, d, 0, n);
}

// ---------------------------------------------------------------------------
// Rounding digit strings
// ---------------------------------------------------------------------------

/// The value of big-endian decimal digit characters.
pub open spec fn cval(ds: Seq<char>) -> int
    decreases ds.len(),
{
    if ds.len() == 0 {
        0
    } else {
        cval(ds.drop_last()) * 10 + (ds.last() as int - '0' as int)
    }
}

/// The numerator of `cval(ds) * 10^t`.
pub open spec fn xv(ds: Seq<char>, t: int) -> int {
    if t >= 0 {
        cval(ds) * ten(t as nat)
    } else {
        cval(ds)
    }
}

/// The denominator of `cval(ds) * 10^t`.
pub open spec fn qv(t: int) -> int {
    if t >= 0 {
        1
    } else {
        ten((-t) as nat)
    }
}

/// A non-negative binary64 magnitude (executable form).
pub enum Mag {
    Zero,
    Fin(u64, i32),
    Inf,
}

/// The model of a magnitude.
pub open spec fn mag_v(m: Mag) -> MagV {
    match m {
        Mag::Zero => MagV::Zero,
        Mag::Fin(s, q) => MagV::Fin(s as int, q as int),
        Mag::Inf => MagV::Inf,
    }
}

/// `10^f` as digits: `f` zeros, then a one.
fn ten_digits(f: usize) -> (r: Vec<u8>)
    ensures
        digits_ok(r@),
        dv(r@) == ten(f as nat),
        r@.len() == f + 1,
{
    let mut r: Vec<u8> = Vec::new();
    let mut i: usize = 0;
    while i < f
        invariant
            i <= f,
            r@.len() == i,
            digits_ok(r@),
            dv(r@) == 0,
        decreases f - i,
    {
        let ghost old_r = r@;
        r.push(0);
        proof {
            assert(r@.drop_last() =~= old_r);
            assert(r@.last() == 0);
            assert(dv(r@) == dv(old_r) + 0 * ten(i as nat));
        }
        i = i + 1;
    }
    let ghost old_r = r@;
    r.push(1);
    proof {
        assert(r@.drop_last() =~= old_r);
        assert(r@.last() == 1);
        assert(dv(r@) == dv(old_r) + 1 * ten(f as nat));
    }
    r
}

/// `2^52 * 10^f` as digits.
fn band_digits(f: u128) -> (r: Vec<u8>)
    ensures
        digits_ok(r@),
        dv(r@) == two(52) * ten(f as nat),
{
    let mut r: Vec<u8> = Vec::new();
    r.push(1);
    proof {
        assert(r@.drop_last() =~= Seq::<u8>::empty());
        assert(ten(0) == 1);
        assert(dv(Seq::<u8>::empty()) == 0);
        assert(r@.last() == 1);
        assert(dv(r@) == 1 * ten(0));
        assert(two(0) == 1);
    }
    let mut i: usize = 0;
    while i < 52
        invariant
            i <= 52,
            digits_ok(r@),
            dv(r@) == two(i as nat),
        decreases 52 - i,
    {
        r = muladd(&r, 2, 0);
        i = i + 1;
    }
    let mut j: u128 = 0;
    while j < f
        invariant
            j <= f,
            digits_ok(r@),
            dv(r@) == two(52) * ten(j as nat),
        decreases f - j,
    {
        r = muladd(&r, 10, 0);
        proof {
            assert(10 * (two(52) * ten(j as nat)) == two(52) * (10 * ten(j as nat))) by (nonlinear_arith);
        }
        j = j + 1;
    }
    r
}

proof fn lemma_cval_bound(ds: Seq<char>)
    requires
        forall|i: int| 0 <= i < ds.len() ==> '0' <= #[trigger] ds[i] <= '9',
    ensures
        0 <= cval(ds) < ten(ds.len()),
    decreases ds.len(),
{
    if ds.len() > 0 {
        let p = ds.drop_last();
        assert forall|i: int| 0 <= i < p.len() implies '0' <= #[trigger] p[i] <= '9' by {
            assert(p[i] == ds[i]);
        }
        lemma_cval_bound(p);
        assert('0' <= ds[ds.len() - 1] <= '9');
        let z = ds.last() as int - '0' as int;
        assert(0 <= z <= 9);
        assert(ten(ds.len()) == 10 * ten(p.len()));
        assert(0 <= cval(p) * 10 + z < 10 * ten(p.len())) by (nonlinear_arith)
            requires
                0 <= cval(p) < ten(p.len()),
                0 <= z <= 9,
        ;
    }
}

/// The binary64 value nearest to `cval(ds) * 10^t` (decimal digits `ds`),
/// ties to an even significand.
#[verifier::spinoff_prover]
pub fn round_digits(ds: &Vec<char>, t: i128) -> (r: Mag)
    requires
        forall|i: int| 0 <= i < ds@.len() ==> '0' <= #[trigger] ds@[i] <= '9',
        -1_000_000_000_000_000_000_000_000i128 < t < 1_000_000_000_000_000_000_000_000i128,
    ensures
        mag_v(r) == round_pos(xv(ds@, t as int), qv(t as int)),
{
    let ghost x = xv(ds@, t as int);
    let ghost dq = qv(t as int);
    let mut y: Vec<u8> = Vec::new();
    let mut i: usize = 0;
    proof {
        assert(ds@.take(0) =~= Seq::<char>::empty());
    }
    while i < ds.len()
        invariant
            i <= ds@.len(),
            forall|k: int| 0 <= k < ds@.len() ==> '0' <= #[trigger] ds@[k] <= '9',
            digits_ok(y@),
            dv(y@) == cval(ds@.take(i as int)),
        decreases ds@.len() - i,
    {
        let c = ds[i];
        proof {
            assert('0' <= ds@[i as int] <= '9');
        }
        let dg: u8 = (c as u32 - '0' as u32) as u8;
        y = muladd(&y, 10, dg);
        proof {
            assert(ds@.take(i + 1).drop_last() =~= ds@.take(i as int));
            assert(ds@.take(i + 1).last() == c);
        }
        i = i + 1;
    }
    proof {
        assert(ds@.take(ds@.len() as int) =~= ds@);
        lemma_cval_bound(ds@);
        lemma_ten_pos((if t >= 0 { 0 } else { -t }) as nat);
        assert(dq >= 1);
    }
    let k = ds.len();
    let empty: Vec<u8> = Vec::new();
    proof {
        assert(dv(empty@) == 0);
    }
    if order_digits(&y, &empty) == 0 {
        proof {
            assert(cval(ds@) == 0);
            assert(x == 0) by (nonlinear_arith)
                requires
                    cval(ds@) == 0,
                    x == cval(ds@) || x == cval(ds@) * ten((t as int) as nat),
            ;
            lemma_round_zero(x, dq);
        }
        return Mag::Zero;
    }
    if t >= 320 {
        proof {
            lemma_ten_two(32);
            lemma_ten_mono(320, t as nat);
            lemma_two_mono(1025, 1056);
            lemma_two_mono(53, 1025);
            lemma_ten_pos(t as nat);
            assert(x == cval(ds@) * ten(t as nat));
            assert(x >= ten(t as nat)) by (nonlinear_arith)
                requires
                    x == cval(ds@) * ten(t as nat),
                    cval(ds@) >= 1,
                    ten(t as nat) >= 1,
            ;
            assert((10 * 32) as nat == 320);
            assert(ten(320) >= two(1056));
            assert(dq == 1);
            assert(x >= two(1025));
            assert(x >= two(1025) * dq);
            assert(up_num(x, 0) == x);
            assert(up_den(dq, 0) == 1);
            assert(two(53) * up_den(dq, 0) == two(53));
            assert(x >= two(53));
            assert(too_big(x, dq, 0));
            lemma_up_none(x, dq, 0);
        }
        return Mag::Inf;
    }
    if t + (k as i128) <= -330 {
        proof {
            let m = (-t) as nat;
            lemma_ten_two(33);
            lemma_two_mono(1076, 1089);
            lemma_ten_mono((k + 330) as nat, m);
            lemma_ten_adds(k as nat, 330);
            lemma_ten_pos(k as nat);
            lemma_two_pos(1076);
            assert(x == cval(ds@));
            assert(dq == ten(m));
            assert(x * two(1076) < dq) by (nonlinear_arith)
                requires
                    0 <= x < ten(k as nat),
                    two(1076) <= ten(330),
                    two(1076) >= 1,
                    ten(k as nat) * ten(330) <= dq,
            ;
            lemma_round_zero(x, dq);
        }
        return Mag::Zero;
    }
    let mut f: u128 = 0;
    if t >= 0 {
        let mut j: i128 = 0;
        while j < t
            invariant
                0 <= j <= t,
                t < 320,
                digits_ok(y@),
                dv(y@) == cval(ds@) * ten(j as nat),
            decreases t - j,
        {
            y = muladd(&y, 10, 0);
            proof {
                assert(10 * (cval(ds@) * ten(j as nat)) == cval(ds@) * (10 * ten(j as nat))) by (nonlinear_arith);
            }
            j = j + 1;
        }
    } else {
        f = (-t) as u128;
    }
    proof {
        if t >= 0 {
            assert(dv(y@) * up_den(dq, 0) == up_num(x, 0) * ten(f as nat));
        } else {
            assert(dv(y@) * up_den(dq, 0) == up_num(x, 0) * ten(f as nat)) by (nonlinear_arith)
                requires
                    dv(y@) == x,
                    up_den(dq, 0) == ten(f as nat),
                    up_num(x, 0) == x,
            ;
        }
    }
    let mut t52 = band_digits(f);
    let mut t53 = muladd(&t52, 2, 0);
    let mut q: i32 = 0;
    proof {
        lemma_ten_pos(f as nat);
        assert(two(53) == 2 * two(52));
        assert(2 * (two(52) * ten(f as nat)) == (2 * two(52)) * ten(f as nat)) by (nonlinear_arith);
    }
    if order_digits(&y, &t53) >= 0 {
        proof {
            lemma_scaled(dv(y@), up_num(x, 0), up_den(dq, 0), ten(f as nat), two(53));
            assert(exponent(x, dq) == settle_up(x, dq, 0));
        }
        while order_digits(&y, &t53) >= 0
            invariant
                0 <= q <= 972,
                x == xv(ds@, t as int),
                dq == qv(t as int),
                dq >= 1,
                digits_ok(y@),
                digits_ok(t52@),
                digits_ok(t53@),
                dv(t52@) == two(52) * ten(f as nat),
                dv(t53@) == two(53) * ten(f as nat),
                dv(y@) * up_den(dq, q as int) == up_num(x, q as int) * ten(f as nat),
                exponent(x, dq) == settle_up(x, dq, q as int),
                f < 1_000_000_000_000_000_000_000_000_000u128 + q,
            decreases 972 - q,
        {
            proof {
                lemma_ten_pos(f as nat);
                lemma_two_pos(q as nat);
                assert(dq * two(q as nat) >= 1) by (nonlinear_arith)
                    requires
                        dq >= 1,
                        two(q as nat) >= 1,
                ;
                lemma_scaled(dv(y@), up_num(x, q as int), up_den(dq, q as int), ten(f as nat), two(53));
            }
            if q >= 972 {
                proof {
                    assert(dv(y@) >= dv(t53@));
                    assert(too_big(x, dq, q as int));
                    assert(settle_up(x, dq, q as int) is None);
                }
                return Mag::Inf;
            }
            let ghost yv = dv(y@);
            y = muladd(&y, 5, 0);
            t52 = muladd(&t52, 10, 0);
            t53 = muladd(&t53, 10, 0);
            proof {
                let dd = up_den(dq, q as int);
                assert(up_den(dq, q + 1) == 2 * dd) by {
                    assert(two((q + 1) as nat) == 2 * two(q as nat));
                    if q == 0 {
                        assert(two(0) == 1);
                    }
                    assert(dq * (2 * two(q as nat)) == 2 * (dq * two(q as nat))) by (nonlinear_arith);
                }
                assert(up_num(x, q + 1) == up_num(x, q as int));
                assert(ten((f + 1) as nat) == 10 * ten(f as nat));
                assert(5 * yv * (2 * dd) == up_num(x, q as int) * (10 * ten(f as nat))) by (nonlinear_arith)
                    requires
                        yv * dd == up_num(x, q as int) * ten(f as nat),
                ;
                assert(10 * (two(52) * ten(f as nat)) == two(52) * (10 * ten(f as nat))) by (nonlinear_arith);
                assert(10 * (two(53) * ten(f as nat)) == two(53) * (10 * ten(f as nat))) by (nonlinear_arith);
            }
            f = f + 1;
            q = q + 1;
        }
        proof {
            lemma_ten_pos(f as nat);
            lemma_two_pos(q as nat);
            assert(dq * two(q as nat) >= 1) by (nonlinear_arith)
                requires
                    dq >= 1,
                    two(q as nat) >= 1,
            ;
            lemma_scaled(dv(y@), up_num(x, q as int), up_den(dq, q as int), ten(f as nat), two(53));
            assert(!too_big(x, dq, q as int));
            assert(settle_up(x, dq, q as int) == Some(q as int));
        }
    } else {
        proof {
            lemma_scaled(dv(y@), up_num(x, 0), up_den(dq, 0), ten(f as nat), two(53));
            assert(exponent(x, dq) == Some(settle_down(x, dq, 0)));
        }
        while q > -1074 && order_digits(&y, &t52) < 0
            invariant
                -1074 <= q <= 0,
                dq >= 1,
                digits_ok(y@),
                digits_ok(t52@),
                dv(t52@) == two(52) * ten(f as nat),
                dv(y@) * up_den(dq, q as int) == up_num(x, q as int) * ten(f as nat),
                exponent(x, dq) == Some(settle_down(x, dq, q as int)),
                !too_big(x, dq, q as int),
            decreases q + 1074,
        {
            proof {
                lemma_ten_pos(f as nat);
                lemma_scaled(dv(y@), up_num(x, q as int), up_den(dq, q as int), ten(f as nat), two(52));
                lemma_two_consts();
            }
            let ghost yv = dv(y@);
            y = muladd(&y, 2, 0);
            proof {
                assert(up_den(dq, q - 1) == dq);
                assert(up_den(dq, q as int) == dq);
                assert(two((1 - q) as nat) == 2 * two((-q) as nat));
                if q == 0 {
                    assert(two(0) == 1);
                }
                assert(up_num(x, q - 1) == 2 * up_num(x, q as int)) by {
                    assert(x * (2 * two((-q) as nat)) == 2 * (x * two((-q) as nat))) by (nonlinear_arith);
                }
                assert(2 * yv * dq == 2 * up_num(x, q as int) * ten(f as nat)) by (nonlinear_arith)
                    requires
                        yv * dq == up_num(x, q as int) * ten(f as nat),
                ;
                assert(!too_big(x, dq, q - 1));
            }
            q = q - 1;
        }
        proof {
            lemma_ten_pos(f as nat);
            assert(up_den(dq, q as int) == dq);
            lemma_scaled(dv(y@), up_num(x, q as int), up_den(dq, q as int), ten(f as nat), two(52));
            assert(settle_down(x, dq, q as int) == q as int);
        }
    }
    proof {
        lemma_ten_pos(f as nat);
        lemma_two_pos(q as nat);
        lemma_two_pos((-q) as nat);
        assert(dq * two(q as nat) >= 1) by (nonlinear_arith)
            requires
                dq >= 1,
                two(q as nat) >= 1,
        ;
        assert(up_den(dq, q as int) >= 1);
        lemma_scaled(dv(y@), up_num(x, q as int), up_den(dq, q as int), ten(f as nat), two(53));
    }
    finish(y, f, q, Ghost(x), Ghost(dq))
}

/// Round `y / 10^f`, the binary64 scaling of `X/Q` at exponent `q`.
#[verifier::spinoff_prover]
fn finish(y: Vec<u8>, f: u128, q: i32, Ghost(x): Ghost<int>, Ghost(dq): Ghost<int>) -> (r: Mag)
    requires
        digits_ok(y@),
        dq >= 1,
        -1074 <= q <= 972,
        up_den(dq, q as int) >= 1,
        dv(y@) * up_den(dq, q as int) == up_num(x, q as int) * ten(f as nat),
        dv(y@) < two(53) * ten(f as nat),
        exponent(x, dq) == Some(q as int),
    ensures
        mag_v(r) == round_pos(x, dq),
{
    let mut y = y;
    let ghost yv = dv(y@);
    while (y.len() as u128) <= f
        invariant
            digits_ok(y@),
            dv(y@) == yv,
        decreases f + 1 - y@.len(),
    {
        let ghost old_y = y@;
        y.push(0);
        proof {
            assert(y@.drop_last() =~= old_y);
            assert(y@.last() == 0);
            assert(dv(y@) == dv(old_y) + 0 * ten(old_y.len()));
        }
    }
    let fu = f as usize;
    proof {
        lemma_ten_pos(fu as nat);
        lemma_dv_split(y@, fu as int);
        lemma_dv_bound(y@.take(fu as int));
        assert(digits_ok(y@.skip(fu as int)));
        lemma_dv_bound(y@.skip(fu as int));
        lemma_two_consts();
        assert(dv(y@.skip(fu as int)) < two(53)) by (nonlinear_arith)
            requires
                yv == dv(y@.take(fu as int)) + ten(fu as nat) * dv(y@.skip(fu as int)),
                dv(y@.take(fu as int)) >= 0,
                yv < two(53) * ten(fu as nat),
                ten(fu as nat) >= 1,
        ;
    }
    let ghost hi = dv(y@.skip(fu as int));
    let mut acc: u64 = 0;
    let mut j: usize = y.len();
    proof {
        assert(y@.skip(j as int) =~= Seq::<u8>::empty());
    }
    while j > fu
        invariant
            fu <= j <= y@.len(),
            digits_ok(y@),
            hi == dv(y@.skip(fu as int)),
            hi < 9007199254740992,
            acc == dv(y@.skip(j as int)),
        decreases j,
    {
        j = j - 1;
        proof {
            lemma_dv_front(y@.skip(j as int));
            assert(y@.skip(j as int).drop_first() =~= y@.skip(j + 1));
            assert(y@.skip(j as int)[0] == y@[j as int]);
            let s = y@.skip(fu as int);
            lemma_dv_split(s, j - fu);
            assert(s.skip(j - fu) =~= y@.skip(j as int));
            assert(digits_ok(s.take(j - fu)));
            lemma_dv_bound(s.take(j - fu));
            lemma_ten_pos((j - fu) as nat);
            assert(dv(y@.skip(j as int)) <= hi) by (nonlinear_arith)
                requires
                    hi == dv(s.take(j - fu)) + ten((j - fu) as nat) * dv(s.skip(j - fu)),
                    dv(s.take(j - fu)) >= 0,
                    ten((j - fu) as nat) >= 1,
                    dv(s.skip(j - fu)) == dv(y@.skip(j as int)),
                    dv(y@.skip(j as int)) >= 0,
            ;
            assert(digits_ok(y@.skip(j as int)));
            lemma_dv_bound(y@.skip(j as int));
            assert(y@[j as int] < 10);
        }
        acc = acc * 10 + y[j] as u64;
    }
    let mut lo: Vec<u8> = Vec::new();
    let mut i: usize = 0;
    while i < fu
        invariant
            i <= fu,
            fu <= y@.len(),
            lo@ == y@.take(i as int),
        decreases fu - i,
    {
        lo.push(y[i]);
        proof {
            assert(y@.take(i + 1) =~= y@.take(i as int).push(y@[i as int]));
        }
        i = i + 1;
    }
    proof {
        assert(digits_ok(lo@));
    }
    let lo2 = muladd(&lo, 2, 0);
    let p = ten_digits(fu);
    let c = order_digits(&lo2, &p);
    proof {
        let n = up_num(x, q as int);
        let dd = up_den(dq, q as int);
        assert(acc == hi);
        assert(yv == hi * ten(f as nat) + dv(y@.take(fu as int))) by (nonlinear_arith)
            requires
                yv == dv(y@.take(fu as int)) + ten(fu as nat) * hi,
                f as nat == fu as nat,
        ;
        lemma_floor(yv, n, dd, ten(f as nat), hi, dv(y@.take(fu as int)));
        assert(rounds_up(n / dd, n % dd, dd) == (c > 0 || (c == 0 && acc % 2 == 1)));
    }
    let up = c > 0 || (c == 0 && acc % 2 == 1);
    let m1: u64 = if up {
        acc + 1
    } else {
        acc
    };
    proof {
        lemma_two_consts();
    }
    let (m2, q2): (u64, i32) = if m1 == 9007199254740992 {
        (4503599627370496, q + 1)
    } else {
        (m1, q)
    };
    if q2 > 971 {
        Mag::Inf
    } else if m2 == 0 {
        Mag::Zero
    } else {
        Mag::Fin(m2, q2)
    }
}

// ---------------------------------------------------------------------------
// Signed values and their order
// ---------------------------------------------------------------------------

/// A binary64 value: NaN, a signed infinity, zero (either sign), or
/// `±m * 2^q` with `m` normalized (`m >= 2^52` unless `q == -1074`).
pub enum B64V {
    NaN,
    Inf(bool),
    Zero,
    Fin(bool, int, int),
}

/// A magnitude with a sign.
pub open spec fn signed(neg: bool, m: MagV) -> B64V {
    match m {
        MagV::Zero => B64V::Zero,
        MagV::Inf => B64V::Inf(neg),
        MagV::Fin(s, q) => B64V::Fin(neg, s, q),
    }
}

/// The binary64 value a parsed decimal number reads as: `±0.d × 10^e`
/// rounded to nearest, ties to even.
pub open spec fn to_b64(a: NumV) -> B64V {
    match a {
        NumV::NaN => B64V::NaN,
        NumV::Inf(n) => B64V::Inf(n),
        NumV::Fin(neg, d, e) => signed(neg, round_pos(xv(d, e - d.len()), qv(e - d.len()))),
    }
}

/// `m1 * 2^q1 < m2 * 2^q2` for normalized significands.
pub open spec fn fin_lt(m1: int, q1: int, m2: int, q2: int) -> bool {
    q1 < q2 || (q1 == q2 && m1 < m2)
}

/// The order of binary64 values (`false` whenever a NaN is involved; the
/// two zeros are equal).
pub open spec fn b64_lt(a: B64V, b: B64V) -> bool {
    match (a, b) {
        (B64V::NaN, _) => false,
        (_, B64V::NaN) => false,
        (B64V::Inf(an), B64V::Inf(bn)) => an && !bn,
        (B64V::Inf(an), _) => an,
        (_, B64V::Inf(bn)) => !bn,
        (B64V::Zero, B64V::Zero) => false,
        (B64V::Zero, B64V::Fin(bn, _, _)) => !bn,
        (B64V::Fin(an, _, _), B64V::Zero) => an,
        (B64V::Fin(an, m1, q1), B64V::Fin(bn, m2, q2)) => {
            if an != bn {
                an
            } else if !an {
                fin_lt(m1, q1, m2, q2)
            } else {
                fin_lt(m2, q2, m1, q1)
            }
        },
    }
}

/// A binary64 value (executable form).
pub enum B64 {
    NaN,
    Inf(bool),
    Zero,
    Fin(bool, u64, i32),
}

/// The model of a value.
pub open spec fn b64_v(b: B64) -> B64V {
    match b {
        B64::NaN => B64V::NaN,
        B64::Inf(n) => B64V::Inf(n),
        B64::Zero => B64V::Zero,
        B64::Fin(n, m, q) => B64V::Fin(n, m as int, q as int),
    }
}

/// A parsed number whose digits are decimal digits and whose scale is in
/// the range a text can write.
pub open spec fn num_fits(n: Num) -> bool {
    match n {
        Num::Fin(_, d, e) => (forall|i: int| 0 <= i < d@.len() ==> #[trigger] is_digit(d@[i]))
            && -1_000_000_000_000_000_000_000_000 < e - d@.len() < 1_000_000_000_000_000_000_000_000,
        _ => true,
    }
}

/// The binary64 value of a parsed number.
pub fn to_b64_exec(a: &Num) -> (r: B64)
    requires
        num_fits(*a),
    ensures
        b64_v(r) == to_b64(num_v(*a)),
{
    match a {
        Num::NaN => B64::NaN,
        Num::Inf(n) => B64::Inf(*n),
        Num::Fin(neg, d, e) => {
            let t: i128 = *e - d.len() as i128;
            proof {
                assert forall|i: int| 0 <= i < d@.len() implies '0' <= #[trigger] d@[i] <= '9' by {
                    assert(is_digit(d@[i]));
                }
            }
            match round_digits(d, t) {
                Mag::Zero => B64::Zero,
                Mag::Inf => B64::Inf(*neg),
                Mag::Fin(m, q) => B64::Fin(*neg, m, q),
            }
        },
    }
}

/// `a < b` as binary64 values.
pub fn b64_less(a: &B64, b: &B64) -> (r: bool)
    ensures
        r == b64_lt(b64_v(*a), b64_v(*b)),
{
    match (a, b) {
        (B64::NaN, _) => false,
        (_, B64::NaN) => false,
        (B64::Inf(an), B64::Inf(bn)) => *an && !*bn,
        (B64::Inf(an), _) => *an,
        (_, B64::Inf(bn)) => !*bn,
        (B64::Zero, B64::Zero) => false,
        (B64::Zero, B64::Fin(bn, _, _)) => !*bn,
        (B64::Fin(an, _, _), B64::Zero) => *an,
        (B64::Fin(an, m1, q1), B64::Fin(bn, m2, q2)) => {
            if *an != *bn {
                *an
            } else if !*an {
                *q1 < *q2 || (*q1 == *q2 && *m1 < *m2)
            } else {
                *q2 < *q1 || (*q1 == *q2 && *m2 < *m1)
            }
        },
    }
}

} // verus!
