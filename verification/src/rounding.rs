//! Rounding of a ratio of naturals to a binary floating-point magnitude.

use vstd::arithmetic::div_mod::*;
use vstd::arithmetic::mul::*;
use vstd::arithmetic::power2::*;
use vstd::bits::*;
use vstd::prelude::*;

verus! {

/// `p / q` rounded to the nearest integer; a tie goes to the even neighbour.
pub open spec fn nearest(p: nat, q: nat) -> nat {
    let n = p / q;
    let r = p % q;
    if 2 * r > q || (2 * r == q && n % 2 == 1) {
        n + 1
    } else {
        n
    }
}

/// The least `k` for which `p / q` lies below `2^(k + fraction + 1)`.
pub open spec fn quantum(p: nat, q: nat, fraction: nat) -> nat
    decreases p - q,
{
    proof {
        lemma_pow2_pos(fraction);
        lemma_pow2_unfold(fraction + 1);
        assert(q * pow2(fraction + 1) >= 2 * q) by (nonlinear_arith)
            requires
                pow2(fraction + 1) >= 2,
        ;
    }
    if q == 0 || p < q * pow2(fraction + 1) {
        0
    } else {
        1 + quantum(p, 2 * q, fraction)
    }
}

/// The magnitude bits (exponent and fraction) of the floating-point number nearest to
/// `p / q`, counted in units of the smallest subnormal: the significand keeps
/// `fraction + 1` bits, ties go to the even neighbour, and what reaches `infinity`
/// becomes `infinity`.
pub open spec fn round_magnitude(p: nat, q: nat, fraction: nat, infinity: nat) -> nat {
    let k = quantum(p, q, fraction);
    let magnitude = k * pow2(fraction) + nearest(p, q * pow2(k));
    if magnitude < infinity {
        magnitude
    } else {
        infinity
    }
}

/// The magnitude of `m * 2^s` units.
pub open spec fn scaled_magnitude(m: nat, s: int, fraction: nat, infinity: nat) -> nat {
    if s >= 0 {
        round_magnitude(m * pow2(s as nat), 1, fraction, infinity)
    } else {
        round_magnitude(m, pow2((-s) as nat), fraction, infinity)
    }
}

/// The two formats in use: double and single precision.
pub open spec fn is_format(fraction: nat, infinity: nat) -> bool {
    (fraction == 52 && infinity == 0x7ff0_0000_0000_0000) || (fraction == 23 && infinity
        == 0x7f80_0000)
}

pub proof fn lemma_quantum_unique(p: nat, q: nat, fraction: nat, k: nat)
    requires
        q > 0,
        p < q * pow2(k + fraction + 1),
        k == 0 || p >= q * pow2((k + fraction) as nat),
    ensures
        quantum(p, q, fraction) == k,
    decreases k,
{
    if k > 0 {
        let w = (k + fraction) as nat;
        lemma_pow2_unfold(w + 1);
        assert(q * (2 * pow2(w)) == (2 * q) * pow2(w)) by (nonlinear_arith);
        if k > 1 {
            lemma_pow2_unfold(w);
            assert(q * (2 * pow2((w - 1) as nat)) == (2 * q) * pow2((w - 1) as nat))
                by (nonlinear_arith);
        }
        if w > fraction + 1 {
            lemma_pow2_strictly_increases(fraction + 1, w);
        }
        assert(q * pow2(w) >= q * pow2(fraction + 1)) by (nonlinear_arith)
            requires
                pow2(w) >= pow2(fraction + 1),
        ;
        lemma_quantum_unique(p, 2 * q, fraction, (k - 1) as nat);
    }
}

pub proof fn lemma_quantum_bounds(p: nat, q: nat, fraction: nat)
    requires
        q > 0,
    ensures
        p < q * pow2(quantum(p, q, fraction) + fraction + 1),
        quantum(p, q, fraction) == 0 || p >= q * pow2(
            (quantum(p, q, fraction) + fraction) as nat,
        ),
    decreases p - q,
{
    lemma_pow2_pos(fraction);
    lemma_pow2_unfold(fraction + 1);
    assert(q * pow2(fraction + 1) >= 2 * q) by (nonlinear_arith)
        requires
            pow2(fraction + 1) >= 2,
    ;
    if p >= q * pow2(fraction + 1) {
        lemma_quantum_bounds(p, 2 * q, fraction);
        let k = quantum(p, 2 * q, fraction);
        lemma_pow2_unfold(k + 1 + fraction + 1);
        assert((2 * q) * pow2((k + fraction + 1) as nat) == q * (2 * pow2(
            (k + fraction + 1) as nat,
        ))) by (nonlinear_arith);
        if k > 0 {
            lemma_pow2_unfold((k + 1 + fraction) as nat);
            assert((2 * q) * pow2((k + fraction) as nat) == q * (2 * pow2(
                (k + fraction) as nat,
            ))) by (nonlinear_arith);
        }
    }
}

/// Scaling numerator and denominator alike changes nothing.
pub proof fn lemma_nearest_scale(p: nat, q: nat, c: nat)
    requires
        q > 0,
        c > 0,
    ensures
        nearest(p * c, q * c) == nearest(p, q),
{
    let n = p / q;
    let r = p % q;
    lemma_fundamental_div_mod(p as int, q as int);
    assert(p * c == n * (q * c) + r * c) by (nonlinear_arith)
        requires
            p == q * n + r,
    ;
    assert(0 <= r * c < q * c) by (nonlinear_arith)
        requires
            0 <= r < q,
            c > 0,
    ;
    lemma_fundamental_div_mod_converse((p * c) as int, (q * c) as int, n as int, (r * c) as int);
    assert(2 * (r * c) > q * c <==> 2 * r > q) by (nonlinear_arith)
        requires
            c > 0,
    ;
    assert(2 * (r * c) == q * c <==> 2 * r == q) by (nonlinear_arith)
        requires
            c > 0,
    ;
}

pub proof fn lemma_quantum_scale(p: nat, q: nat, c: nat, fraction: nat)
    requires
        q > 0,
        c > 0,
    ensures
        quantum(p * c, q * c, fraction) == quantum(p, q, fraction),
{
    let k = quantum(p, q, fraction);
    lemma_quantum_bounds(p, q, fraction);
    let hi = pow2(k + fraction + 1);
    assert(p * c < (q * c) * hi) by (nonlinear_arith)
        requires
            p < q * hi,
            c > 0,
    ;
    if k > 0 {
        let lo = pow2((k + fraction) as nat);
        assert(p * c >= (q * c) * lo) by (nonlinear_arith)
            requires
                p >= q * lo,
                c > 0,
        ;
    }
    assert(q * c > 0) by (nonlinear_arith)
        requires
            q > 0,
            c > 0,
    ;
    lemma_quantum_unique(p * c, q * c, fraction, k);
}

pub proof fn lemma_round_scale(p: nat, q: nat, c: nat, fraction: nat, infinity: nat)
    requires
        q > 0,
        c > 0,
    ensures
        round_magnitude(p * c, q * c, fraction, infinity) == round_magnitude(
            p,
            q,
            fraction,
            infinity,
        ),
{
    lemma_quantum_scale(p, q, c, fraction);
    let k = quantum(p, q, fraction);
    lemma_pow2_pos(k);
    assert(q * pow2(k) > 0) by (nonlinear_arith)
        requires
            q > 0,
            pow2(k) > 0,
    ;
    lemma_nearest_scale(p, q * pow2(k), c);
    assert((q * pow2(k)) * c == (q * c) * pow2(k)) by (nonlinear_arith);
}

/// The magnitude of `(p / q) * 2^s` units.
pub open spec fn shifted_magnitude(p: nat, q: nat, s: int, fraction: nat, infinity: nat) -> nat {
    if s >= 0 {
        round_magnitude(p * pow2(s as nat), q, fraction, infinity)
    } else {
        round_magnitude(p, q * pow2((-s) as nat), fraction, infinity)
    }
}

/// The factors by which `s` scales a numerator and a denominator.
spec fn up(s: int) -> nat {
    if s >= 0 {
        pow2(s as nat)
    } else {
        1
    }
}

spec fn down(s: int) -> nat {
    if s >= 0 {
        1
    } else {
        pow2((-s) as nat)
    }
}

proof fn lemma_up_down(s: int, e: nat)
    requires
        e >= s,
    ensures
        up(s) > 0,
        down(s) > 0,
        pow2(e) * down(s) == pow2((e - s) as nat) * up(s),
{
    lemma2_to64();
    if s >= 0 {
        lemma_pow2_pos(s as nat);
        lemma_pow2_adds((e - s) as nat, s as nat);
    } else {
        lemma_pow2_pos((-s) as nat);
        lemma_pow2_adds(e, (-s) as nat);
    }
}

/// `quantum` and `nearest` of a shifted ratio, in terms of the ratio itself.
proof fn lemma_shifted(p: nat, q: nat, s: int, fraction: nat, infinity: nat, k: nat)
    requires
        q > 0,
        k >= s,
        p < q * pow2((k + fraction + 1 - s) as nat),
        k == 0 || p >= q * pow2((k + fraction - s) as nat),
    ensures
        shifted_magnitude(p, q, s, fraction, infinity) == ({
            let magnitude = k * pow2(fraction) + nearest(p, q * pow2((k - s) as nat));
            if magnitude < infinity {
                magnitude
            } else {
                infinity
            }
        }),
{
    let a = up(s);
    let b = down(s);
    lemma_up_down(s, k + fraction + 1);
    let hi = pow2(k + fraction + 1);
    let hi1 = pow2((k + fraction + 1 - s) as nat);
    assert(p * a < (q * b) * hi) by (nonlinear_arith)
        requires
            p < q * hi1,
            hi * b == hi1 * a,
            a > 0,
    ;
    if k > 0 {
        lemma_up_down(s, (k + fraction) as nat);
        let lo = pow2((k + fraction) as nat);
        let lo1 = pow2((k + fraction - s) as nat);
        assert(p * a >= (q * b) * lo) by (nonlinear_arith)
            requires
                p >= q * lo1,
                lo * b == lo1 * a,
                a > 0,
        ;
    }
    assert(q * b > 0) by (nonlinear_arith)
        requires
            q > 0,
            b > 0,
    ;
    lemma_quantum_unique(p * a, q * b, fraction, k);
    lemma_up_down(s, k);
    let d = pow2((k - s) as nat);
    lemma_pow2_pos((k - s) as nat);
    assert((q * b) * pow2(k) == (q * d) * a) by (nonlinear_arith)
        requires
            pow2(k) * b == d * a,
    ;
    assert(q * d > 0) by (nonlinear_arith)
        requires
            q > 0,
            d > 0,
    ;
    lemma_nearest_scale(p, q * d, a);
}

/// A ratio strictly between two neighbouring integers rounds like their midpoint, as long as
/// the integers carry more bits than the significand and its rounding bit.
pub proof fn lemma_round_sticky(
    p: nat,
    q: nat,
    floor: nat,
    s: int,
    fraction: nat,
    infinity: nat,
)
    requires
        q > 0,
        floor == p / q,
        p % q != 0,
        floor >= pow2(fraction + 2),
    ensures
        shifted_magnitude(p, q, s, fraction, infinity) == shifted_magnitude(
            2 * floor + 1,
            2,
            s,
            fraction,
            infinity,
        ),
{
    lemma_fundamental_div_mod(p as int, q as int);
    let r = p % q;
    assert(p == q * floor + r && 0 < r < q);
    // The quantum of the midpoint.
    let pa = (2 * floor + 1) * up(s);
    let qa = 2 * down(s);
    lemma_up_down(s, if s >= 0 { s as nat } else { 0 });
    let k = quantum(pa, qa, fraction);
    lemma_quantum_bounds(pa, qa, fraction);
    lemma_pow2_unfold(fraction + 2);
    lemma_pow2_pos(fraction + 1);
    assert(k >= s + 2) by {
        if k < s + 2 {
            let top = pow2(k + fraction + 1);
            if k + fraction + 1 >= s {
                lemma_up_down(s, k + fraction + 1);
                let top1 = pow2((k + fraction + 1 - s) as nat);
                if k + fraction + 1 - s < fraction + 2 {
                    lemma_pow2_strictly_increases(
                        (k + fraction + 1 - s) as nat,
                        fraction + 2,
                    );
                }
                assert(pa >= qa * top) by (nonlinear_arith)
                    requires
                        pa == (2 * floor + 1) * up(s),
                        qa == 2 * down(s),
                        top * down(s) == top1 * up(s),
                        floor >= top1,
                ;
            } else {
                lemma_pow2_strictly_increases(k + fraction + 1, s as nat);
                assert(pa >= qa * top) by (nonlinear_arith)
                    requires
                        pa == (2 * floor + 1) * up(s),
                        qa == 2,
                        up(s) >= top,
                        floor >= 1,
                ;
            }
        }
    }
    lemma_up_down(s, k + fraction + 1);
    let hi = pow2(k + fraction + 1);
    let hi1 = pow2((k + fraction + 1 - s) as nat);
    assert(2 * floor + 1 < 2 * hi1) by (nonlinear_arith)
        requires
            (2 * floor + 1) * up(s) < (2 * down(s)) * hi,
            hi * down(s) == hi1 * up(s),
            up(s) > 0,
    ;
    assert(p < q * hi1) by (nonlinear_arith)
        requires
            p == q * floor + r,
            0 < r < q,
            floor + 1 <= hi1,
    ;
    if k > 0 {
        lemma_up_down(s, (k + fraction) as nat);
        let lo = pow2((k + fraction) as nat);
        let lo1 = pow2((k + fraction - s) as nat);
        assert(2 * floor + 1 >= 2 * lo1) by (nonlinear_arith)
            requires
                (2 * floor + 1) * up(s) >= (2 * down(s)) * lo,
                lo * down(s) == lo1 * up(s),
                up(s) > 0,
        ;
        assert(p >= q * lo1) by (nonlinear_arith)
            requires
                p == q * floor + r,
                0 < r,
                floor >= lo1,
                q > 0,
        ;
    }
    lemma_shifted(p, q, s, fraction, infinity, k);
    lemma_shifted(2 * floor + 1, 2, s, fraction, infinity, k);
    // Both ratios have the same quotient and fall on the same side of the half-way point.
    let t = (k - s) as nat;
    let d = pow2(t);
    lemma_pow2_pos((t - 1) as nat);
    lemma_pow2_unfold(t);
    let h = pow2((t - 1) as nat);
    let n = floor / d;
    let e = floor % d;
    lemma_fundamental_div_mod(floor as int, d as int);
    assert(p == n * (q * d) + (q * e + r)) by (nonlinear_arith)
        requires
            p == q * floor + r,
            floor == d * n + e,
    ;
    assert(0 <= q * e + r < q * d) by (nonlinear_arith)
        requires
            0 < r < q,
            0 <= e,
            e + 1 <= d,
    ;
    lemma_fundamental_div_mod_converse(p as int, (q * d) as int, n as int, (q * e + r) as int);
    assert(2 * floor + 1 == n * (2 * d) + (2 * e + 1)) by (nonlinear_arith)
        requires
            floor == d * n + e,
    ;
    lemma_fundamental_div_mod_converse(
        (2 * floor + 1) as int,
        (2 * d) as int,
        n as int,
        (2 * e + 1) as int,
    );
    lemma_pow2_unfold((t - 1) as nat);
    if e >= h {
        assert(2 * (q * e + r) > q * d) by (nonlinear_arith)
            requires
                e >= h,
                d == 2 * h,
                r > 0,
                q > 0,
        ;
    } else {
        assert(2 * (q * e + r) < q * d) by (nonlinear_arith)
            requires
                e + 1 <= h,
                d == 2 * h,
                r < q,
        ;
    }
}

proof fn lemma_log_step(m: nat, v: nat, l: nat, w: nat)
    requires
        v * pow2(l) <= m < (v + 1) * pow2(l),
        v >= pow2(w),
    ensures
        (v / pow2(w)) * pow2(l + w) <= m < (v / pow2(w) + 1) * pow2(l + w),
        v / pow2(w) >= 1,
{
    let d = pow2(w);
    lemma_pow2_pos(w);
    lemma_pow2_pos(l);
    lemma_pow2_adds(l, w);
    lemma_fundamental_div_mod(v as int, d as int);
    let n = v / d;
    let a = pow2(l);
    lemma_div_non_zero(v as int, d as int);
    assert(n * (a * d) <= m) by (nonlinear_arith)
        requires
            v * a <= m,
            v >= d * n,
    ;
    assert(m < (n + 1) * (a * d)) by (nonlinear_arith)
        requires
            m < (v + 1) * a,
            v + 1 <= d * n + d,
            a > 0,
    ;
}

/// The position of the highest bit that is set.
pub fn floor_log2(m: u128) -> (l: u32)
    requires
        m > 0,
    ensures
        l <= 127,
        pow2(l as nat) <= m < pow2((l + 1) as nat),
{
    let mut v: u128 = m;
    let mut l: u32 = 0;
    let mut w: u32 = 64;
    proof {
        lemma2_to64();
        lemma2_to64_rest();
    }
    while w > 0
        invariant
            v >= 1,
            v * pow2(l as nat) <= m < (v + 1) * pow2(l as nat),
            w == 64 || w == 32 || w == 16 || w == 8 || w == 4 || w == 2 || w == 1 || w == 0,
            w > 0 ==> (v as nat) / pow2(w as nat) < pow2(w as nat),
            w == 0 ==> v == 1,
            w == 64 ==> l == 0,
            w < 64 ==> l + 2 * w <= 128,
            w == 0 ==> l <= 127,
        decreases w,
    {
        let ghost v0 = v as nat;
        let shifted: u128 = v >> w;
        proof {
            lemma2_to64();
            lemma2_to64_rest();
            lemma_u128_shr_is_div(v, w as u128);
            lemma_pow2_pos(w as nat);
        }
        if shifted > 0 {
            proof {
                if v0 < pow2(w as nat) {
                    lemma_basic_div(v0 as int, pow2(w as nat) as int);
                }
                lemma_log_step(m as nat, v0, l as nat, w as nat);
            }
            v = shifted;
            l = l + w;
        } else {
            proof {
                if v0 >= pow2(w as nat) {
                    lemma_div_non_zero(v0 as int, pow2(w as nat) as int);
                }
            }
        }
        proof {
            // v < 2^w now; half the width splits it again.
            let h = (w / 2) as nat;
            if w > 1 {
                lemma_pow2_adds(h, h);
                assert(v < pow2(h) * pow2(h));
                lemma_multiply_divide_lt(v as int, pow2(h) as int, pow2(h) as int);
            }
        }
        w = w / 2;
    }
    proof {
        lemma_pow2_unfold((l + 1) as nat);
    }
    l
}

/// `2^t`.
pub fn power(t: u32) -> (d: u128)
    requires
        t <= 127,
    ensures
        d == pow2(t as nat),
{
    let top: u128 = 0x8000_0000_0000_0000_0000_0000_0000_0000;
    let shift: u32 = 127 - t;
    proof {
        lemma2_to64();
        lemma2_to64_rest();
        lemma_pow2_adds(63, 64);
        lemma_u128_shr_is_div(top, shift as u128);
        lemma_pow2_adds(shift as nat, t as nat);
        lemma_pow2_pos(shift as nat);
        lemma_div_multiples_vanish(pow2(t as nat) as int, pow2(shift as nat) as int);
    }
    top >> shift
}

/// Rounds `m * 2^s` units to the nearest magnitude of the format.
pub fn round_scaled(m: u128, s: i32, fraction: u32, infinity: u64) -> (r: u64)
    requires
        0 < m < 0x100_0000_0000_0000_0000_0000_0000_0000,
        -2200 <= s <= 4200,
        is_format(fraction as nat, infinity as nat),
    ensures
        r == scaled_magnitude(m as nat, s as int, fraction as nat, infinity as nat),
{
    let l: i32 = floor_log2(m) as i32;
    let f: i32 = fraction as i32;
    let k: i32 = if l + s > f { l + s - f } else { 0 };
    let t: i32 = k - s;
    let ghost p = if s >= 0 { (m * pow2(s as nat)) as nat } else { m as nat };
    let ghost q = if s >= 0 { 1nat } else { pow2((-s) as nat) };
    proof {
        lemma_pow2_adds(60, 60);
        lemma2_to64();
        lemma2_to64_rest();
        if l >= 120 {
            if l > 120 {
                lemma_pow2_strictly_increases(120, l as nat);
            }
        }
        lemma_scaled_quantum(m as nat, s as int, l as nat, f as nat, k as nat);
    }
    let n: u128 = if t <= 0 {
        let d: u128 = power((-t) as u32);
        proof {
            lemma_shift_up(m as nat, l as nat, (-t) as nat, f as nat);
            lemma_scaled_exact(m as nat, s as int, k as nat);
        }
        m * d
    } else if t > 121 {
        proof {
            lemma_scaled_nearest(m as nat, s as int, k as nat);
            lemma_pow2_strictly_increases(121, t as nat);
            lemma_pow2_unfold(121);
            lemma_small_mod(m as nat, pow2(t as nat));
            lemma_basic_div(m as int, pow2(t as nat) as int);
        }
        0
    } else {
        let d: u128 = power(t as u32);
        proof {
            lemma_pow2_pos(t as nat);
        }
        let quotient: u128 = m / d;
        let rest: u128 = m % d;
        proof {
            lemma_scaled_nearest(m as nat, s as int, k as nat);
            lemma_pow2_unfold(121);
            if t < 121 {
                lemma_pow2_strictly_increases(t as nat, 121);
            }
        }
        if 2 * rest > d || (2 * rest == d && quotient % 2 == 1) {
            quotient + 1
        } else {
            quotient
        }
    };
    let unit: u128 = if fraction == 52 { 0x10_0000_0000_0000 } else { 0x80_0000 };
    proof {
        assert(n <= 0x100_0000_0000_0000_0000_0000_0000_0000);
        assert((k as u128) * unit <= 4400 * 0x10_0000_0000_0000) by (nonlinear_arith)
            requires
                0 <= k <= 4400,
                unit <= 0x10_0000_0000_0000,
        ;
    }
    let magnitude: u128 = (k as u128) * unit + n;
    if magnitude < infinity as u128 {
        magnitude as u64
    } else {
        infinity
    }
}

proof fn lemma_shift_up(m: nat, l: nat, up: nat, f: nat)
    requires
        m < pow2(l + 1),
        l + up <= f,
        f <= 52,
    ensures
        m * pow2(up) < 0x40_0000_0000_0000,
{
    lemma_pow2_adds(l + 1, up);
    lemma_pow2_pos(up);
    assert(m * pow2(up) < pow2(l + 1) * pow2(up)) by (nonlinear_arith)
        requires
            m < pow2(l + 1),
            pow2(up) > 0,
    ;
    if l + 1 + up < 53 {
        lemma_pow2_strictly_increases(l + 1 + up, 53);
    }
    lemma2_to64_rest();
}

proof fn lemma_scaled_quantum(m: nat, s: int, l: nat, f: nat, k: nat)
    requires
        pow2(l) <= m < pow2(l + 1),
        k == (if l + s > f { l + s - f } else { 0 }),
    ensures
        s >= 0 ==> quantum(m * pow2(s as nat), 1, f) == k,
        s < 0 ==> quantum(m, pow2((-s) as nat), f) == k,
{
    if s >= 0 {
        let u = s as nat;
        lemma_pow2_pos(u);
        lemma_pow2_adds(l + 1, u);
        lemma_pow2_adds(l, u);
        assert(m * pow2(u) < pow2(l + 1) * pow2(u)) by (nonlinear_arith)
            requires
                m < pow2(l + 1),
                pow2(u) > 0,
        ;
        assert(m * pow2(u) >= pow2(l) * pow2(u)) by (nonlinear_arith)
            requires
                m >= pow2(l),
        ;
        if l + 1 + u < k + f + 1 {
            lemma_pow2_strictly_increases(l + 1 + u, k + f + 1);
        }
        lemma_quantum_unique(m * pow2(u), 1, f, k);
    } else {
        let d = (-s) as nat;
        lemma_pow2_pos(d);
        lemma_pow2_adds(d, k + f + 1);
        if l + 1 < d + k + f + 1 {
            lemma_pow2_strictly_increases(l + 1, d + k + f + 1);
        }
        if k > 0 {
            lemma_pow2_adds(d, (k + f) as nat);
        }
        lemma_quantum_unique(m, pow2(d), f, k);
    }
}

proof fn lemma_scaled_exact(m: nat, s: int, k: nat)
    requires
        s >= k,
    ensures
        nearest(m * pow2(s as nat), 1 * pow2(k)) == m * pow2((s - k) as nat),
{
    let up = (s - k) as nat;
    lemma_pow2_adds(up, k);
    lemma_pow2_pos(k);
    assert(m * (pow2(up) * pow2(k)) == (m * pow2(up)) * pow2(k)) by (nonlinear_arith);
    lemma_nearest_scale(m * pow2(up), 1, pow2(k));
}

proof fn lemma_scaled_nearest(m: nat, s: int, k: nat)
    requires
        s < k,
    ensures
        s >= 0 ==> nearest(m * pow2(s as nat), 1 * pow2(k)) == nearest(m, pow2((k - s) as nat)),
        s < 0 ==> nearest(m, pow2((-s) as nat) * pow2(k)) == nearest(m, pow2((k - s) as nat)),
{
    let t = (k - s) as nat;
    lemma_pow2_pos(t);
    if s >= 0 {
        lemma_pow2_adds(t, s as nat);
        lemma_pow2_pos(s as nat);
        lemma_nearest_scale(m, pow2(t), pow2(s as nat));
    } else {
        lemma_pow2_adds((-s) as nat, k);
    }
}

proof fn lemma_nearest_monotone(a: nat, b: nat, q: nat)
    requires
        q > 0,
        a <= b,
    ensures
        nearest(a, q) <= nearest(b, q),
{
    lemma_div_is_ordered(a as int, b as int, q as int);
    lemma_fundamental_div_mod(a as int, q as int);
    lemma_fundamental_div_mod(b as int, q as int);
    if a / q == b / q {
        assert(q * (a / q) == q * (b / q));
    }
}

/// Rounding keeps the order of fractions with one denominator.
proof fn lemma_round_ordered(a: nat, b: nat, q: nat, fraction: nat, infinity: nat)
    requires
        q > 0,
        a <= b,
    ensures
        round_magnitude(a, q, fraction, infinity) <= round_magnitude(b, q, fraction, infinity),
{
    let i = quantum(a, q, fraction);
    let j = quantum(b, q, fraction);
    lemma_quantum_bounds(a, q, fraction);
    lemma_quantum_bounds(b, q, fraction);
    lemma_pow2_pos(i);
    lemma_pow2_pos(j);
    lemma_pow2_pos(fraction);
    assert(q * pow2(i) > 0 && q * pow2(j) > 0) by (nonlinear_arith)
        requires
            q > 0,
            pow2(i) > 0,
            pow2(j) > 0,
    ;
    if i > j {
        if i + fraction > j + fraction + 1 {
            lemma_pow2_strictly_increases(j + fraction + 1, i + fraction);
        }
        assert(q * pow2(i + fraction) >= q * pow2(j + fraction + 1)) by (nonlinear_arith)
            requires
                pow2(i + fraction) >= pow2(j + fraction + 1),
        ;
    } else if i == j {
        lemma_nearest_monotone(a, b, q * pow2(i));
    } else {
        let (u, v, f) = (pow2(i), pow2(j), pow2(fraction));
        lemma_pow2_adds(i, fraction + 1);
        lemma_pow2_adds(j, fraction);
        lemma_pow2_unfold(fraction + 1);
        assert(a < (q * u) * (2 * f)) by (nonlinear_arith)
            requires
                a < q * pow2(i + fraction + 1),
                pow2(i + fraction + 1) == u * (2 * f),
        ;
        lemma_mul_is_commutative((q * u) as int, (2 * f) as int);
        lemma_multiply_divide_lt(a as int, (q * u) as int, (2 * f) as int);
        assert(b >= (q * v) * f) by (nonlinear_arith)
            requires
                b >= q * pow2(j + fraction),
                pow2(j + fraction) == v * f,
        ;
        lemma_mul_is_commutative((q * v) as int, f as int);
        lemma_div_is_ordered(((q * v) * f) as int, b as int, (q * v) as int);
        lemma_div_multiples_vanish(f as int, (q * v) as int);
        assert(i * f + 2 * f <= j * f + f) by (nonlinear_arith)
            requires
                i + 1 <= j,
        ;
    }
}

/// Rounding keeps the order of fractions.
pub proof fn lemma_round_monotone(a: nat, p: nat, b: nat, q: nat, fraction: nat, infinity: nat)
    requires
        p > 0,
        q > 0,
        a * q <= b * p,
    ensures
        round_magnitude(a, p, fraction, infinity) <= round_magnitude(b, q, fraction, infinity),
{
    lemma_round_scale(a, p, q, fraction, infinity);
    lemma_round_scale(b, q, p, fraction, infinity);
    lemma_mul_is_commutative(p as int, q as int);
    assert(p * q > 0) by (nonlinear_arith)
        requires
            p > 0,
            q > 0,
    ;
    lemma_round_ordered(a * q, b * p, p * q, fraction, infinity);
}

/// Zero rounds to zero.
pub proof fn lemma_round_zero(q: nat, fraction: nat, infinity: nat)
    requires
        q > 0,
        infinity > 0,
    ensures
        round_magnitude(0, q, fraction, infinity) == 0,
{
    lemma_pow2_pos(fraction + 1);
    lemma2_to64();
    assert(q * pow2(fraction + 1) > 0) by (nonlinear_arith)
        requires
            q > 0,
            pow2(fraction + 1) > 0,
    ;
    lemma_quantum_unique(0, q, fraction, 0);
    assert(q * pow2(0) == q) by (nonlinear_arith)
        requires
            pow2(0) == 1,
    ;
    lemma_div_of0(q as int);
    lemma_small_mod(0, q);
    assert(0 * pow2(fraction) == 0) by (nonlinear_arith);
}

} // verus!
