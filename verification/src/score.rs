//! Base-2 logarithms in 16.16 fixed point, built from integer arithmetic
//! alone, and the per-bucket entropy weight the solver's scoring uses.
//!
//! The solver scores a guess by the Shannon entropy of the verdict
//! distribution it induces. Entropy needs `log2`; here `log2 k` is computed
//! exactly in fixed point (16 fractional bits) by the classic
//! square-and-normalize method, so scores are plain integers: the score of a
//! guess is `sum c * (log2(n) - log2(c))` over its verdict buckets, which is
//! `n * (entropy in bits)` scaled by 65536. Ranking guesses by this integer
//! ranks them by a fixed-point approximation of entropy, exact to 16
//! fractional bits per logarithm (near-ties may order differently than the
//! real-valued entropy would); `n` (the valid-set size) is the same for
//! every guess in a round.
use vstd::arithmetic::div_mod::lemma_div_is_ordered;
use vstd::prelude::*;

verus! {

/// 2 to the power `e`.
pub open spec fn two_to(e: nat) -> nat
    decreases e,
{
    if e == 0 {
        1
    } else {
        2 * two_to((e - 1) as nat)
    }
}

/// The integer part of `log2 k` (0 for `k < 2`).
pub open spec fn floor_log2(k: nat) -> nat
    decreases k,
{
    if k < 2 {
        0
    } else {
        floor_log2(k / 2) + 1
    }
}

/// Double `k` until it lands in the normalized band `[2^31, 2^32)`.
pub open spec fn norm31(k: nat) -> nat
    decreases (if k < 2147483648 {
        2147483648 - k
    } else {
        0
    }),
{
    if k == 0 {
        0
    } else if k >= 2147483648 {
        k
    } else {
        norm31(2 * k)
    }
}

/// The first `t` fractional bits of `log2(x / 2^31)`, for `x` in the
/// normalized band: square the mantissa; if it leaves the band the next bit
/// is 1 and the mantissa is halved back, else the bit is 0.
pub open spec fn log_frac(x: nat, t: nat) -> nat
    decreases t,
{
    if t == 0 {
        0
    } else {
        let sq = (x * x) / 2147483648;
        if sq >= 4294967296 {
            two_to((t - 1) as nat) + log_frac(sq / 2, (t - 1) as nat)
        } else {
            log_frac(sq, (t - 1) as nat)
        }
    }
}

/// `log2 k` in 16.16 fixed point: integer part scaled by 65536, plus 16
/// fractional bits.
pub open spec fn log2_fixed(k: nat) -> nat {
    floor_log2(k) * 65536 + log_frac(norm31(k), 16)
}

proof fn lemma_two_to_pos(e: nat)
    ensures
        two_to(e) >= 1,
    decreases e,
{
    if e > 0 {
        lemma_two_to_pos((e - 1) as nat);
    }
}

proof fn lemma_two_to_mono(e: nat, f: nat)
    requires
        e <= f,
    ensures
        1 <= two_to(e) <= two_to(f),
    decreases f,
{
    lemma_two_to_pos(e);
    if e < f {
        lemma_two_to_mono(e, (f - 1) as nat);
    }
}

proof fn lemma_two_to_16()
    ensures
        two_to(16) == 65536,
        two_to(32) == 4294967296,
{
    reveal_with_fuel(two_to, 33);
}

/// `two_to` brackets `floor_log2`.
proof fn lemma_floor_log2_brackets(k: nat)
    requires
        k >= 1,
    ensures
        two_to(floor_log2(k)) <= k,
        k < two_to(floor_log2(k) + 1),
    decreases k,
{
    if k < 2 {
    } else {
        lemma_floor_log2_brackets(k / 2);
    }
}

proof fn lemma_floor_log2_mono(j: nat, k: nat)
    requires
        j <= k,
    ensures
        floor_log2(j) <= floor_log2(k),
    decreases k,
{
    if j < 2 {
    } else {
        lemma_floor_log2_mono(j / 2, k / 2);
    }
}

/// For a 32-bit value the integer part of the logarithm is at most 31.
proof fn lemma_floor_log2_bound(k: nat)
    requires
        1 <= k < 4294967296,
    ensures
        floor_log2(k) <= 31,
{
    lemma_floor_log2_brackets(k);
    lemma_two_to_16();
    if floor_log2(k) > 31 {
        lemma_two_to_mono(32, floor_log2(k));
    }
}

proof fn lemma_log_frac_bound(x: nat, t: nat)
    ensures
        log_frac(x, t) < two_to(t),
    decreases t,
{
    if t > 0 {
        let sq = (x * x) / 2147483648;
        if sq >= 4294967296 {
            lemma_log_frac_bound(sq / 2, (t - 1) as nat);
        } else {
            lemma_log_frac_bound(sq, (t - 1) as nat);
        }
    }
}

/// The squared mantissa stays within one doubling of the band.
proof fn lemma_square_band(x: nat)
    requires
        2147483648 <= x < 4294967296,
    ensures
        2147483648 <= (x * x) / 2147483648 < 8589934592,
{
    assert(x * x >= 2147483648 * 2147483648) by (nonlinear_arith)
        requires
            x >= 2147483648,
    ;
    assert(x * x <= 4294967295 * 4294967295) by (nonlinear_arith)
        requires
            x <= 4294967295,
    ;
    lemma_div_is_ordered((2147483648 * 2147483648) as int, (x * x) as int, 2147483648);
    lemma_div_is_ordered((x * x) as int, (4294967295 * 4294967295) as int, 2147483648);
    assert((2147483648 * 2147483648) as int / 2147483648 == 2147483648);
    assert((4294967295 * 4294967295) as int / 2147483648 < 8589934592);
}

proof fn lemma_log_frac_mono(x: nat, y: nat, t: nat)
    requires
        2147483648 <= x <= y < 4294967296,
    ensures
        log_frac(x, t) <= log_frac(y, t),
    decreases t,
{
    if t > 0 {
        let sx = (x * x) / 2147483648;
        let sy = (y * y) / 2147483648;
        lemma_square_band(x);
        lemma_square_band(y);
        assert(x * x <= y * y) by (nonlinear_arith)
            requires
                0 <= x <= y,
        ;
        lemma_div_is_ordered((x * x) as int, (y * y) as int, 2147483648);
        if sx >= 4294967296 {
            lemma_log_frac_mono(sx / 2, sy / 2, (t - 1) as nat);
        } else if sy >= 4294967296 {
            lemma_log_frac_bound(sx, (t - 1) as nat);
            lemma_log_frac_mono(sy / 2, sy / 2, (t - 1) as nat);
        } else {
            lemma_log_frac_mono(sx, sy, (t - 1) as nat);
        }
    }
}

/// In the normalized band, `norm31` is the identity.
proof fn lemma_norm31_band(x: nat)
    requires
        2147483648 <= x,
    ensures
        norm31(x) == x,
{
}

/// `norm31` lands in the band and keeps the order of values that share an
/// integer logarithm.
proof fn lemma_norm31_in_band(k: nat)
    requires
        1 <= k < 4294967296,
    ensures
        2147483648 <= norm31(k) < 4294967296,
    decreases (if k < 2147483648 {
        2147483648 - k
    } else {
        0
    }),
{
    if k >= 2147483648 {
    } else {
        lemma_norm31_in_band(2 * k)
    }
}

proof fn lemma_norm31_mono_same_level(j: nat, k: nat)
    requires
        1 <= j <= k < 4294967296,
        floor_log2(j) == floor_log2(k),
    ensures
        norm31(j) <= norm31(k),
    decreases (if j < 2147483648 {
        2147483648 - j
    } else {
        0
    }),
{
    if j >= 2147483648 {
        assert(norm31(k) == k);
    } else {
        lemma_floor_log2_brackets(j);
        lemma_floor_log2_brackets(k);
        if k >= 2147483648 {
            lemma_two_to_16();
            assert(floor_log2(k) >= 31) by {
                if floor_log2(k) < 31 {
                    lemma_two_to_mono(floor_log2(k) + 1, 31);
                    assert(two_to(31) == 2147483648) by {
                        reveal_with_fuel(two_to, 32);
                    }
                }
            }
            assert(two_to(31) == 2147483648) by {
                reveal_with_fuel(two_to, 32);
            }
            lemma_two_to_mono(31, floor_log2(j));
            assert(false);
        } else {
            assert(floor_log2(2 * j) == floor_log2(j) + 1);
            assert(floor_log2(2 * k) == floor_log2(k) + 1);
            lemma_norm31_mono_same_level(2 * j, 2 * k);
        }
    }
}

/// The fixed-point logarithm is monotone.
pub proof fn lemma_log2_fixed_mono(j: nat, k: nat)
    requires
        1 <= j <= k < 4294967296,
    ensures
        log2_fixed(j) <= log2_fixed(k),
{
    lemma_floor_log2_mono(j, k);
    lemma_norm31_in_band(j);
    lemma_norm31_in_band(k);
    lemma_two_to_16();
    if floor_log2(j) == floor_log2(k) {
        lemma_norm31_mono_same_level(j, k);
        lemma_log_frac_mono(norm31(j), norm31(k), 16);
    } else {
        lemma_log_frac_bound(norm31(j), 16);
    }
}

/// For 32-bit values the fixed-point logarithm stays below 32 * 65536.
pub proof fn lemma_log2_fixed_bound(k: nat)
    requires
        1 <= k < 4294967296,
    ensures
        log2_fixed(k) < 2097152,
{
    lemma_floor_log2_bound(k);
    lemma_log_frac_bound(norm31(k), 16);
    lemma_two_to_16();
}

/// `log2 k` in 16.16 fixed point, computed with integer arithmetic: the
/// integer part by repeated halving, the fractional bits by repeated
/// squaring of the normalized mantissa.
pub fn log2_fixed_exec(k: u64) -> (r: u64)
    requires
        1 <= k < 4294967296,
    ensures
        r == log2_fixed(k as nat),
        r < 2097152,
{
    let mut t: u64 = k;
    let mut e: u64 = 0;
    while t >= 2
        invariant
            1 <= t <= k < 4294967296,
            floor_log2(k as nat) == e + floor_log2(t as nat),
            e <= 31,
        decreases t,
    {
        proof {
            lemma_floor_log2_bound(k as nat);
        }
        t = t / 2;
        e = e + 1;
    }
    let mut x: u64 = k;
    while x < 2147483648
        invariant
            1 <= x < 4294967296,
            norm31(x as nat) == norm31(k as nat),
        decreases 4294967296 - x,
    {
        x = x * 2;
    }
    let ghost x0 = x as nat;
    proof {
        lemma_norm31_band(x as nat);
    }
    let mut acc: u64 = 0;
    let mut i: u64 = 0;
    while i < 16
        invariant
            i <= 16,
            2147483648 <= x < 4294967296,
            acc < two_to(i as nat),
            log_frac(x0, 16) == acc * two_to((16 - i) as nat) + log_frac(x as nat, (16 - i) as nat),
        decreases 16 - i,
    {
        proof {
            lemma_square_band(x as nat);
            assert(x * x <= 4294967295 * 4294967295) by (nonlinear_arith)
                requires
                    x <= 4294967295,
            ;
            lemma_two_to_mono(i as nat, 15);
            assert(two_to(15) == 32768) by {
                reveal_with_fuel(two_to, 16);
            }
        }
        let sq = (x * x) / 2147483648;
        let ghost tleft = (16 - i) as nat;
        let ghost t1 = (tleft - 1) as nat;
        let ghost xold = x as nat;
        let ghost accold = acc as nat;
        proof {
            assert(two_to(tleft) == 2 * two_to(t1));
        }
        if sq >= 4294967296 {
            x = sq / 2;
            acc = 2 * acc + 1;
            proof {
                assert(log_frac(xold, tleft) == two_to(t1) + log_frac(x as nat, t1));
                assert((2 * accold + 1) * two_to(t1) == accold * (2 * two_to(t1)) + two_to(t1))
                    by (nonlinear_arith);
            }
        } else {
            x = sq;
            acc = 2 * acc;
            proof {
                assert(log_frac(xold, tleft) == log_frac(x as nat, t1));
                assert((2 * accold) * two_to(t1) == accold * (2 * two_to(t1))) by (nonlinear_arith);
            }
        }
        i = i + 1;
    }
    proof {
        assert(i == 16);
        assert(log_frac(x0, 16) == acc * two_to((16 - i) as nat) + log_frac(
            x as nat,
            (16 - i) as nat,
        ));
        assert(two_to((16 - i) as nat) == 1);
        assert(log_frac(x as nat, (16 - i) as nat) == 0);
        assert(acc * 1 == acc);
        assert(log_frac(x0, 16) == acc);
        lemma_log_frac_bound(x0, 16);
        lemma_two_to_16();
    }
    e * 65536 + acc
}

/// The weight one verdict bucket of size `c` contributes to the score of a
/// guess, out of a valid set of size `n`: `c * (log2 n - log2 c)` in 16.16
/// fixed point, and 0 for an empty bucket.
pub open spec fn entropy_weight(c: nat, n: nat) -> int {
    if 1 <= c <= n && n < 4294967296 {
        c * (log2_fixed(n) - log2_fixed(c))
    } else {
        0
    }
}

/// Every bucket weight is bounded by `n * log2 n`.
pub proof fn lemma_entropy_weight_bound(c: nat, n: nat)
    requires
        n < 4294967296,
    ensures
        0 <= entropy_weight(c, n) <= 9007199254740992,
{
    if 1 <= c && c <= n {
        lemma_log2_fixed_mono(c, n);
        lemma_log2_fixed_bound(n);
        let d = log2_fixed(n) - log2_fixed(c);
        assert(c * d >= 0) by (nonlinear_arith)
            requires
                c >= 0,
                d >= 0,
        ;
        assert(c * d <= 9007199254740992) by (nonlinear_arith)
            requires
                0 <= d < 2097152,
                0 <= c < 4294967296,
        ;
    }
}

/// The bucket weight, computed in integer arithmetic.
pub fn entropy_weight_exec(c: u64, n: u64) -> (r: u64)
    requires
        1 <= c <= n < 4294967296,
    ensures
        r == entropy_weight(c as nat, n as nat),
        r <= 9007199254740992,
{
    proof {
        lemma_log2_fixed_mono(c as nat, n as nat);
        lemma_log2_fixed_bound(n as nat);
        lemma_entropy_weight_bound(c as nat, n as nat);
    }
    let ln = log2_fixed_exec(n);
    let lc = log2_fixed_exec(c);
    let d = ln - lc;
    proof {
        assert(c * d <= 9007199254740992) by (nonlinear_arith)
            requires
                0 <= d < 2097152,
                0 <= c < 4294967296,
        ;
    }
    c * d
}

} // verus!
