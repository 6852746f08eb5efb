//! Single-precision numbers, given by their bits: their values, and integers next to them.

use crate::binary64::{
    exp2, lemma_exp2_adds, lemma_exp2_is_pow2, lemma_exp2_monotone, lemma_exp2_positive,
    power_of_two,
};
use vstd::arithmetic::power2::{
    lemma2_to64, lemma2_to64_rest, lemma_pow2_pos, lemma_pow2_strictly_increases,
};
use vstd::prelude::*;

verus! {

/// The exponent field of a single-precision number.
pub open spec fn exponent_field(bits: u32) -> int {
    bits as int / 0x80_0000 % 0x100
}

/// The fraction field of a single-precision number.
pub open spec fn fraction_field(bits: u32) -> int {
    bits as int % 0x80_0000
}

/// The bits are no number.
pub open spec fn is_nan(bits: u32) -> bool {
    exponent_field(bits) == 0xff && fraction_field(bits) != 0
}

/// The size of a finite single-precision number, whatever its sign.
pub open spec fn absolute(bits: u32) -> real {
    if exponent_field(bits) == 0 {
        fraction_field(bits) as real * exp2(-149)
    } else {
        (fraction_field(bits) + 0x80_0000) as real * exp2(exponent_field(bits) - 150)
    }
}

/// The least integer that is not below `x`.
pub open spec fn ceil(x: real) -> int {
    -((-x).floor())
}

/// The bits rounded up to an integer of 32 bits: 0 for what is negative or no number, the
/// largest for what is too large.
pub open spec fn ceiling(bits: u32) -> u32 {
    if is_nan(bits) || bits >= 0x8000_0000 {
        0
    } else if exponent_field(bits) == 0xff || ceil(absolute(bits)) > u32::MAX {
        u32::MAX
    } else {
        ceil(absolute(bits)) as u32
    }
}

/// A number below one, but not zero, is rounded up to one.
proof fn lemma_below_one(s: int, e: int)
    requires
        0 < s < 0x100_0000,
        e <= -24,
    ensures
        ceil(s as real * exp2(e)) == 1,
{
    lemma_exp2_positive(e);
    lemma_exp2_monotone(e, -24);
    lemma_exp2_is_pow2(24);
    lemma2_to64();
    let (x, u, v) = (s as real, exp2(e), exp2(-24));
    assert(0real < x * u < 1real) by (nonlinear_arith)
        requires
            0real < x < 0x100_0000real,
            0real < u <= v,
            v * 0x100_0000real == 1real,
    ;
}

/// Rounds a single-precision number up to an integer.
pub fn ceil_to_u32(bits: u32) -> (r: u32)
    ensures
        r == ceiling(bits),
{
    if bits >= 0x8000_0000 {
        return 0;
    }
    let e: u32 = bits / 0x80_0000 % 0x100;
    let f: u32 = bits % 0x80_0000;
    if e == 0xff {
        return if f == 0 {
            u32::MAX
        } else {
            0
        };
    }
    if e == 0 {
        proof {
            if f == 0 {
                assert(0real * exp2(-149) == 0real);
            } else {
                lemma_below_one(f as int, -149);
            }
        }
        return if f == 0 {
            0
        } else {
            1
        };
    }
    let s: u32 = f + 0x80_0000;
    let ghost (x, u) = (s as real, exp2(e - 150));
    if e >= 159 {
        proof {
            lemma_exp2_monotone(9, e - 150);
            lemma_exp2_is_pow2(9);
            lemma2_to64();
            assert(x * u >= 0x1_0000_0000real) by (nonlinear_arith)
                requires
                    x >= 0x80_0000real,
                    u >= 512real,
            ;
        }
        u32::MAX
    } else if e >= 150 {
        let p = power_of_two(e - 150);
        proof {
            lemma_exp2_is_pow2((e - 150) as nat);
            if e < 158 {
                lemma_pow2_strictly_increases((e - 150) as nat, 8);
            }
            lemma2_to64();
            lemma_pow2_pos((e - 150) as nat);
            assert(s * p < 0x1_0000_0000) by (nonlinear_arith)
                requires
                    s < 0x100_0000,
                    0 < p <= 256,
            ;
            assert(x * u == (s * p) as real) by (nonlinear_arith)
                requires
                    x == s as real,
                    u == p as real,
            ;
        }
        (s as u128 * p) as u32
    } else if e <= 126 {
        proof {
            lemma_below_one(s as int, e - 150);
        }
        1
    } else {
        let k: u32 = 150 - e;
        let p = power_of_two(k);
        let n: u128 = s as u128 + (p - 1);
        let r: u128 = n / p;
        proof {
            lemma_exp2_is_pow2(k as nat);
            if k < 23 {
                lemma_pow2_strictly_increases(k as nat, 23);
            }
            lemma2_to64();
            vstd::arithmetic::div_mod::lemma_fundamental_div_mod(n as int, p as int);
            let (b, c, g) = (p as real, r as real, (n % p) as real);
            assert((p * r) as real == b * c) by (nonlinear_arith)
                requires
                    b == p as real,
                    c == r as real,
            ;
            assert(x * u == c + (g + 1real - b) * u) by (nonlinear_arith)
                requires
                    u * b == 1real,
                    x + b - 1real == b * c + g,
            ;
            assert(-1real < (g + 1real - b) * u <= 0real) by (nonlinear_arith)
                requires
                    u * b == 1real,
                    0real <= g <= b - 1real,
                    b > 0real,
            ;
            assert(r <= n) by (nonlinear_arith)
                requires
                    p * r <= n,
                    p >= 1,
                    r >= 0,
            ;
        }
        r as u32
    }
}

/// The bits are a finite number.
pub open spec fn is_finite(bits: u32) -> bool {
    exponent_field(bits) != 0xff
}

/// Whether bits are a finite number.
pub fn has_value(bits: u32) -> (r: bool)
    ensures
        r == is_finite(bits),
{
    bits / 0x80_0000 % 0x100 != 0xff
}

/// The finite number that bits stand for.
pub open spec fn value(bits: u32) -> real {
    if bits >= 0x8000_0000 {
        -absolute(bits)
    } else {
        absolute(bits)
    }
}

/// The digits of a finite number, as an integer.
spec fn digits(bits: u32) -> int {
    if exponent_field(bits) == 0 {
        fraction_field(bits)
    } else {
        fraction_field(bits) + 0x80_0000
    }
}

/// The exponent of the last digit of a finite number.
spec fn last_exponent(bits: u32) -> int {
    if exponent_field(bits) == 0 {
        -149
    } else {
        exponent_field(bits) - 150
    }
}

/// Rounds the size of a number up to an integer, if that is not much above `2^40`.
pub fn ceil_absolute(bits: u32) -> (r: Option<u64>)
    requires
        is_finite(bits),
    ensures
        match r {
            Some(n) => n == ceil(absolute(bits)) && n <= 0x200_0000_0000,
            None => ceil(absolute(bits)) > 0x100_0000_0000,
        },
{
    let b: u32 = bits % 0x8000_0000;
    let e: u32 = b / 0x80_0000;
    let f: u32 = b % 0x80_0000;
    assert(exponent_field(bits) == e && fraction_field(bits) == f);
    assert(exponent_field(b) == e && fraction_field(b) == f);
    assert(absolute(bits) == absolute(b));
    let ghost (d, x) = (digits(b), last_exponent(b));
    let ghost (m, u) = (d as real, exp2(x));
    if e <= 158 {
        proof {
            lemma_exp2_positive(x);
            lemma_exp2_monotone(x, 8);
            lemma_exp2_is_pow2(8);
            lemma2_to64();
            assert(0real <= m * u <= 0xff_ffffreal * 256real) by (nonlinear_arith)
                requires
                    0real <= m <= 0xff_ffffreal,
                    0real < u <= 256real,
            ;
        }
        Some(ceil_to_u32(b) as u64)
    } else if e >= 168 {
        proof {
            lemma_exp2_monotone(18, x);
            lemma_exp2_is_pow2(18);
            lemma2_to64();
            assert(m * u >= 0x80_0000real * 0x4_0000real) by (nonlinear_arith)
                requires
                    m >= 0x80_0000real,
                    u >= 0x4_0000real,
            ;
        }
        None
    } else {
        let p = power_of_two(e - 150);
        let s: u32 = f + 0x80_0000;
        proof {
            lemma_exp2_is_pow2((e - 150) as nat);
            if e < 167 {
                lemma_pow2_strictly_increases((e - 150) as nat, 17);
            }
            lemma2_to64();
            assert(s * p <= 0x200_0000_0000) by (nonlinear_arith)
                requires
                    s < 0x100_0000,
                    0 < p <= 0x2_0000,
            ;
            assert(m * u == (s * p) as real) by (nonlinear_arith)
                requires
                    m == s as real,
                    u == p as real,
            ;
        }
        Some((s as u128 * p) as u64)
    }
}

/// A number, or its opposite, times `size` and `2^24`.
pub open spec fn enlarged(bits: u32, size: u8, negate: bool) -> real {
    let v = if negate {
        -value(bits)
    } else {
        value(bits)
    };
    v * size as real * 0x100_0000real
}

/// Rounds a number, times `size` and `2^24`, down to an integer.
pub fn floor_enlarged(bits: u32, size: u8, negate: bool) -> (r: i128)
    requires
        is_finite(bits),
        ceil(absolute(bits)) <= 0x200_0000_0000,
    ensures
        r == enlarged(bits, size, negate).floor(),
        -0x1_0000_0000_0000_0000_0000 <= r <= 0x1_0000_0000_0000_0000_0000,
{
    let b: u32 = bits % 0x8000_0000;
    let e: u32 = b / 0x80_0000;
    let f: u32 = b % 0x80_0000;
    assert(exponent_field(bits) == e && fraction_field(bits) == f);
    let (s, t): (u32, i32) = if e == 0 {
        (f, -125)
    } else {
        (f + 0x80_0000, e as i32 - 126)
    };
    assert(s * size <= 0xff_ffff * 255) by (nonlinear_arith)
        requires
            s <= 0xff_ffff,
            size <= 255,
    ;
    let c: u64 = s as u64 * size as u64;
    let below = (bits >= 0x8000_0000) != negate;
    let ghost (m, z, u, y) = (s as real, size as real, exp2(t - 24), exp2(t as int));
    let ghost x = c as real * y;
    proof {
        lemma_exp2_adds(t - 24, 24);
        lemma_exp2_is_pow2(24);
        lemma2_to64();
        assert(absolute(bits) == m * u);
        assert(c as real == m * z) by (nonlinear_arith)
            requires
                c == s * size,
                m == s as real,
                z == size as real,
        ;
        assert((m * u) * z * 0x100_0000real == x && (-(m * u)) * z * 0x100_0000real == -x)
            by (nonlinear_arith)
            requires
                x == (m * z) * y,
                y == u * 0x100_0000real,
        ;
        assert(enlarged(bits, size, negate) == (if below {
            -x
        } else {
            x
        }));
        lemma_exp2_positive(t as int);
    }
    if t >= 0 {
        proof {
            if e >= 169 {
                lemma_exp2_monotone(19, t - 24);
                lemma_exp2_is_pow2(19);
                assert(m * u >= 0x80_0000real * 0x8_0000real) by (nonlinear_arith)
                    requires
                        m >= 0x80_0000real,
                        u >= 0x8_0000real,
                ;
            }
        }
        let p = power_of_two(t as u32);
        proof {
            lemma_exp2_is_pow2(t as nat);
            if t < 42 {
                lemma_pow2_strictly_increases(t as nat, 42);
            }
            lemma2_to64_rest();
            assert(c * p <= 0x1_0000_0000_0000_0000_0000) by (nonlinear_arith)
                requires
                    0 <= c <= 0xff_ffff * 255,
                    0 < p <= 0x400_0000_0000,
            ;
            assert(x == (c * p) as real) by (nonlinear_arith)
                requires
                    x == c as real * y,
                    y == p as real,
            ;
        }
        let n: i128 = (c as u128 * p) as i128;
        if below {
            -n
        } else {
            n
        }
    } else {
        let k: u32 = (-t) as u32;
        let (q, more): (i128, bool) = if k >= 64 {
            proof {
                lemma_exp2_monotone(t as int, -64);
                lemma_exp2_is_pow2(64);
                lemma2_to64_rest();
                let v = exp2(-64);
                let n = c as real;
                assert(0real <= n * y < 1real && (n > 0real <==> n * y > 0real)) by (
                nonlinear_arith)
                    requires
                        0real <= n <= 0xff_ffffreal * 255real,
                        0real < y <= v,
                        v * 0x1_0000_0000_0000_0000real == 1real,
                ;
            }
            (0, c > 0)
        } else {
            let p = power_of_two(k);
            proof {
                lemma_exp2_is_pow2(k as nat);
                vstd::arithmetic::div_mod::lemma_fundamental_div_mod(c as int, p as int);
                let (n, g, d, h) = (
                    c as real,
                    p as real,
                    (c as int / p as int) as real,
                    (c as int % p as int) as real,
                );
                assert((p * (c as int / p as int)) as real == g * d) by (nonlinear_arith)
                    requires
                        g == p as real,
                        d == (c as int / p as int) as real,
                ;
                assert(n * y == d + h * y) by (nonlinear_arith)
                    requires
                        y * g == 1real,
                        n == g * d + h,
                ;
                assert(0real <= h * y < 1real && (h > 0real <==> h * y > 0real)) by (
                nonlinear_arith)
                    requires
                        y * g == 1real,
                        0real <= h < g,
                        y > 0real,
                ;
                assert(0 <= c as int / p as int <= c) by (nonlinear_arith)
                    requires
                        c as int == p * (c as int / p as int) + c as int % p as int,
                        0 <= c as int % p as int,
                        p >= 1,
                        c >= 0,
                ;
            }
            ((c as u128 / p) as i128, c as u128 % p > 0)
        };
        assert(q as real <= x < q as real + 1real);
        assert(more <==> x > q as real);
        if !below {
            q
        } else if more {
            -q - 1
        } else {
            -q
        }
    }
}

} // verus!
