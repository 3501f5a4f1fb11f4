//! Single-precision numbers as their bit patterns, and the decimal text a
//! kernel source carries them in.

use vstd::arithmetic::{power, power2};
use vstd::prelude::*;

use crate::text::{self, decimal_text};

verus! {

/// The biased exponent field.
pub open spec fn exponent(bits: u32) -> nat {
    (bits as nat / 0x80_0000) % 0x100
}

/// The fraction field.
pub open spec fn fraction(bits: u32) -> nat {
    bits as nat % 0x80_0000
}

pub open spec fn is_negative(bits: u32) -> bool {
    bits >= 0x8000_0000
}

/// The integer `m` of a finite value's magnitude `m * 2^e`.
pub open spec fn significand(bits: u32) -> nat {
    if exponent(bits) == 0 {
        fraction(bits)
    } else {
        fraction(bits) + 0x80_0000
    }
}

/// The `e` of a finite value's magnitude `m * 2^e`.
pub open spec fn scale(bits: u32) -> int {
    if exponent(bits) == 0 {
        -149
    } else {
        exponent(bits) - 150
    }
}

/// The integer nearest to `num / den`, the even one of two equally near.
pub open spec fn nearest(num: nat, den: nat) -> nat {
    let (q, r) = (num / den, num % den);
    if 2 * r > den || (2 * r == den && q % 2 == 1) {
        q + 1
    } else {
        q
    }
}

/// A finite magnitude in units of `10^-digits`, rounded to the nearest.
pub open spec fn in_units(bits: u32, digits: nat) -> nat {
    let unit = power::pow(10, digits) as nat;
    if scale(bits) >= 0 {
        significand(bits) * power2::pow2(scale(bits) as nat) * unit
    } else {
        nearest(significand(bits) * unit, power2::pow2((-scale(bits)) as nat))
    }
}

/// The last `width` decimal digits of `n`.
pub open spec fn padded(n: nat, width: nat) -> Seq<char>
    decreases width,
{
    if width == 0 {
        Seq::empty()
    } else {
        padded(n / 10, (width - 1) as nat).push(text::digit(n % 10))
    }
}

/// The value with exactly `digits` decimals.
pub open spec fn fixed(bits: u32, digits: nat) -> Seq<char> {
    let sign = if is_negative(bits) {
        "-"@
    } else {
        Seq::empty()
    };
    if exponent(bits) == 0xff {
        if fraction(bits) != 0 {
            "NaN"@
        } else {
            sign + "inf"@
        }
    } else {
        let units = in_units(bits, digits);
        let one = power::pow(10, digits) as nat;
        sign + text::decimal(units / one) + "."@ + padded(units % one, digits)
    }
}

/// `2^k`.
fn two_to(k: u32) -> (p: u128)
    requires
        k < 128,
    ensures
        p == power2::pow2(k as nat),
{
    let mut p: u128 = 1;
    let mut i: u32 = 0;
    proof {
        power2::lemma2_to64();
        power2::lemma2_to64_rest();
        power2::lemma_pow2_adds(64, 64);
    }
    while i < k
        invariant
            i <= k < 128,
            p == power2::pow2(i as nat),
            power2::pow2(128) == 0x1_0000_0000_0000_0000int * 0x1_0000_0000_0000_0000int,
        decreases k - i,
    {
        proof {
            power2::lemma_pow2_unfold((i + 1) as nat);
            if i + 1 < 128 {
                power2::lemma_pow2_strictly_increases((i + 1) as nat, 128);
            }
        }
        p = p * 2;
        i = i + 1;
    }
    p
}

/// `10^digits`.
fn ten_to(digits: usize) -> (p: u128)
    requires
        digits <= 12,
    ensures
        p == power::pow(10, digits as nat),
        1 <= p <= 1_000_000_000_000,
{
    let mut p: u128 = 1;
    let mut i: usize = 0;
    proof {
        power::lemma_pow0(10);
    }
    while i < digits
        invariant
            i <= digits <= 12,
            p == power::pow(10, i as nat),
            1 <= p,
            i == 0 ==> p <= 1,
            i == 1 ==> p <= 10,
            i == 2 ==> p <= 100,
            i == 3 ==> p <= 1_000,
            i == 4 ==> p <= 10_000,
            i == 5 ==> p <= 100_000,
            i == 6 ==> p <= 1_000_000,
            i == 7 ==> p <= 10_000_000,
            i == 8 ==> p <= 100_000_000,
            i == 9 ==> p <= 1_000_000_000,
            i == 10 ==> p <= 10_000_000_000,
            i == 11 ==> p <= 100_000_000_000,
            p <= 1_000_000_000_000,
        decreases digits - i,
    {
        proof {
            power::lemma_pow_adds(10, i as nat, 1);
            power::lemma_pow1(10);
        }
        p = p * 10;
        i = i + 1;
    }
    p
}

/// The last `width` decimal digits of `n`.
fn padded_text(n: u128, width: usize) -> (s: String)
    ensures
        s@ == padded(n as nat, width as nat),
    decreases width,
{
    if width == 0 {
        String::new()
    } else {
        let mut s = padded_text(n / 10, width - 1);
        s.push(((n % 10) as u8 + 48) as char);
        s
    }
}

/// A finite magnitude in units of `10^-digits`, as its whole and its last
/// `digits` decimals.
fn split_units(bits: u32, digits: usize) -> (parts: (u128, u128))
    requires
        exponent(bits) < 0xff,
        digits <= 12,
    ensures
        parts.0 == in_units(bits, digits as nat) / power::pow(10, digits as nat) as nat,
        parts.1 == in_units(bits, digits as nat) % power::pow(10, digits as nat) as nat,
{
    let field: u32 = (bits / 0x80_0000) % 0x100;
    let low: u32 = bits % 0x80_0000;
    let m: u128 = if field == 0 {
        low as u128
    } else {
        (low + 0x80_0000) as u128
    };
    let unit = ten_to(digits);
    assert(m == significand(bits));
    if field >= 150 {
        let up = two_to(field - 150);
        proof {
            power2::lemma2_to64();
            power2::lemma2_to64_rest();
            power2::lemma_pow2_adds(64, 40);
            let e = scale(bits) as nat;
            power2::lemma_pow2_pos(e);
            if e < 104 {
                power2::lemma_pow2_strictly_increases(e, 104);
            }
            assert(m * up < 0x100_0000 * power2::pow2(104)) by (nonlinear_arith)
                requires
                    m < 0x100_0000,
                    up <= power2::pow2(104),
                    0 < up,
            ;
            assert(0x100_0000 * power2::pow2(104) == 0x1_0000_0000_0000_0000int * 0x1_0000_0000_0000_0000int);
        }
        let whole = m * up;
        proof {
            let units = in_units(bits, digits as nat);
            assert(units == whole * unit);
            vstd::arithmetic::div_mod::lemma_fundamental_div_mod_converse(
                units as int,
                unit as int,
                whole as int,
                0,
            );
        }
        (whole, 0)
    } else {
        let k: u32 = if field == 0 {
            149
        } else {
            150 - field
        };
        assert(m * unit <= 0x100_0000 * 1_000_000_000_000) by (nonlinear_arith)
            requires
                m < 0x100_0000,
                unit <= 1_000_000_000_000,
        ;
        let n = m * unit;
        assert(k == -scale(bits));
        if k >= 66 {
            proof {
                power2::lemma2_to64_rest();
                power2::lemma_pow2_adds(64, 2);
                power2::lemma2_to64();
                if k > 66 {
                    power2::lemma_pow2_strictly_increases(66, k as nat);
                }
                let den = power2::pow2(k as nat) as int;
                vstd::arithmetic::div_mod::lemma_fundamental_div_mod_converse(n as int, den, 0, n as int);
                assert(in_units(bits, digits as nat) == 0);
                vstd::arithmetic::div_mod::lemma_fundamental_div_mod_converse(0, unit as int, 0, 0);
            }
            (0, 0)
        } else {
            let den = two_to(k);
            proof {
                power2::lemma_pow2_pos(k as nat);
            }
            let q = n / den;
            let r = n % den;
            proof {
                power2::lemma2_to64();
                power2::lemma2_to64_rest();
                power2::lemma_pow2_adds(64, 1);
                if k < 65 {
                    power2::lemma_pow2_strictly_increases(k as nat, 65);
                }
            }
            assert(r < den);
            assert(q <= n) by (nonlinear_arith)
                requires
                    q == n / den,
                    den >= 1,
            ;
            let units = if 2 * r > den || (2 * r == den && q % 2 == 1) {
                q + 1
            } else {
                q
            };
            assert(units == in_units(bits, digits as nat));
            (units / unit, units % unit)
        }
    }
}

/// The value with exactly `digits` decimals, rounded to the nearest and to the
/// even one of two.
pub fn fixed_text(bits: u32, digits: usize) -> (s: String)
    requires
        1 <= digits <= 12,
    ensures
        s@ == fixed(bits, digits as nat),
{
    let field: u32 = (bits / 0x80_0000) % 0x100;
    let low: u32 = bits % 0x80_0000;
    if field == 0xff && low != 0 {
        return "NaN".to_owned();
    }
    let mut s = String::new();
    if bits >= 0x8000_0000 {
        s.append("-");
        assert(s@ =~= "-"@);
    }
    if field == 0xff {
        s.append("inf");
        return s;
    }
    let (whole, rest) = split_units(bits, digits);
    s.append(decimal_text(whole).as_str());
    s.append(".");
    s.append(padded_text(rest, digits).as_str());
    s
}

/// Binary digits of `n`.
pub open spec fn bit_len(n: nat) -> nat
    decreases n,
{
    if n == 0 {
        0
    } else {
        1 + bit_len(n / 2)
    }
}

/// A magnitude `m * 2^e` whose significand has 24 bits, where rounding may
/// have carried it one past them.
pub open spec fn carried(m: nat, e: int) -> (nat, int) {
    if m == 0x100_0000 {
        (0x80_0000, e + 1)
    } else {
        (m, e)
    }
}

/// The significand and scale of the number nearest to a positive integer.
pub open spec fn single_of(n: nat) -> (nat, int) {
    let k = bit_len(n);
    if k <= 24 {
        (n * power2::pow2((24 - k) as nat), k - 24)
    } else {
        carried(nearest(n, power2::pow2((k - 24) as nat)), k - 24)
    }
}

/// `r` is the integer nearest to the square root of `w`.
pub open spec fn is_root(r: nat, w: nat) -> bool {
    (2 * r - 1) * (2 * r - 1) < 4 * w < (2 * r + 1) * (2 * r + 1)
}

pub open spec fn root(w: nat) -> nat {
    choose|r: nat| r > 0 && is_root(r, w)
}

/// The nearest number to the square root of one.
pub open spec fn root_of(s: (nat, int)) -> (nat, int) {
    if s.1 % 2 == 0 {
        carried(root(s.0 * 0x100_0000), (s.1 - 24) / 2)
    } else {
        carried(root(s.0 * 0x80_0000), (s.1 - 23) / 2)
    }
}

/// The nearest number to the reciprocal of one.
pub open spec fn inverse_of(s: (nat, int)) -> (nat, int) {
    carried(nearest(0x8000_0000_0000, s.0), -47 - s.1)
}

/// The bit pattern of a positive normal number.
pub open spec fn bits_of(s: (nat, int)) -> int {
    (s.1 + 150) * 0x80_0000 + s.0 - 0x80_0000
}

/// The bit pattern of `1 / sqrt(n)` as three roundings give it: of `n`, of its
/// root, and of the root's reciprocal. Infinity for zero.
pub open spec fn inverse_root(n: nat) -> int {
    if n == 0 {
        0x7f80_0000
    } else {
        bits_of(inverse_of(root_of(single_of(n))))
    }
}

proof fn lemma_bit_len(n: nat)
    requires
        n > 0,
    ensures
        bit_len(n) > 0,
        power2::pow2((bit_len(n) - 1) as nat) <= n < power2::pow2(bit_len(n)),
    decreases n,
{
    power2::lemma2_to64();
    if n / 2 == 0 {
        assert(n == 1);
        assert(bit_len(0) == 0);
    } else {
        lemma_bit_len(n / 2);
        power2::lemma_pow2_unfold(bit_len(n));
        power2::lemma_pow2_unfold(bit_len(n / 2));
    }
}

proof fn lemma_root_unique(a: nat, b: nat, w: nat)
    requires
        a > 0,
        b > 0,
        is_root(a, w),
        is_root(b, w),
    ensures
        a == b,
{
    if a < b {
        assert((2 * a + 1) * (2 * a + 1) <= (2 * b - 1) * (2 * b - 1)) by (nonlinear_arith)
            requires
                0 < a < b,
        ;
    } else if b < a {
        assert((2 * b + 1) * (2 * b + 1) <= (2 * a - 1) * (2 * a - 1)) by (nonlinear_arith)
            requires
                0 < b < a,
        ;
    }
}

fn bit_length(n: u128) -> (k: u32)
    requires
        n <= 0xffff_ffff_ffff_ffff,
    ensures
        k == bit_len(n as nat),
        k <= 64,
{
    let mut k: u32 = 0;
    let mut rest: u128 = n;
    proof {
        power2::lemma2_to64();
        power2::lemma2_to64_rest();
        if n > 0 {
            lemma_bit_len(n as nat);
            if bit_len(n as nat) > 65 {
                power2::lemma_pow2_strictly_increases(64, (bit_len(n as nat) - 1) as nat);
            }
        }
    }
    while rest > 0
        invariant
            k + bit_len(rest as nat) == bit_len(n as nat),
            bit_len(n as nat) <= 64,
        decreases rest,
    {
        assert(bit_len(rest as nat) == 1 + bit_len((rest / 2) as nat));
        rest = rest / 2;
        k = k + 1;
    }
    k
}

/// The integer nearest to a fraction.
pub fn nearest_to(num: u128, den: u128) -> (q: u128)
    requires
        0 < den < 0x1_0000_0000_0000_0000,
        num < 0x1_0000_0000_0000_0000,
    ensures
        q == nearest(num as nat, den as nat),
{
    let q: u128 = num / den;
    let r: u128 = num % den;
    assert(q <= num) by (nonlinear_arith)
        requires
            q == num / den,
            den >= 1,
    ;
    if 2 * r > den || (2 * r == den && q % 2 == 1) {
        q + 1
    } else {
        q
    }
}

/// The integer nearest to a square root of 24 bits.
fn nearest_root(w: u128) -> (r: u128)
    requires
        0x4000_0000_0000 <= w < 0x1_0000_0000_0000,
    ensures
        r == root(w as nat),
        0x80_0000 <= r <= 0x100_0000,
{
    let mut lo: u128 = 0x80_0000;
    let mut hi: u128 = 0x100_0000;
    while hi - lo > 1
        invariant
            0x80_0000 <= lo < hi <= 0x100_0000,
            lo * lo <= w < hi * hi,
            w < 0x1_0000_0000_0000,
        decreases hi - lo,
    {
        let mid: u128 = lo + (hi - lo) / 2;
        assert(mid * mid <= 0x1_0000_0000_0000) by (nonlinear_arith)
            requires
                mid <= 0x100_0000,
        ;
        if mid * mid <= w {
            lo = mid;
        } else {
            hi = mid;
        }
    }
    assert(hi == lo + 1);
    assert((2 * lo + 1) * (2 * lo + 1) == 4 * (lo * lo) + 4 * lo + 1) by (nonlinear_arith);
    assert((2 * lo - 1) * (2 * lo - 1) == 4 * (lo * lo) - 4 * lo + 1) by (nonlinear_arith);
    assert(hi * hi == lo * lo + 2 * lo + 1) by (nonlinear_arith)
        requires
            hi == lo + 1,
    ;
    assert((2 * hi - 1) * (2 * hi - 1) == (2 * lo + 1) * (2 * lo + 1)) by (nonlinear_arith)
        requires
            hi == lo + 1,
    ;
    assert((2 * hi + 1) * (2 * hi + 1) == 4 * (hi * hi) + 4 * hi + 1) by (nonlinear_arith);
    assert(lo * lo <= 0x1_0000_0000_0000);
    let past: bool = 4 * w > 4 * (lo * lo) + 4 * lo + 1;
    let r: u128 = if past {
        hi
    } else {
        lo
    };
    proof {
        assert(is_root(r as nat, w as nat));
        lemma_root_unique(r as nat, root(w as nat), w as nat);
    }
    r
}

/// The significand and the bias-free scale of the number nearest to `n`.
fn single_from(n: u128) -> (s: (u128, i64))
    requires
        0 < n <= 0xffff_ffff_ffff_ffff,
    ensures
        s.0 == single_of(n as nat).0,
        s.1 == single_of(n as nat).1,
        0x80_0000 <= s.0 < 0x100_0000,
        -23 <= s.1 <= 41,
{
    let k = bit_length(n);
    proof {
        lemma_bit_len(n as nat);
        power2::lemma2_to64();
        power2::lemma2_to64_rest();
    }
    if k <= 24 {
        let up = two_to(24 - k);
        proof {
            power2::lemma_pow2_adds((k - 1) as nat, (24 - k) as nat);
            power2::lemma_pow2_adds(k as nat, (24 - k) as nat);
            power2::lemma_pow2_pos((24 - k) as nat);
            assert(power2::pow2((k - 1) as nat) * up <= n * up) by (nonlinear_arith)
                requires
                    power2::pow2((k - 1) as nat) <= n,
                    0 < up,
            ;
            assert(n * up < power2::pow2(k as nat) * up) by (nonlinear_arith)
                requires
                    n < power2::pow2(k as nat),
                    0 < up,
            ;
        }
        (n * up, k as i64 - 24)
    } else {
        let down = two_to(k - 24);
        proof {
            power2::lemma_pow2_adds((k - 24) as nat, 23);
            power2::lemma_pow2_adds((k - 24) as nat, 24);
            power2::lemma_pow2_pos((k - 24) as nat);
            if k < 64 {
                power2::lemma_pow2_strictly_increases((k - 24) as nat, 64);
            }
            if k == 64 {
                power2::lemma_pow2_strictly_increases(40, 64);
            }
        }
        let m = nearest_to(n, down);
        assert(0x80_0000 <= n / down < 0x100_0000) by (nonlinear_arith)
            requires
                down * 0x80_0000 <= n,
                n < down * 0x100_0000,
                0 < down,
        ;
        if m == 0x100_0000 {
            (0x80_0000, k as i64 - 23)
        } else {
            (m, k as i64 - 24)
        }
    }
}

/// The bit pattern of `1 / sqrt(n)`, rounded as single precision rounds the
/// integer, its root and the reciprocal.
pub fn inverse_root_bits(n: usize) -> (bits: u32)
    ensures
        bits == inverse_root(n as nat),
{
    if n == 0 {
        return 0x7f80_0000;
    }
    let (m, e) = single_from(n as u128);
    let even: bool = (e + 24) % 2 == 0;
    let (w, f): (u128, i64) = if even {
        (m * 0x100_0000, e - 24)
    } else {
        (m * 0x80_0000, e - 23)
    };
    let r = nearest_root(w);
    let half: i64 = (f + 48) / 2 - 24;
    let (rm, re): (u128, i64) = if r == 0x100_0000 {
        (0x80_0000, half + 1)
    } else {
        (r, half)
    };
    assert((rm as nat, re as int) == root_of(single_of(n as nat)));
    let q = nearest_to(0x8000_0000_0000, rm);
    assert(0x80_0000 <= 0x8000_0000_0000int / rm as int <= 0x100_0000) by (nonlinear_arith)
        requires
            0x80_0000 <= rm < 0x100_0000,
    ;
    proof {
        if 0x8000_0000_0000int / rm as int == 0x100_0000 {
            assert(rm == 0x80_0000) by (nonlinear_arith)
                requires
                    0x8000_0000_0000int / rm as int == 0x100_0000,
                    0x80_0000 <= rm < 0x100_0000,
            ;
        }
    }
    let (im, ie): (u128, i64) = if q == 0x100_0000 {
        (0x80_0000, -46 - re)
    } else {
        (q, -47 - re)
    };
    assert((im as nat, ie as int) == inverse_of((rm as nat, re as int)));
    ((ie + 150) * 0x80_0000 + im as i64 - 0x80_0000) as u32
}

/// The nearest integer is within half of the quotient, and even where two are as near.
pub proof fn the_nearest_is_within_half(num: nat, den: nat)
    requires
        den > 0,
    ensures
        2 * num <= (2 * nearest(num, den) + 1) * den,
        (2 * nearest(num, den) - 1) * den <= 2 * num,
        2 * num == (2 * nearest(num, den) + 1) * den || 2 * num == (2 * nearest(num, den) - 1) * den
            ==> nearest(num, den) % 2 == 0,
{
    let (q, r) = (num / den, num % den);
    vstd::arithmetic::div_mod::lemma_fundamental_div_mod(num as int, den as int);
    assert(num == q * den + r) by (nonlinear_arith)
        requires
            num == den * q + r,
    ;
    assert((2 * q + 1) * den == 2 * (q * den) + den && (2 * (q + 1) + 1) * den == 2 * (q * den) + 3
        * den && (2 * q - 1) * den == 2 * (q * den) - den) by (nonlinear_arith);
}

} // verus!
