//! Multiply-then-divide over full 256-bit intermediate products, with the
//! quotient rounded as asked and returned when it fits a `u128`.
use vstd::arithmetic::div_mod::*;
use vstd::arithmetic::power2::*;
use vstd::prelude::*;

verus! {

/// Direction of rounding of an integer division.
#[derive(Debug, Clone, Copy, PartialEq, Eq, Structural)]
pub enum Rounding {
    /// Round towards positive infinity (ceiling).
    Up,
    /// Round towards zero (floor).
    Down,
}

/// `2^64`, the base of the 64-bit limbs used below.
pub open spec fn limb() -> int {
    0x1_0000_0000_0000_0000
}

/// `n / d` rounded in the given direction (for `n >= 0`, `d > 0`).
pub open spec fn div_rounded(n: int, d: int, rounding: Rounding) -> int {
    match rounding {
        Rounding::Down => n / d,
        Rounding::Up => (n + d - 1) / d,
    }
}

/// `2^128`, the base of the upper and lower halves of a 256-bit product.
pub open spec fn half_base() -> int {
    0x1_0000_0000_0000_0000_0000_0000_0000_0000int
}

/// `x * y / denominator` rounded as asked: `None` when `denominator` is
/// zero or the rounded quotient exceeds `u128::MAX`.
pub open spec fn mul_div_result(x: int, y: int, denominator: int, rounding: Rounding) -> Option<u128> {
    if denominator > 0 && div_rounded(x * y, denominator, rounding) <= u128::MAX {
        Some(div_rounded(x * y, denominator, rounding) as u128)
    } else {
        None
    }
}

/// `x * y / 2^offset` rounded as asked: `None` when `offset >= 128` or the
/// rounded quotient exceeds `u128::MAX`.
pub open spec fn mul_shr_result(x: int, y: int, offset: int, rounding: Rounding) -> Option<u128> {
    if offset >= 128 {
        None
    } else {
        mul_div_result(x, y, pow2(offset as nat) as int, rounding)
    }
}

/// `x * 2^offset / y` rounded as asked: `None` when `offset >= 128`, `y` is
/// zero or the rounded quotient exceeds `u128::MAX`.
pub open spec fn shl_div_result(x: int, y: int, offset: int, rounding: Rounding) -> Option<u128> {
    if offset >= 128 {
        None
    } else {
        mul_div_result(x, pow2(offset as nat) as int, y, rounding)
    }
}

/// Whether `x * y / denominator`, rounded, is defined and fits a `u64`.
pub open spec fn mul_div_fits_u64(x: int, y: int, denominator: int, rounding: Rounding) -> bool {
    denominator > 0 && div_rounded(x * y, denominator, rounding) <= u64::MAX
}

proof fn lemma_limb_product_bound(a: int, b: int)
    by (nonlinear_arith)
    requires
        0 <= a < 0x1_0000_0000_0000_0000,
        0 <= b < 0x1_0000_0000_0000_0000,
    ensures
        0 <= a * b <= 0xffff_ffff_ffff_fffe_0000_0000_0000_0001,
{
}

proof fn lemma_product_split(x: int, y: int, x1: int, x0: int, y1: int, y0: int)
    by (nonlinear_arith)
    requires
        x == x1 * 0x1_0000_0000_0000_0000 + x0,
        y == y1 * 0x1_0000_0000_0000_0000 + y0,
    ensures
        x * y == x1 * y1 * 0x1_0000_0000_0000_0000_0000_0000_0000_0000int
            + (x0 * y1 + x1 * y0) * 0x1_0000_0000_0000_0000 + x0 * y0,
{
}

proof fn lemma_product_bound(x: int, y: int)
    by (nonlinear_arith)
    requires
        0 <= x <= u128::MAX,
        0 <= y <= u128::MAX,
    ensures
        0 <= x * y < half_base() * half_base(),
{
}

/// If the upper part `t` of `p = t * scale + low` is at least `d`, then
/// `p / d`, rounded either way, is at least `scale`.
proof fn lemma_quotient_at_least(p: int, t: int, low: int, d: int, scale: int, rounding: Rounding)
    requires
        d > 0,
        scale > 0,
        t >= d,
        0 <= low,
        p == t * scale + low,
    ensures
        div_rounded(p, d, rounding) >= scale,
{
    assert(p >= d * scale) by (nonlinear_arith)
        requires
            t >= d,
            d > 0,
            scale > 0,
            low >= 0,
            p == t * scale + low,
    ;
    lemma_div_is_ordered(d * scale, p, d);
    lemma_div_multiples_vanish(scale, d);
    lemma_div_is_ordered(p, p + d - 1, d);
}

/// One step of binary long division: `n' = 2 n + bit` keeps
/// `n' == q' d + r'` with `0 <= r' < d`.
proof fn lemma_division_step(n: int, q: int, r: int, d: int, bit: int, q2: int, r2: int)
    requires
        d > 0,
        0 <= r < d,
        n == q * d + r,
        0 <= bit <= 1,
        (q2 == 2 * q + 1 && r2 == 2 * r + bit - d) || (q2 == 2 * q && r2 == 2 * r + bit),
    ensures
        2 * n + bit == q2 * d + r2,
{
    assert(2 * n + bit == q2 * d + r2) by (nonlinear_arith)
        requires
            n == q * d + r,
            (q2 == 2 * q + 1 && r2 == 2 * r + bit - d) || (q2 == 2 * q && r2 == 2 * r + bit),
    ;
}

/// Divides the two-limb number `upper * 2^64 + low` by `denominator`,
/// where `upper < denominator`, by binary long division one bit of `low`
/// at a time: returns `(quotient, remainder)`, the quotient below `2^64`.
fn div_limb(upper: u128, low: u128, denominator: u128) -> (res: (u128, u128))
    requires
        upper < denominator,
        low < limb(),
    ensures
        res.0 * denominator + res.1 == upper * limb() + low,
        res.0 < limb(),
        res.1 < denominator,
{
    let base: u128 = 0x1_0000_0000_0000_0000;
    let ghost p: int = upper * limb() + low;
    let mut q: u128 = 0;
    let mut r: u128 = upper;
    let mut rest: u128 = low;
    let mut unit: u128 = base;
    let ghost mut k: nat = 64;
    let ghost mut n: int = upper as int;
    proof {
        lemma2_to64_rest();
        assert(p < denominator * limb()) by (nonlinear_arith)
            requires
                p == upper * 0x1_0000_0000_0000_0000 + low,
                upper < denominator,
                low < 0x1_0000_0000_0000_0000,
        ;
    }
    while unit > 1
        invariant
            denominator > 0,
            unit == pow2(k),
            k <= 64,
            rest < unit,
            r < denominator,
            n == q * denominator + r,
            n * unit + rest == p,
            p < denominator * limb(),
            q * unit < limb(),
        decreases k,
    {
        proof {
            if k == 0 {
                assert(pow2(0) == 1) by { lemma2_to64(); }
            }
            lemma_pow2_unfold(k);
            lemma_pow2_pos((k - 1) as nat);
        }
        let half = unit / 2;
        let bit: u128 = if rest >= half { 1 } else { 0 };
        if bit == 1 {
            rest = rest - half;
        }
        let ghost q_old = q;
        let ghost r_old = r;
        proof {
            assert(q < 0x8000_0000_0000_0000) by (nonlinear_arith)
                requires q * unit < 0x1_0000_0000_0000_0000, unit >= 2;
        }
        let gap = denominator - r;
        if r >= gap {
            r = r - gap + bit;
            q = 2 * q + 1;
        } else {
            let doubled = r + r + bit;
            if doubled >= denominator {
                r = doubled - denominator;
                q = 2 * q + 1;
            } else {
                r = doubled;
                q = 2 * q;
            }
        }
        proof {
            lemma_division_step(n, q_old as int, r_old as int, denominator as int, bit as int, q as int, r as int);
            let n_old = n;
            n = 2 * n + bit;
            assert(n * half + rest == p) by (nonlinear_arith)
                requires
                    n == 2 * n_old + bit,
                    unit == 2 * half,
                    n_old * unit + (rest + bit * half) == p,
            ;
            assert(q * half < limb()) by (nonlinear_arith)
                requires
                    n == q * denominator + r,
                    n * half + rest == p,
                    p < denominator * 0x1_0000_0000_0000_0000,
                    r >= 0, rest >= 0, half >= 1, denominator > 0, q >= 0,
            ;
            k = (k - 1) as nat;
        }
        unit = half;
    }
    proof {
        lemma_pow2_pos(k);
        assert(unit == 1);
        assert(n * unit == n) by (nonlinear_arith) requires unit == 1;
        assert(q * unit == q) by (nonlinear_arith) requires unit == 1;
    }
    (q, r)
}

/// `x * y / denominator`, rounded as asked, computed over the full 256-bit
/// product; `None` when `denominator` is zero or the rounded quotient does
/// not fit a `u128`.
pub fn mul_div(x: u128, y: u128, denominator: u128, rounding: Rounding) -> (res: Option<u128>)
    ensures
        res == mul_div_result(x as int, y as int, denominator as int, rounding),
{
    if denominator == 0 {
        return None;
    }
    let base: u128 = 0x1_0000_0000_0000_0000;
    let x1 = x / base;
    let x0 = x % base;
    let y1 = y / base;
    let y0 = y % base;
    proof {
        assert(x1 < base) by (nonlinear_arith)
            requires x1 == x / base, base == 0x1_0000_0000_0000_0000u128, x <= u128::MAX;
        assert(y1 < base) by (nonlinear_arith)
            requires y1 == y / base, base == 0x1_0000_0000_0000_0000u128, y <= u128::MAX;
        lemma_limb_product_bound(x0 as int, y0 as int);
        lemma_limb_product_bound(x0 as int, y1 as int);
        lemma_limb_product_bound(x1 as int, y0 as int);
        lemma_limb_product_bound(x1 as int, y1 as int);
    }
    let a = x0 * y0;
    let b = x0 * y1;
    let c = x1 * y0;
    let dd = x1 * y1;
    let a1 = a / base;
    let a0 = a % base;
    let b1 = b / base;
    let b0 = b % base;
    let c1 = c / base;
    let c0 = c % base;
    let mid = a1 + b0 + c0;
    let m1 = mid / base;
    let m0 = mid % base;
    let ghost p: int = x * y;
    let ghost hi: int = dd + b1 + c1 + m1;
    proof {
        lemma_fundamental_div_mod(x as int, base as int);
        lemma_fundamental_div_mod(y as int, base as int);
        lemma_fundamental_div_mod(a as int, base as int);
        lemma_fundamental_div_mod(b as int, base as int);
        lemma_fundamental_div_mod(c as int, base as int);
        lemma_fundamental_div_mod(mid as int, base as int);
        lemma_product_split(x as int, y as int, x1 as int, x0 as int, y1 as int, y0 as int);
        lemma_product_bound(x as int, y as int);
        assert(p == hi * half_base() + m0 * limb() + a0);
        assert(hi < half_base());
    }
    let high = dd + b1 + c1 + m1;
    if high >= denominator {
        proof {
            lemma_quotient_at_least(p, hi, m0 * limb() + a0, denominator as int, half_base(), rounding);
        }
        return None;
    }
    let (q_high, r_high) = div_limb(high, m0, denominator);
    let (q_low, r) = div_limb(r_high, a0, denominator);
    proof {
        assert(p == (q_high * limb() + q_low) * denominator + r) by (nonlinear_arith)
            requires
                p == hi * half_base() + m0 * 0x1_0000_0000_0000_0000 + a0,
                hi == high,
                q_high * denominator + r_high == high * 0x1_0000_0000_0000_0000 + m0,
                q_low * denominator + r == r_high * 0x1_0000_0000_0000_0000 + a0,
        ;
    }
    let q = q_high * base + q_low;
    proof {
        lemma_fundamental_div_mod_converse(p, denominator as int, q as int, r as int);
    }
    match rounding {
        Rounding::Down => Some(q),
        Rounding::Up => {
            if r > 0 {
                proof {
                    assert(p + denominator - 1 == (q + 1) * denominator + (r - 1)) by (nonlinear_arith)
                        requires q * denominator + r == p;
                    lemma_fundamental_div_mod_converse(
                        p + denominator - 1, denominator as int, q + 1, r - 1);
                }
                if q == u128::MAX {
                    None
                } else {
                    Some(q + 1)
                }
            } else {
                proof {
                    lemma_fundamental_div_mod_converse(
                        p + denominator - 1, denominator as int, q as int, denominator - 1);
                }
                Some(q)
            }
        }
    }
}

/// `2^offset` as a `u128` (`offset < 128`).
fn pow2_u128(offset: u8) -> (res: u128)
    requires
        offset < 128,
    ensures
        res == pow2(offset as nat),
{
    let mut res: u128 = 1;
    let mut i: u8 = 0;
    proof {
        lemma2_to64();
    }
    while i < offset
        invariant
            i <= offset < 128,
            res == pow2(i as nat),
        decreases offset - i,
    {
        proof {
            lemma_pow2_unfold((i + 1) as nat);
            lemma_pow2_strictly_increases((i + 1) as nat, 128);
            assert(pow2(128) == 0x1_0000_0000_0000_0000_0000_0000_0000_0000) by {
                lemma_pow2_adds(64, 64);
                lemma2_to64_rest();
            }
        }
        res = res * 2;
        i = i + 1;
    }
    res
}

/// `x * y / 2^offset`, rounded as asked; `None` when `offset >= 128` or
/// the rounded quotient does not fit a `u128`.
pub fn mul_shr(x: u128, y: u128, offset: u8, rounding: Rounding) -> (res: Option<u128>)
    ensures
        res == mul_shr_result(x as int, y as int, offset as int, rounding),
{
    if offset >= 128 {
        return None;
    }
    let denominator = pow2_u128(offset);
    mul_div(x, y, denominator, rounding)
}

/// `x * 2^offset / y`, rounded as asked; `None` when `offset >= 128`, `y`
/// is zero or the rounded quotient does not fit a `u128`.
pub fn shl_div(x: u128, y: u128, offset: u8, rounding: Rounding) -> (res: Option<u128>)
    ensures
        res == shl_div_result(x as int, y as int, offset as int, rounding),
{
    if offset >= 128 {
        return None;
    }
    let scale = pow2_u128(offset);
    mul_div(x, scale, y, rounding)
}

} // verus!
