//! The filter kernels, evaluated in fixed point. A kernel argument and a
//! kernel value are both counted in units of `1 / FIX_ONE`.

use vstd::prelude::*;
use vstd::arithmetic::div_mod::{lemma_fundamental_div_mod, lemma_fundamental_div_mod_converse_div, lemma_fundamental_div_mod_converse_mod};
use crate::format::PILFilter;

verus! {

/// One in the fixed-point units of kernel arguments and values.
pub const FIX_ONE: i128 = 65536;
/// Pi in fixed-point units.
pub const PI_FIX: i128 = 205887;

/// Bound on the magnitudes that kernel evaluation accepts.
pub const ARG_LIMIT: i128 = 0x10_0000_0000_0000_0000_0000_0000;

/// `a / b` rounded down, on machine integers.
pub fn floor_div(a: i128, b: i128) -> (r: i128)
    requires
        b > 0,
        a > i128::MIN,
    ensures
        r == a / b,
{
    if a >= 0 {
        let q = (a as u128) / (b as u128);
        proof {
            assert(q <= a) by (nonlinear_arith)
                requires
                    q == (a as int) / (b as int),
                    a >= 0,
                    b >= 1,
            ;
        }
        q as i128
    } else {
        let m = (-a - 1) as u128;
        let q = m / (b as u128);
        proof {
            let mi = m as int;
            let bi = b as int;
            lemma_fundamental_div_mod(mi, bi);
            let rr = mi % bi;
            assert(q <= mi) by (nonlinear_arith)
                requires
                    q == mi / bi,
                    mi >= 0,
                    bi >= 1,
            ;
            assert(a == (-(q as int) - 1) * bi + (bi - rr - 1)) by (nonlinear_arith)
                requires
                    mi == bi * (q as int) + rr,
                    mi == -a - 1,
            ;
            lemma_fundamental_div_mod_converse_div(a as int, bi, -(q as int) - 1, bi - rr - 1);
        }
        -(q as i128) - 1
    }
}

pub open spec fn clamp_unit(v: int) -> int {
    if v > FIX_ONE {
        FIX_ONE as int
    } else if v < -FIX_ONE {
        -FIX_ONE
    } else {
        v
    }
}

pub open spec fn abs(v: int) -> int {
    if v < 0 {
        -v
    } else {
        v
    }
}

/// Sine of `z / FIX_ONE` radians for `0 <= z <= PI_FIX / 2`, by the series
/// up to the ninth power in nested form.
pub open spec fn sin_series(z: int) -> int {
    let f = FIX_ONE as int;
    let z2 = z * z / f;
    let a = f - z2 / 72;
    let b = f - z2 * a / (42 * f);
    let c = f - z2 * b / (20 * f);
    let e = f - z2 * c / (6 * f);
    z * e / f
}

/// `sin(pi * u / FIX_ONE)` in fixed point, for `u >= 0`: the argument is
/// folded into the first quarter period, where the series applies.
pub open spec fn sin_pi(u: int) -> int {
    let f = FIX_ONE as int;
    let r = u % (2 * f);
    let (neg, r2) = if r >= f {
        (true, r - f)
    } else {
        (false, r)
    };
    let r3 = if r2 > f / 2 {
        f - r2
    } else {
        r2
    };
    let s = clamp_unit(sin_series(r3 * PI_FIX / f));
    if neg {
        -s
    } else {
        s
    }
}

/// `sin(pi x) / (pi x)` at `x = u / FIX_ONE`, for `u >= 0`.
pub open spec fn sinc(u: int) -> int {
    if u == 0 {
        FIX_ONE as int
    } else {
        clamp_unit(sin_pi(u) * FIX_ONE * FIX_ONE / (PI_FIX * u))
    }
}

/// The kernel of `f` at the point `n / d`, in fixed point. Box and nearest
/// decide on the exact point; the others on `|n / d|` rounded down to a
/// fixed-point number.
pub open spec fn kernel_value(f: PILFilter, n: int, d: int) -> int {
    let one = FIX_ONE as int;
    let u = abs(n) * one / d;
    match f {
        PILFilter::Nearest | PILFilter::Box_ => if -d < 2 * n && 2 * n <= d {
            one
        } else {
            0
        },
        PILFilter::Bilinear => if u < one {
            one - u
        } else {
            0
        },
        PILFilter::Bicubic => if u < one {
            clamp_unit((3 * u * u * u - 5 * u * u * one + 2 * one * one * one) / (2 * one * one))
        } else if u < 2 * one {
            clamp_unit((-u * u * u + 5 * u * u * one - 8 * u * one * one + 4 * one * one * one) / (2 * one * one))
        } else {
            0
        },
        PILFilter::Hamming => if u < one {
            clamp_unit(sinc(u) * (54 * one + 46 * sin_pi(u + one / 2)) / (100 * one))
        } else {
            0
        },
        PILFilter::Lanczos => if u < 3 * one {
            clamp_unit(sinc(u) * sinc(u / 3) / one)
        } else {
            0
        },
    }
}

fn clamp_unit_exec(v: i128) -> (r: i128)
    ensures
        r == clamp_unit(v as int),
{
    if v > FIX_ONE {
        FIX_ONE
    } else if v < -FIX_ONE {
        -FIX_ONE
    } else {
        v
    }
}

fn sin_series_exec(z: i128) -> (r: i128)
    requires
        0 <= z <= PI_FIX,
    ensures
        r == sin_series(z as int),
{
    let f = FIX_ONE;
    proof {
        assert(0 <= z * z <= PI_FIX * PI_FIX) by (nonlinear_arith)
            requires
                0 <= z <= PI_FIX,
        ;
    }
    let z2 = floor_div(z * z, f);
    assert(0 <= z2 <= 700000);
    let a = f - floor_div(z2, 72);
    assert(0 <= a <= f);
    proof {
        assert(0 <= z2 * a <= 700000 * f) by (nonlinear_arith)
            requires
                0 <= z2 <= 700000,
                0 <= a <= f,
        ;
    }
    let b = f - floor_div(z2 * a, 42 * f);
    assert(-f <= b <= f);
    proof {
        assert(-700000 * f <= z2 * b <= 700000 * f) by (nonlinear_arith)
            requires
                0 <= z2 <= 700000,
                -f <= b <= f,
        ;
    }
    let c = f - floor_div(z2 * b, 20 * f);
    assert(-f <= c <= 2 * f);
    proof {
        assert(-1400000 * f <= z2 * c <= 1400000 * f) by (nonlinear_arith)
            requires
                0 <= z2 <= 700000,
                -f <= c <= 2 * f,
        ;
    }
    let e = f - floor_div(z2 * c, 6 * f);
    assert(-4 * f <= e <= 5 * f);
    proof {
        assert(-4 * f * PI_FIX <= z * e <= 5 * f * PI_FIX) by (nonlinear_arith)
            requires
                0 <= z <= PI_FIX,
                -4 * f <= e <= 5 * f,
        ;
    }
    floor_div(z * e, f)
}

fn sin_pi_exec(u: i128) -> (r: i128)
    requires
        0 <= u <= 16 * FIX_ONE,
    ensures
        r == sin_pi(u as int),
        -FIX_ONE <= r <= FIX_ONE,
{
    let f = FIX_ONE;
    let r = ((u as u128) % ((2 * f) as u128)) as i128;
    let (neg, r2) = if r >= f {
        (true, r - f)
    } else {
        (false, r)
    };
    let r3 = if r2 > f / 2 {
        f - r2
    } else {
        r2
    };
    proof {
        assert(0 <= r3 * PI_FIX <= f * PI_FIX) by (nonlinear_arith)
            requires
                0 <= r3 <= f,
        ;
        assert((r3 * PI_FIX) as int / (f as int) <= PI_FIX) by (nonlinear_arith)
            requires
                0 <= r3 * PI_FIX <= f * PI_FIX,
                f > 0,
        ;
    }
    let s = clamp_unit_exec(sin_series_exec(floor_div(r3 * PI_FIX, f)));
    if neg {
        -s
    } else {
        s
    }
}

fn sinc_exec(u: i128) -> (r: i128)
    requires
        0 <= u <= 4 * FIX_ONE,
    ensures
        r == sinc(u as int),
        -FIX_ONE <= r <= FIX_ONE,
{
    if u == 0 {
        FIX_ONE
    } else {
        let s = sin_pi_exec(u);
        proof {
            assert(-FIX_ONE * FIX_ONE * FIX_ONE <= s * FIX_ONE * FIX_ONE <= FIX_ONE * FIX_ONE * FIX_ONE) by (nonlinear_arith)
                requires
                    -FIX_ONE <= s <= FIX_ONE,
            ;
            assert(0 < PI_FIX * u <= PI_FIX * 4 * FIX_ONE) by (nonlinear_arith)
                requires
                    0 < u <= 4 * FIX_ONE,
            ;
        }
        clamp_unit_exec(floor_div(s * FIX_ONE * FIX_ONE, PI_FIX * u))
    }
}

/// Evaluates the kernel of `f` at `n / d`.
pub fn kernel_value_exec(f: PILFilter, n: i128, d: i128) -> (r: i128)
    requires
        0 < d <= ARG_LIMIT,
        -ARG_LIMIT <= n <= ARG_LIMIT,
    ensures
        r == kernel_value(f, n as int, d as int),
        -FIX_ONE <= r <= FIX_ONE,
{
    let one = FIX_ONE;
    let an = if n < 0 {
        -n
    } else {
        n
    };
    proof {
        assert(0 <= an * one <= ARG_LIMIT * one) by (nonlinear_arith)
            requires
                0 <= an <= ARG_LIMIT,
                one == FIX_ONE,
        ;
    }
    let u = floor_div(an * one, d);
    proof {
        assert(0 <= u) by (nonlinear_arith)
            requires
                u == (an * one) / (d as int),
                an * one >= 0,
                d > 0,
        ;
    }
    match f {
        PILFilter::Nearest | PILFilter::Box_ => {
            if -d < 2 * n && 2 * n <= d {
                one
            } else {
                0
            }
        },
        PILFilter::Bilinear => {
            if u < one {
                one - u
            } else {
                0
            }
        },
        PILFilter::Bicubic => {
            if u < one {
                proof {
                    assert(0 <= u * u <= one * one && 0 <= u * u * u <= one * one * one && 0 <= 3 * u * u <= 3 * one * one
                        && 0 <= 3 * u * u * u <= 3 * one * one * one && 0 <= 5 * u * u * one <= 5 * one * one * one) by (nonlinear_arith)
                        requires
                            0 <= u < one,
                            one == FIX_ONE,
                    ;
                }
                clamp_unit_exec(floor_div(3 * u * u * u - 5 * u * u * one + 2 * one * one * one, 2 * one * one))
            } else if u < 2 * one {
                proof {
                    assert(0 <= u * u <= 4 * one * one && 0 <= u * u * u <= 8 * one * one * one && 0 <= 5 * u * u * one <= 20 * one * one * one
                        && 0 <= 8 * u * one * one <= 16 * one * one * one && -8 * one * one * one <= -u * u * u <= 0 && -4 * one * one <= -u * u <= 0) by (nonlinear_arith)
                        requires
                            0 <= u < 2 * one,
                            one == FIX_ONE,
                    ;
                }
                clamp_unit_exec(floor_div(-u * u * u + 5 * u * u * one - 8 * u * one * one + 4 * one * one * one, 2 * one * one))
            } else {
                0
            }
        },
        PILFilter::Hamming => {
            if u < one {
                let s = sinc_exec(u);
                let c = sin_pi_exec(u + one / 2);
                proof {
                    assert(-100 * one * one <= s * (54 * one + 46 * c) <= 100 * one * one) by (nonlinear_arith)
                        requires
                            -one <= s <= one,
                            -one <= c <= one,
                            one > 0,
                    ;
                }
                clamp_unit_exec(floor_div(s * (54 * one + 46 * c), 100 * one))
            } else {
                0
            }
        },
        PILFilter::Lanczos => {
            if u < 3 * one {
                let s1 = sinc_exec(u);
                let s2 = sinc_exec(floor_div(u, 3));
                proof {
                    assert(-one * one <= s1 * s2 <= one * one) by (nonlinear_arith)
                        requires
                            -one <= s1 <= one,
                            -one <= s2 <= one,
                    ;
                }
                clamp_unit_exec(floor_div(s1 * s2, one))
            } else {
                0
            }
        },
    }
}

/// At a whole number of source pixels from the centre, at unit scale, every
/// kernel is positive at the centre and zero elsewhere.
pub proof fn lemma_kernel_whole(f: PILFilter, k: int, n: int)
    requires
        n >= 1,
    ensures
        k == 0 ==> 0 < kernel_value(f, 2 * k * n, 2 * n) <= FIX_ONE,
        k != 0 ==> kernel_value(f, 2 * k * n, 2 * n) == 0,
{
    let one = FIX_ONE as int;
    let kk = abs(k);
    assert(abs(2 * k * n) * one == kk * one * (2 * n)) by (nonlinear_arith)
        requires
            kk == abs(k),
            n >= 1,
    ;
    assert(kk * one >= 0) by (nonlinear_arith)
        requires
            kk >= 0,
            one == FIX_ONE,
    ;
    lemma_fundamental_div_mod_converse_div(abs(2 * k * n) * one, 2 * n, kk * one, 0);
    let u = abs(2 * k * n) * one / (2 * n);
    assert(u == kk * one);
    if k == 0 {
        assert(2 * k * n == 0) by (nonlinear_arith)
            requires
                k == 0,
        ;
        assert(sinc(0) == one);
        let s = sin_pi(u + one / 2);
        assert(-one <= s <= one);
        assert(one * (54 * one + 46 * s) >= 8 * one * one) by (nonlinear_arith)
            requires
                -one <= s,
                one == FIX_ONE,
        ;
        assert((2 * one * one * one) / (2 * one * one) == one) by (nonlinear_arith)
            requires
                one == FIX_ONE,
        ;
        assert(one * one / one == one) by (nonlinear_arith)
            requires
                one == FIX_ONE,
        ;
        assert(one * (54 * one + 46 * s) / (100 * one) > 0) by (nonlinear_arith)
            requires
                one * (54 * one + 46 * s) >= 8 * one * one,
                one == FIX_ONE,
        ;
    } else {
        assert(kk >= 1);
        assert(kk * one >= one) by (nonlinear_arith)
            requires
                kk >= 1,
                one == FIX_ONE,
        ;
        assert(!(-2 * n < 2 * (2 * k * n) && 2 * (2 * k * n) <= 2 * n)) by (nonlinear_arith)
            requires
                k != 0,
                n >= 1,
        ;
        if kk == 1 {
            assert(-u * u * u + 5 * u * u * one - 8 * u * one * one + 4 * one * one * one == 0) by (nonlinear_arith)
                requires
                    u == one,
            ;
            assert(0int / (2 * one * one) == 0);
        }
        if kk == 1 || kk == 2 {
            lemma_sin_pi_whole(kk);
            assert(sin_pi(u) == 0);
            assert(sinc(u) == 0);
        }
    }
}

/// The sine of a whole multiple of pi is exactly zero here too.
proof fn lemma_sin_pi_whole(k: int)
    requires
        1 <= k <= 2,
    ensures
        sin_pi(k * FIX_ONE) == 0,
{
    let f = FIX_ONE as int;
    if k == 1 {
        lemma_fundamental_div_mod_converse_mod(f, 2 * f, 0, f);
    } else {
        lemma_fundamental_div_mod_converse_mod(2 * f, 2 * f, 1, 0);
    }
    assert(sin_series(0) == 0);
}

} // verus!
