//! Whole numbers and quotients as single precision holds them: with 24 binary digits, rounded to the
//! nearest such number, and to the even one halfway.

use vstd::prelude::*;

verus! {

/// The quotient of two numbers, rounded to the nearest whole number, and to the even one halfway.
pub open spec fn halves_to_even(p: int, q: int) -> int {
    let f = p / q;
    let r = p % q;
    if 2 * r < q || (2 * r == q && f % 2 == 0) {
        f
    } else {
        f + 1
    }
}

/// The multiple of a power of two that single precision holds for a whole number, where `unit` or a
/// larger power of two is the distance of such numbers.
pub open spec fn held(n: int, unit: int) -> int
    decreases n - unit,
{
    if 0 < unit && 0x100_0000 * unit <= n {
        held(n, 2 * unit)
    } else {
        halves_to_even(n, unit) * unit
    }
}

/// The number that single precision holds for a whole number that is not negative.
pub open spec fn in_single(n: int) -> int {
    held(n, 1)
}

/// The number that single precision holds for the quotient of two numbers, as a fraction.
pub open spec fn nearest_quotient(p: int, q: int) -> (int, int)
    decreases
            (if p < 0x80_0000 * q {
                0x80_0000 * q - p
            } else if 0x100_0000 * q <= p {
                p - q
            } else {
                0
            }),
{
    if p <= 0 || q <= 0 {
        (0, 1)
    } else if p < 0x80_0000 * q {
        let (a, b) = nearest_quotient(2 * p, q);
        (a, 2 * b)
    } else if 0x100_0000 * q <= p {
        let (a, b) = nearest_quotient(p, 2 * q);
        (2 * a, b)
    } else {
        (halves_to_even(p, q), 1)
    }
}

/// A fraction that is not negative, rounded to the nearest whole number, and upwards halfway.
pub open spec fn rounded(v: (int, int)) -> int {
    (2 * v.0 + v.1) / (2 * v.1)
}

/// A number brought into the range of 32 bits.
pub open spec fn saturated(n: int) -> int {
    if n < i32::MIN {
        i32::MIN as int
    } else if n > i32::MAX {
        i32::MAX as int
    } else {
        n
    }
}

/// Three quarters of a length in single precision, rounded to the nearest whole number.
pub open spec fn three_quarters(length: int) -> int {
    saturated(rounded(nearest_quotient(3 * in_single(length), 4)))
}

/// The quotient of two numbers in single precision, rounded to the nearest whole number, and away
/// from zero halfway.
pub open spec fn rounded_ratio(n: int, d: int) -> int {
    if n >= 0 {
        saturated(rounded(nearest_quotient(in_single(n), in_single(d))))
    } else {
        saturated(-rounded(nearest_quotient(in_single(-n), in_single(d))))
    }
}

fn round_to_even(p: u64, q: u64) -> (r: u64)
    requires
        0 < q <= 0x1_0000_0000_0000,
        p <= 0x200_0000_0000_0000,
    ensures
        r == halves_to_even(p as int, q as int),
        r * q <= p + q,
        q <= p ==> 0 < r,
        q == 1 ==> r == p,
{
    let f: u64 = p / q;
    let rest: u64 = p % q;
    proof {
        vstd::arithmetic::div_mod::lemma_fundamental_div_mod(p as int, q as int);
        assert(f * q == q * f) by (nonlinear_arith);
        assert((f + 1) * q == q * f + q) by (nonlinear_arith);
        if q <= p {
            assert(0 < f) by (nonlinear_arith)
                requires
                    p == q * f + rest,
                    rest < q <= p,
                    0 < q,
            ;
        }
    }
    if 2 * rest < q || (2 * rest == q && f % 2 == 0) {
        f
    } else {
        f + 1
    }
}

fn held_by(n: u64, unit: u64) -> (r: u64)
    requires
        0 < unit,
        unit == 1 || unit <= n,
        n <= 0x1_0000_0000,
    ensures
        r == held(n as int, unit as int),
        r <= 2 * n,
        0 < n ==> 0 < r,
    decreases n - unit,
{
    if 0x100_0000 <= n / unit {
        proof {
            assert(0x100_0000 * unit <= n) by (nonlinear_arith)
                requires
                    0x100_0000 <= n / unit,
                    0 < unit,
            ;
        }
        held_by(n, 2 * unit)
    } else {
        proof {
            assert(n < 0x100_0000 * unit) by (nonlinear_arith)
                requires
                    n / unit < 0x100_0000,
                    0 < unit,
            ;
        }
        let m: u64 = round_to_even(n, unit);
        proof {
            assert(0 < m && 0 < unit ==> 0 < m * unit) by (nonlinear_arith);
        }
        m * unit
    }
}

/// The number that single precision holds for a whole number.
pub fn held_in_single(n: u32) -> (r: u64)
    ensures
        r == in_single(n as int),
        r <= 2 * n,
        0 < n ==> 0 < r,
{
    held_by(n as u64, 1)
}

fn quotient_of(p: u64, q: u64) -> (r: (u64, u64))
    requires
        0 < p,
        0 < q <= 0x2_0000_0000,
        p <= 0x8_0000_0000 || p < 0x100_0000 * q,
    ensures
        (r.0 as int, r.1 as int) == nearest_quotient(p as int, q as int),
        r.0 <= 2 * p + 0x100_0000,
        0 < r.1,
        p < 0x100_0000 * q ==> r.0 <= 0x100_0000 && r.1 * p < 0x100_0000 * q,
        0x80_0000 * q <= p ==> r.1 == 1 && r.0 * q <= 2 * p,
    decreases
            (if p < 0x80_0000 * q {
                0x80_0000 * q - p
            } else if 0x100_0000 * q <= p {
                p - q
            } else {
                0
            }),
{
    if p < 0x80_0000 * q {
        let (a, b) = quotient_of(2 * p, q);
        proof {
            assert(b * (2 * p) == (2 * b) * p) by (nonlinear_arith);
            assert(b <= b * p) by (nonlinear_arith)
                requires
                    0 < p,
                    0 < b,
            ;
            assert(2 * b <= (2 * b) * p) by (nonlinear_arith)
                requires
                    0 < p,
                    0 < b,
            ;
        }
        (a, 2 * b)
    } else if 0x100_0000 * q <= p {
        let (a, b) = quotient_of(p, 2 * q);
        proof {
            assert(a * (2 * q) == (2 * a) * q) by (nonlinear_arith);
            assert(2 * a <= (2 * a) * q) by (nonlinear_arith)
                requires
                    0 < q,
            ;
        }
        (2 * a, b)
    } else {
        let m: u64 = round_to_even(p, q);
        proof {
            assert(m <= 0x100_0000) by (nonlinear_arith)
                requires
                    m * q <= p + q,
                    p < 0x100_0000 * q,
                    0 < q,
            ;
        }
        (m, 1)
    }
}

proof fn lemma_zero_quotient(q: int)
    ensures
        rounded(nearest_quotient(0, q)) == 0,
{
    vstd::arithmetic::div_mod::lemma_fundamental_div_mod_converse(
        2 * nearest_quotient(0, q).0 + nearest_quotient(0, q).1,
        2 * nearest_quotient(0, q).1,
        0,
        1,
    );
}

fn round_quotient(p: u64, q: u64) -> (r: u64)
    requires
        p <= 0x8_0000_0000,
        0 < q <= 0x2_0000_0000,
    ensures
        r == rounded(nearest_quotient(p as int, q as int)),
{
    if p == 0 {
        proof {
            lemma_zero_quotient(q as int);
        }
        return 0;
    }
    let (a, b) = quotient_of(p, q);
    proof {
        if p < 0x100_0000 * q {
            assert(b < 0x100_0000 * q) by (nonlinear_arith)
                requires
                    b * p < 0x100_0000 * q,
                    0 < p,
                    0 < b,
            ;
        }
    }
    (2 * a + b) / (2 * b)
}

/// Three quarters of a length in single precision, rounded to the nearest whole number.
pub fn three_quarters_of(length: u32) -> (r: i32)
    ensures
        r == three_quarters(length as int),
{
    let v: u64 = round_quotient(3 * held_in_single(length), 4);
    if v > i32::MAX as u64 {
        i32::MAX
    } else {
        v as i32
    }
}

/// The quotient of two numbers in single precision, rounded to the nearest whole number, and away
/// from zero halfway.
pub fn round_ratio(n: i32, d: u32) -> (r: i32)
    requires
        0 < d,
    ensures
        r == rounded_ratio(n as int, d as int),
{
    let m: u32 = if n >= 0 {
        n as u32
    } else {
        (-(n as i64)) as u32
    };
    let v: u64 = round_quotient(held_in_single(m), held_in_single(d));
    if n >= 0 {
        if v > i32::MAX as u64 {
            i32::MAX
        } else {
            v as i32
        }
    } else if v > 0x8000_0000 {
        i32::MIN
    } else {
        (-(v as i64)) as i32
    }
}

proof fn lemma_small_numbers_are_held(n: int)
    requires
        0 <= n <= 0x100_0000,
    ensures
        in_single(n) == n,
{
    if n == 0x100_0000 {
        assert(held(n, 2) == halves_to_even(n, 2) * 2);
    }
}

/// A quotient that is a whole number with 24 binary digits is held as it is.
proof fn lemma_whole_quotient(m: int, q: int)
    requires
        0 < m <= 0x100_0000,
        0 < q,
    ensures
        nearest_quotient(m * q, q).1 > 0,
        nearest_quotient(m * q, q).0 == m * nearest_quotient(m * q, q).1,
    decreases 0x100_0000 - m,
{
    assert(0 < m * q) by (nonlinear_arith)
        requires
            0 < m,
            0 < q,
    ;
    assert(m * q < 0x80_0000 * q <==> m < 0x80_0000) by (nonlinear_arith)
        requires
            0 < q,
    ;
    assert(0x100_0000 * q <= m * q <==> 0x100_0000 <= m) by (nonlinear_arith)
        requires
            0 < q,
    ;
    if m < 0x80_0000 {
        lemma_whole_quotient(2 * m, q);
        assert(2 * (m * q) == (2 * m) * q) by (nonlinear_arith);
        let (a, b) = nearest_quotient(2 * (m * q), q);
        assert(a == m * (2 * b)) by (nonlinear_arith)
            requires
                a == (2 * m) * b,
        ;
    } else if m < 0x100_0000 {
        lemma_exact_division(m, q);
    } else {
        lemma_exact_division(0x80_0000, 2 * q);
        assert(m * q == 0x80_0000 * (2 * q)) by (nonlinear_arith)
            requires
                m == 0x100_0000,
        ;
        assert(nearest_quotient(m * q, 2 * q) == (0x80_0000int, 1int));
    }
}

proof fn lemma_exact_division(m: int, q: int)
    requires
        0 < q,
    ensures
        halves_to_even(m * q, q) == m,
{
    vstd::arithmetic::div_mod::lemma_div_multiples_vanish(m, q);
    vstd::arithmetic::div_mod::lemma_mod_multiples_basic(m, q);
    assert(q * m == m * q) by (nonlinear_arith);
}

/// Up to 24 binary digits, a number is the nearest whole number to itself.
pub proof fn whole_numbers_stay(n: int)
    requires
        -0x100_0000 <= n <= 0x100_0000,
    ensures
        rounded_ratio(n, 1) == n,
{
    let m = if n >= 0 {
        n
    } else {
        -n
    };
    lemma_small_numbers_are_held(m);
    lemma_small_numbers_are_held(1);
    if m > 0 {
        lemma_whole_quotient(m, 1);
        assert(m * 1 == m);
        let (a, b) = nearest_quotient(m, 1);
        assert(2 * a + b == m * (2 * b) + b) by (nonlinear_arith)
            requires
                a == m * b,
        ;
        vstd::arithmetic::div_mod::lemma_fundamental_div_mod_converse(2 * a + b, 2 * b, m, b);
        assert(rounded((a, b)) == m);
    } else {
        lemma_zero_quotient(1);
    }
}

/// Of lengths below 5592406, three quarters are exact: they are rounded to the nearest whole number,
/// and upwards halfway.
pub proof fn short_lengths_have_exact_quarters(n: int)
    requires
        0 <= n <= 5592405,
    ensures
        three_quarters(n) == (3 * n + 2) / 4,
{
    lemma_small_numbers_are_held(n);
    let p = 3 * n;
    if p > 0 {
        lemma_whole_quotient(p, 4);
        let (a, b) = nearest_quotient(4 * p, 4);
        assert(p * 4 == 4 * p);
        assert(nearest_quotient(2 * p, 4) == (a, 2 * b));
        assert(nearest_quotient(p, 4) == (a, 4 * b));
        let k = (p + 2) / 4;
        let r = (p + 2) % 4;
        assert(2 * a + 4 * b == k * (2 * (4 * b)) + 2 * b * r) by (nonlinear_arith)
            requires
                a == p * b,
                p + 2 == 4 * k + r,
        ;
        assert(0 <= 2 * b * r < 2 * (4 * b)) by (nonlinear_arith)
            requires
                0 <= r < 4,
                0 < b,
        ;
        vstd::arithmetic::div_mod::lemma_fundamental_div_mod_converse(
            2 * a + 4 * b,
            2 * (4 * b),
            k,
            2 * b * r,
        );
        assert(rounded((a, 4 * b)) == k);
    } else {
        lemma_zero_quotient(4);
    }
}

/// Numbers of opposite signs are rounded alike: halfway, away from zero.
pub proof fn rounding_is_symmetric(n: int, d: int)
    requires
        0 < n,
        rounded_ratio(n, d) < i32::MAX,
    ensures
        rounded_ratio(-n, d) == -rounded_ratio(n, d),
{
    assert(-(-n) == n);
    lemma_quotient_sign(in_single(n), in_single(d));
    let (a, b) = nearest_quotient(in_single(n), in_single(d));
    vstd::arithmetic::div_mod::lemma_div_pos_is_pos(2 * a + b, 2 * b);
    let r = rounded((a, b));
    assert(rounded_ratio(n, d) == saturated(r));
}

proof fn lemma_quotient_sign(p: int, q: int)
    ensures
        nearest_quotient(p, q).0 >= 0,
        nearest_quotient(p, q).1 >= 1,
    decreases
            (if p < 0x80_0000 * q {
                0x80_0000 * q - p
            } else if 0x100_0000 * q <= p {
                p - q
            } else {
                0
            }),
{
    if p <= 0 || q <= 0 {
    } else if p < 0x80_0000 * q {
        lemma_quotient_sign(2 * p, q);
    } else if 0x100_0000 * q <= p {
        lemma_quotient_sign(p, 2 * q);
    } else {
        vstd::arithmetic::div_mod::lemma_div_pos_is_pos(p, q);
    }
}

/// Multiples are divided exactly.
pub proof fn multiples_are_divided_exactly(m: int, d: int)
    requires
        0 < d,
        0 <= m,
        m * d <= 0x100_0000,
        d <= 0x100_0000,
    ensures
        rounded_ratio(m * d, d) == m,
{
    assert(0 <= m * d) by (nonlinear_arith)
        requires
            0 <= m,
            0 < d,
    ;
    assert(m <= m * d) by (nonlinear_arith)
        requires
            0 <= m,
            1 <= d,
    ;
    lemma_small_numbers_are_held(m * d);
    lemma_small_numbers_are_held(d);
    if m > 0 {
        lemma_whole_quotient(m, d);
        let (a, b) = nearest_quotient(m * d, d);
        assert(2 * a + b == m * (2 * b) + b) by (nonlinear_arith)
            requires
                a == m * b,
        ;
        vstd::arithmetic::div_mod::lemma_fundamental_div_mod_converse(2 * a + b, 2 * b, m, b);
        assert(rounded((a, b)) == m);
    } else {
        assert(0 * d == 0);
        lemma_zero_quotient(d);
    }
}

/// A quotient is rounded to a nearest whole number, and halfway to the even one.
pub proof fn halves_go_to_even_numbers(p: int, q: int)
    requires
        0 < q,
    ensures
        ({
            let h = halves_to_even(p, q);
            &&& -q <= 2 * (h * q - p) <= q
            &&& 2 * (h * q - p) == q || 2 * (h * q - p) == -q ==> h % 2 == 0
        }),
{
    let f = p / q;
    let r = p % q;
    vstd::arithmetic::div_mod::lemma_fundamental_div_mod(p, q);
    vstd::arithmetic::div_mod::lemma_mod_bound(p, q);
    assert(f * q == p - r && (f + 1) * q == p - r + q) by (nonlinear_arith)
        requires
            p == q * f + r,
    ;
}

proof fn lemma_held(n: int, unit: int)
    requires
        0 <= n,
        unit == 1 || (1 <= unit && 0x80_0000 * unit <= n),
    ensures
        -n <= 0x100_0000 * (held(n, unit) - n) <= n,
    decreases n - unit,
{
    if 0x100_0000 * unit <= n {
        lemma_held(n, 2 * unit);
    } else {
        halves_go_to_even_numbers(n, unit);
        if unit == 1 {
            assert(n / 1 == n && n % 1 == 0);
            assert(halves_to_even(n, 1) == n);
        }
    }
}

/// A number is held with 24 binary digits: it is off by no more than its 2^24th part.
pub proof fn numbers_are_held_with_24_digits(n: int)
    requires
        0 <= n,
    ensures
        -n <= 0x100_0000 * (in_single(n) - n) <= n,
{
    lemma_held(n, 1);
}

/// A quotient is held with 24 binary digits: it is off by no more than its 2^24th part.
pub proof fn quotients_are_held_with_24_digits(p: int, q: int)
    requires
        0 < p,
        0 < q,
    ensures
        ({
            let (a, b) = nearest_quotient(p, q);
            -(p * b) <= 0x100_0000 * (a * q - p * b) <= p * b
        }),
    decreases
            (if p < 0x80_0000 * q {
                0x80_0000 * q - p
            } else if 0x100_0000 * q <= p {
                p - q
            } else {
                0
            }),
{
    if p < 0x80_0000 * q {
        quotients_are_held_with_24_digits(2 * p, q);
        let (a, b) = nearest_quotient(2 * p, q);
        assert((2 * p) * b == p * (2 * b)) by (nonlinear_arith);
    } else if 0x100_0000 * q <= p {
        quotients_are_held_with_24_digits(p, 2 * q);
        let (a, b) = nearest_quotient(p, 2 * q);
        assert(a * (2 * q) == (2 * a) * q) by (nonlinear_arith);
    } else {
        halves_go_to_even_numbers(p, q);
        assert(p * 1 == p);
    }
}

} // verus!
