//! Integer helpers: Rust's truncating division as a mathematical model, and a
//! remainder that never comes out negative.
pub mod inverse;

use vstd::arithmetic::div_mod::*;
use vstd::prelude::*;

verus! {

/// The quotient that Rust's `/` computes on signed integers (rounded toward zero).
pub open spec fn trunc_div(a: int, b: int) -> int {
    if a >= 0 {
        a / b
    } else {
        -((-a) / b)
    }
}

/// The remainder that Rust's `%` computes on signed integers (it takes the sign of `a`).
pub open spec fn trunc_rem(a: int, b: int) -> int {
    if a >= 0 {
        a % b
    } else {
        -((-a) % b)
    }
}

/// `x` can be held by an `isize`.
pub open spec fn in_isize(x: int) -> bool {
    isize::MIN <= x <= isize::MAX
}

/// The result of `positive_mod(a, b)`: the remainder of `a` modulo `b` in `0..b`, except that
/// a negative multiple of `b` gives `b` itself.
pub open spec fn positive_mod_spec(a: int, b: int) -> int {
    if a >= 0 || a % b != 0 {
        a % b
    } else {
        b
    }
}

/// The inputs on which `positive_mod` computes without overflow.
pub open spec fn positive_mod_defined(a: int, b: int) -> bool {
    &&& b > 0
    &&& a < 0 ==> (a > isize::MIN && b * ((-a) / b + 1) <= isize::MAX)
}

/// Euclidean division by a negative divisor, expressed through the positive one.
pub proof fn lemma_div_neg_divisor(x: int, d: int)
    requires
        d < 0,
    ensures
        x / d == -(x / (-d)),
        x % d == x % (-d),
{
    let q = x / (-d);
    let r = x % (-d);
    lemma_fundamental_div_mod(x, -d);
    lemma_fundamental_div_mod(x, d);
    let q2 = x / d;
    let r2 = x % d;
    assert(0 <= r2 < -d) by (nonlinear_arith)
        requires
            d < 0,
            r2 == x % d,
    ;
    assert(x == (-q) * d + r) by (nonlinear_arith)
        requires
            x == (-d) * q + r,
    ;
    assert(x == q2 * d + r2) by (nonlinear_arith)
        requires
            x == d * q2 + r2,
    ;
    assert(q2 == -q) by (nonlinear_arith)
        requires
            x == (-q) * d + r,
            x == q2 * d + r2,
            0 <= r < -d,
            0 <= r2 < -d,
    ;
}

/// Bounds on a quotient of non-negative numbers.
pub proof fn lemma_div_pos_bounds(x: int, d: int)
    requires
        x >= 0,
        d >= 1,
    ensures
        0 <= x / d <= x,
        d >= 2 ==> x / d <= x / 2,
        0 <= x % d < d,
        x == d * (x / d) + x % d,
{
    lemma_fundamental_div_mod(x, d);
    assert(0 <= x / d <= x) by (nonlinear_arith)
        requires
            x >= 0,
            d >= 1,
            x == d * (x / d) + x % d,
            0 <= x % d < d,
    ;
    if d >= 2 {
        lemma_div_is_ordered_by_denominator(x, 2, d);
    }
}

/// What truncating division and remainder satisfy: `a == q * b + r`, with `r` of the sign of `a`
/// and smaller than `b` in magnitude, and `|q * b| + |r| == |a|`.
pub proof fn lemma_trunc_div_rem(a: int, b: int)
    requires
        b != 0,
    ensures
        a == trunc_div(a, b) * b + trunc_rem(a, b),
        a >= 0 ==> 0 <= trunc_rem(a, b),
        a < 0 ==> trunc_rem(a, b) <= 0,
        b > 0 ==> -b < trunc_rem(a, b) < b,
        b < 0 ==> b < trunc_rem(a, b) < -b,
        a >= 0 ==> 0 <= trunc_div(a, b) * b <= a,
        a < 0 ==> a <= trunc_div(a, b) * b <= 0,
        (b > 0) == (a >= 0) ==> 0 <= trunc_div(a, b),
        (b > 0) != (a >= 0) ==> trunc_div(a, b) <= 0,
{
    let ab = if b > 0 { b } else { -b };
    if a >= 0 {
        lemma_div_pos_bounds(a, ab);
        if b < 0 {
            lemma_div_neg_divisor(a, b);
            assert(a == trunc_div(a, b) * b + trunc_rem(a, b)) by (nonlinear_arith)
                requires
                    trunc_div(a, b) == -(a / ab),
                    trunc_rem(a, b) == a % ab,
                    b == -ab,
                    a == ab * (a / ab) + a % ab,
            ;
        } else {
            assert(a == trunc_div(a, b) * b + trunc_rem(a, b)) by (nonlinear_arith)
                requires
                    trunc_div(a, b) == a / b,
                    trunc_rem(a, b) == a % b,
                    a == b * (a / b) + a % b,
            ;
        }
        assert(0 <= trunc_div(a, b) * b <= a) by (nonlinear_arith)
            requires
                a == trunc_div(a, b) * b + trunc_rem(a, b),
                0 <= trunc_rem(a, b),
                (b > 0 && trunc_div(a, b) == a / ab) || (b < 0 && trunc_div(a, b) == -(a / ab)),
                0 <= a / ab,
                ab == if b > 0 { b } else { -b },
        ;
    } else {
        lemma_div_pos_bounds(-a, ab);
        if b < 0 {
            lemma_div_neg_divisor(-a, b);
        }
        assert(a == trunc_div(a, b) * b + trunc_rem(a, b)) by (nonlinear_arith)
            requires
                (b > 0 && trunc_div(a, b) == -((-a) / ab)) || (b < 0 && trunc_div(a, b) == (-a)
                    / ab),
                trunc_rem(a, b) == -((-a) % ab),
                ab == if b > 0 { b } else { -b },
                -a == ab * ((-a) / ab) + (-a) % ab,
        ;
        assert(a <= trunc_div(a, b) * b <= 0) by (nonlinear_arith)
            requires
                a == trunc_div(a, b) * b + trunc_rem(a, b),
                trunc_rem(a, b) <= 0,
                (b > 0 && trunc_div(a, b) == -((-a) / ab)) || (b < 0 && trunc_div(a, b) == (-a)
                    / ab),
                0 <= (-a) / ab,
                ab == if b > 0 { b } else { -b },
        ;
    }
}

/// Rust's `a / b` on `isize` computes `trunc_div(a, b)`.
pub proof fn lemma_isize_div_facts(a: isize, b: isize)
    requires
        b != 0,
        !(a == isize::MIN && b == -1),
    ensures
        in_isize(trunc_div(a as int, b as int)),
        b < 0 ==> (a as int) / (b as int) == -((a as int) / (-(b as int))),
        b < 0 ==> (-(a as int)) / (b as int) == -((-(a as int)) / (-(b as int))),
        b < 0 && a < 0 ==> (-(a as int)) / (-(b as int)) <= isize::MAX,
{
    lemma_trunc_div_rem(a as int, b as int);
    if b < 0 {
        lemma_div_neg_divisor(a as int, b as int);
        lemma_div_neg_divisor(-(a as int), b as int);
        if a < 0 {
            lemma_div_pos_bounds(-(a as int), -(b as int));
        } else {
            lemma_div_pos_bounds(a as int, -(b as int));
        }
    } else {
        if a < 0 {
            lemma_div_pos_bounds(-(a as int), b as int);
        } else {
            lemma_div_pos_bounds(a as int, b as int);
        }
    }
}

/// The remainder of `a` modulo `b`, made non-negative: for `a >= 0` it is `a % b`, in `0..b`; for
/// negative `a` it is `a` plus the least multiple of `b` above `|a|`, in `1..=b` (a negative multiple
/// of `b` gives `b`). `b` is assumed to be positive.
pub fn positive_mod(a: isize, b: isize) -> (r: isize)
    requires
        positive_mod_defined(a as int, b as int),
    ensures
        r == positive_mod_spec(a as int, b as int),
        0 <= r <= b,
        a >= 0 ==> r < b,
        a < 0 ==> 0 < r,
        (r - a) % (b as int) == 0,
{
    if a < 0 {
        proof {
            lemma_positive_mod_negative(a as int, b as int);
        }
        a + b * ((-a) / b + 1)
    } else {
        proof {
            lemma_div_pos_bounds(a as int, b as int);
            let q = (a as int) / (b as int);
            assert((a as int) % (b as int) - a == (-q) * b) by (nonlinear_arith)
                requires
                    a == b * q + (a as int) % (b as int),
            ;
            lemma_mod_multiples_basic(-q, b as int);
        }
        a % b
    }
}

/// For negative `a`, `a + b * (|a| / b + 1)` is `positive_mod_spec(a, b)`.
proof fn lemma_positive_mod_negative(a: int, b: int)
    requires
        a < 0,
        b > 0,
    ensures
        a + b * ((-a) / b + 1) == positive_mod_spec(a, b),
        0 < a + b * ((-a) / b + 1) <= b,
        (a + b * ((-a) / b + 1) - a) % b == 0,
{
    let x = -a;
    let q = x / b;
    let rr = x % b;
    lemma_div_pos_bounds(x, b);
    let r = a + b * (q + 1);
    assert(r == b - rr) by (nonlinear_arith)
        requires
            x == b * q + rr,
            r == a + b * (q + 1),
            x == -a,
    ;
    assert(r - a == (q + 1) * b) by (nonlinear_arith)
        requires
            r == a + b * (q + 1),
    ;
    lemma_mod_multiples_basic(q + 1, b);
    if rr == 0 {
        assert(a == (-q) * b) by (nonlinear_arith)
            requires
                x == b * q + rr,
                rr == 0,
                x == -a,
        ;
        lemma_mod_multiples_basic(-q, b);
    } else {
        assert(a == (-q - 1) * b + (b - rr)) by (nonlinear_arith)
            requires
                x == b * q + rr,
                x == -a,
        ;
        lemma_fundamental_div_mod_converse(a, b, -q - 1, b - rr);
    }
}

/// When `v` is non-negative or a multiple of `m`, Rust's `v % m` is the Euclidean remainder.
pub proof fn lemma_trunc_rem_is_mod(v: int, m: int)
    requires
        m > 0,
        v >= 0 || v % m == 0,
    ensures
        trunc_rem(v, m) == v % m,
        0 <= v % m < m,
{
    lemma_fundamental_div_mod(v, m);
    if v < 0 {
        let q = v / m;
        assert(-v == (-q) * m) by (nonlinear_arith)
            requires
                v == m * q + v % m,
                v % m == 0,
        ;
        lemma_mod_multiples_basic(-q, m);
    }
    lemma_mod_bound(v, m);
}

/// A negative `v` whose truncating remainder by `m` is zero is a multiple of `m`.
pub proof fn lemma_trunc_rem_zero(v: int, m: int)
    requires
        m > 0,
        v < 0,
        trunc_rem(v, m) == 0,
    ensures
        v % m == 0,
{
    lemma_fundamental_div_mod(-v, m);
    let q = (-v) / m;
    assert(v == (-q) * m) by (nonlinear_arith)
        requires
            -v == m * q + (-v) % m,
            (-v) % m == 0,
    ;
    lemma_mod_multiples_basic(-q, m);
}

} // verus!
