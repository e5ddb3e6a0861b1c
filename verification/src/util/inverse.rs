//! The extended Euclidean algorithm and modular inverses.
use crate::util::{in_isize, lemma_isize_div_facts, lemma_trunc_div_rem, trunc_div, trunc_rem};
use vstd::arithmetic::div_mod::*;
use vstd::prelude::*;

verus! {

/// The absolute value of `x`.
pub open spec fn abs(x: int) -> int {
    if x < 0 {
        -x
    } else {
        x
    }
}

/// `d` divides `n`.
pub open spec fn divides(d: int, n: int) -> bool {
    exists|k: int| n == #[trigger] (k * d)
}

/// The triple `(gcd, coefficient_a, coefficient_b)` that the extended Euclidean algorithm
/// computes with truncating division: `egcd(a, 0) == (a, 1, 0)`, and otherwise the result for
/// `(b, a % b)` with its coefficients rearranged.
pub open spec fn egcd(a: int, b: int) -> (int, int, int)
    decreases abs(b),
{
    if b == 0 {
        (a, 1, 0)
    } else {
        proof {
            lemma_trunc_div_rem(a, b);
        }
        let r = egcd(b, trunc_rem(a, b));
        (r.0, r.2, r.1 - trunc_div(a, b) * r.2)
    }
}

/// Every `isize` operation that `extended_gcd(a, b)` performs stays in range: no division
/// of `isize::MIN` by `-1`, and each coefficient fits.
pub open spec fn egcd_fits(a: int, b: int) -> bool
    decreases abs(b),
{
    if b == 0 {
        true
    } else {
        proof {
            lemma_trunc_div_rem(a, b);
        }
        let r = egcd(b, trunc_rem(a, b));
        &&& !(a == isize::MIN && b == -1)
        &&& egcd_fits(b, trunc_rem(a, b))
        &&& in_isize(trunc_div(a, b) * r.2)
        &&& in_isize(r.1 - trunc_div(a, b) * r.2)
    }
}

/// Bezout's identity for `egcd`, and that its first component divides both arguments.
pub proof fn lemma_egcd_bezout(a: int, b: int)
    ensures
        a * egcd(a, b).1 + b * egcd(a, b).2 == egcd(a, b).0,
        divides(egcd(a, b).0, a),
        divides(egcd(a, b).0, b),
    decreases abs(b),
{
    let g = egcd(a, b).0;
    if b == 0 {
        assert(a == 1 * a);
        assert(0 == 0 * a);
    } else {
        lemma_trunc_div_rem(a, b);
        let q = trunc_div(a, b);
        let r = trunc_rem(a, b);
        lemma_egcd_bezout(b, r);
        let (g1, x1, y1) = egcd(b, r);
        assert(a * y1 + b * (x1 - q * y1) == g1) by (nonlinear_arith)
            requires
                b * x1 + r * y1 == g1,
                a == q * b + r,
        ;
        let kb = choose|k: int| b == #[trigger] (k * g1);
        let kr = choose|k: int| r == #[trigger] (k * g1);
        assert(a == (q * kb + kr) * g1) by (nonlinear_arith)
            requires
                b == kb * g1,
                r == kr * g1,
                a == q * b + r,
        ;
    }
}

/// Every common divisor of `a` and `b` divides the first component of `egcd(a, b)`, which
/// therefore is a greatest common divisor of the two (up to its sign).
pub proof fn lemma_egcd_is_greatest(a: int, b: int, c: int)
    requires
        divides(c, a),
        divides(c, b),
    ensures
        divides(c, egcd(a, b).0),
{
    lemma_egcd_bezout(a, b);
    let (g, x, y) = egcd(a, b);
    let ka = choose|k: int| a == #[trigger] (k * c);
    let kb = choose|k: int| b == #[trigger] (k * c);
    assert(g == (ka * x + kb * y) * c) by (nonlinear_arith)
        requires
            a * x + b * y == g,
            a == ka * c,
            b == kb * c,
    ;
}

/// For non-negative arguments, not both zero, the gcd that `egcd` computes is positive.
pub proof fn lemma_egcd_positive(a: int, b: int)
    requires
        a >= 0,
        b >= 0,
        a != 0 || b != 0,
    ensures
        egcd(a, b).0 > 0,
    decreases b,
{
    if b != 0 {
        lemma_trunc_div_rem(a, b);
        lemma_egcd_positive(b, trunc_rem(a, b));
    }
}

/// `n` and `m` have no common divisor greater than `1`.
pub open spec fn coprime(n: int, m: int) -> bool {
    forall|d: int| d > 1 ==> !(#[trigger] divides(d, n) && divides(d, m))
}

/// For non-negative `n` coprime to a positive `m`, the computed gcd is exactly `1`, so
/// `mod_inverse` finds the inverse of `n` in `0..m`.
pub proof fn lemma_coprime_has_inverse(n: int, m: int)
    requires
        n >= 0,
        m > 0,
        coprime(n, m),
    ensures
        egcd(n, m).0 == 1,
        inverse_spec(n, m) is Some,
        0 <= inverse_spec(n, m).unwrap() < m,
        (n * inverse_spec(n, m).unwrap()) % m == 1int % m,
{
    lemma_egcd_positive(n, m);
    lemma_egcd_bezout(n, m);
    let g = egcd(n, m).0;
    if g > 1 {
        assert(divides(g, n) && divides(g, m));
    }
    lemma_inverse_is_inverse(n, m);
}

/// Bounds on the coefficients of `egcd(a, b)` when `b != 0`: `|x| <= |b|` and `|y| <= max(|a|, 1)`.
pub proof fn lemma_egcd_bounds(a: int, b: int)
    requires
        b != 0,
    ensures
        abs(egcd(a, b).1) <= abs(b),
        abs(egcd(a, b).2) <= abs(a) || abs(egcd(a, b).2) <= 1,
        abs(trunc_div(a, b) * egcd(b, trunc_rem(a, b)).2) <= abs(a),
    decreases abs(b),
{
    lemma_trunc_div_rem(a, b);
    let q = trunc_div(a, b);
    let r = trunc_rem(a, b);
    let (g1, x1, y1) = egcd(b, r);
    if r == 0 {
        assert(egcd(b, r) == (b, 1int, 0int));
        assert(q * y1 == 0);
    } else {
        lemma_egcd_bounds(b, r);
        assert(abs(q * y1) <= abs(q * b)) by (nonlinear_arith)
            requires
                abs(y1) <= abs(b),
        ;
        assert(abs(q * b) + abs(r) == abs(a)) by (nonlinear_arith)
            requires
                a == q * b + r,
                a >= 0 ==> (0 <= r && 0 <= q * b),
                a < 0 ==> (r <= 0 && q * b <= 0),
        ;
        assert(abs(x1 - q * y1) <= abs(a)) by (nonlinear_arith)
            requires
                abs(x1) <= abs(r),
                abs(q * y1) <= abs(q * b),
                abs(q * b) + abs(r) == abs(a),
        ;
    }
}

/// Without `isize::MIN` among the arguments, `extended_gcd` cannot overflow.
pub proof fn lemma_egcd_fits(a: int, b: int)
    requires
        isize::MIN < a <= isize::MAX,
        isize::MIN < b <= isize::MAX,
    ensures
        egcd_fits(a, b),
    decreases abs(b),
{
    if b != 0 {
        lemma_trunc_div_rem(a, b);
        lemma_egcd_fits(b, trunc_rem(a, b));
        lemma_egcd_bounds(a, b);
    }
}

/// When `egcd_fits(a, b)`, every component of `egcd(a, b)` fits in an `isize`.
pub proof fn lemma_egcd_in_range(a: int, b: int)
    requires
        in_isize(a),
        in_isize(b),
        egcd_fits(a, b),
    ensures
        in_isize(egcd(a, b).0),
        in_isize(egcd(a, b).1),
        in_isize(egcd(a, b).2),
    decreases abs(b),
{
    if b != 0 {
        lemma_trunc_div_rem(a, b);
        lemma_egcd_in_range(b, trunc_rem(a, b));
    }
}

/// Returns `(gcd, coefficient_a, coefficient_b)` such that
/// `a * coefficient_a + b * coefficient_b == gcd`; `gcd` divides both `a` and `b`.
pub fn extended_gcd(a: isize, b: isize) -> (r: (isize, isize, isize))
    requires
        egcd_fits(a as int, b as int),
    ensures
        (r.0 as int, r.1 as int, r.2 as int) == egcd(a as int, b as int),
        a * r.1 + b * r.2 == r.0,
        divides(r.0 as int, a as int),
        divides(r.0 as int, b as int),
        a >= 0 && b >= 0 && (a != 0 || b != 0) ==> r.0 > 0,
    decreases abs(b as int),
{
    proof {
        lemma_egcd_bezout(a as int, b as int);
        if a >= 0 && b >= 0 && (a != 0 || b != 0) {
            lemma_egcd_positive(a as int, b as int);
        }
    }
    if b == 0 {
        (a, 1, 0)
    } else {
        proof {
            lemma_trunc_div_rem(a as int, b as int);
            lemma_isize_div_facts(a, b);
        }
        let (gcd, prev_coefficient_a, prev_coefficient_b) = extended_gcd(b, a % b);
        let current_coefficient_a = prev_coefficient_b;
        let current_coefficient_b = prev_coefficient_a - (a / b) * prev_coefficient_b;
        (gcd, current_coefficient_a, current_coefficient_b)
    }
}

/// Decides whether `extended_gcd(a, b)` computes without overflow.
pub fn extended_gcd_fits(a: isize, b: isize) -> (r: bool)
    ensures
        r == egcd_fits(a as int, b as int),
    decreases abs(b as int),
{
    if b == 0 {
        return true;
    }
    if a == isize::MIN && b == -1 {
        return false;
    }
    proof {
        lemma_trunc_div_rem(a as int, b as int);
        lemma_isize_div_facts(a, b);
    }
    let rem = a % b;
    if !extended_gcd_fits(b, rem) {
        return false;
    }
    let (_, x, y) = extended_gcd(b, rem);
    let q = a / b;
    match q.checked_mul(y) {
        None => false,
        Some(p) => x.checked_sub(p).is_some(),
    }
}

/// What `mod_inverse(number, modulus)` returns: `None` when the gcd computed by `egcd` is not `1`,
/// else the Bezout coefficient of `number` reduced by `%` and, when negative, moved up by `modulus`.
pub open spec fn inverse_spec(number: int, modulus: int) -> Option<int> {
    if egcd(number, modulus).0 != 1 {
        None
    } else {
        let c = trunc_rem(egcd(number, modulus).1, modulus);
        Some(
            if c < 0 {
                modulus + c
            } else {
                c
            },
        )
    }
}

/// The inputs on which `mod_inverse` computes without overflow or division by zero.
pub open spec fn inverse_defined(number: int, modulus: int) -> bool {
    &&& egcd_fits(number, modulus)
    &&& egcd(number, modulus).0 == 1 ==> {
        let x = egcd(number, modulus).1;
        &&& modulus != 0
        &&& !(x == isize::MIN && modulus == -1)
        &&& trunc_rem(x, modulus) < 0 ==> in_isize(modulus + trunc_rem(x, modulus))
    }
}

/// For a positive modulus, the inverse that `mod_inverse` finds lies in `0..modulus` and
/// `number * inverse` is congruent to `1`.
pub proof fn lemma_inverse_is_inverse(number: int, modulus: int)
    requires
        modulus > 0,
        egcd(number, modulus).0 == 1,
    ensures
        0 <= inverse_spec(number, modulus).unwrap() < modulus,
        (number * inverse_spec(number, modulus).unwrap()) % modulus == 1int % modulus,
{
    lemma_egcd_bezout(number, modulus);
    let x = egcd(number, modulus).1;
    let y = egcd(number, modulus).2;
    lemma_trunc_div_rem(x, modulus);
    let t = trunc_div(x, modulus);
    let c = trunc_rem(x, modulus);
    let v = inverse_spec(number, modulus).unwrap();
    let k = if c < 0 {
        t - 1
    } else {
        t
    };
    assert(v == x - k * modulus) by (nonlinear_arith)
        requires
            x == t * modulus + c,
            v == (if c < 0 {
                modulus + c
            } else {
                c
            }),
            k == (if c < 0 {
                t - 1
            } else {
                t
            }),
    ;
    assert(number * v == modulus * (-y - number * k) + 1) by (nonlinear_arith)
        requires
            number * x + modulus * y == 1,
            v == x - k * modulus,
    ;
    lemma_mod_multiples_vanish(-y - number * k, 1, modulus);
}

/// The inverse of `number` modulo `modulus`, when the gcd that `extended_gcd` computes for them
/// is `1`; otherwise `None`.
pub fn mod_inverse(number: isize, modulus: isize) -> (r: Option<isize>)
    requires
        inverse_defined(number as int, modulus as int),
    ensures
        r is None <==> egcd(number as int, modulus as int).0 != 1,
        r matches Some(v) ==> inverse_spec(number as int, modulus as int) == Some(v as int),
        modulus > 0 && r is Some ==> 0 <= r.unwrap() < modulus && (number * r.unwrap()) % (
        modulus as int) == 1int % (modulus as int),
        number >= 0 && modulus > 0 && coprime(number as int, modulus as int) ==> r is Some,
{
    proof {
        if number >= 0 && modulus > 0 && coprime(number as int, modulus as int) {
            lemma_coprime_has_inverse(number as int, modulus as int);
        }
    }
    let (gcd, coefficient_number, _) = extended_gcd(number, modulus);

    // Existence check
    if gcd != 1 {
        return None;
    }
    proof {
        lemma_trunc_div_rem(coefficient_number as int, modulus as int);
        if modulus > 0 {
            lemma_inverse_is_inverse(number as int, modulus as int);
        }
    }
    // Make it positive
    let inverse = coefficient_number % modulus;

    let inverse = if inverse < 0 {
        modulus + inverse
    } else {
        inverse
    };

    Some(inverse)
}

/// Decides whether `mod_inverse(number, modulus)` computes without overflow or division by zero.
pub fn mod_inverse_defined(number: isize, modulus: isize) -> (r: bool)
    ensures
        r == inverse_defined(number as int, modulus as int),
{
    if !extended_gcd_fits(number, modulus) {
        return false;
    }
    let (gcd, x, _) = extended_gcd(number, modulus);
    if gcd != 1 {
        return true;
    }
    if modulus == 0 || (x == isize::MIN && modulus == -1) {
        return false;
    }
    proof {
        lemma_trunc_div_rem(x as int, modulus as int);
    }
    let c = x % modulus;
    c >= 0 || modulus.checked_add(c).is_some()
}

} // verus!
