//! Divisibility and coprime integers.

use vstd::prelude::*;
use vstd::arithmetic::div_mod::{
    lemma_fundamental_div_mod,
    lemma_mod_multiples_vanish,
    lemma_mul_mod_noop_general,
    lemma_small_mod,
};

verus! {

/// Whether `d` divides `a`.
pub open spec fn divides(d: int, a: int) -> bool {
    a % d == 0
}

/// Whether `a` and `b` are coprime: no integer from 2 on divides both.
pub open spec fn is_coprime(a: int, b: int) -> bool {
    forall|d: int| d >= 2 ==> !(#[trigger] divides(d, a) && divides(d, b))
}

/// With `d` a divisor of `b`, `d` divides `a` exactly when it divides the
/// remainder of `a` by `b`.
pub proof fn lemma_divides_remainder(a: int, b: int, d: int)
    requires
        0 <= a,
        0 < b,
        0 < d,
        divides(d, b),
    ensures
        divides(d, a) == divides(d, a % b),
{
    lemma_fundamental_div_mod(a, b);
    lemma_fundamental_div_mod(b, d);
    let q = a / b;
    let m = b / d;
    assert(b == d * m);
    assert(a == d * (m * q) + a % b) by (nonlinear_arith)
        requires
            a == b * q + a % b,
            b == d * m,
    ;
    lemma_mod_multiples_vanish(m * q, a % b, d);
}

/// A step of Euclid's algorithm keeps the common divisors.
pub proof fn lemma_coprime_step(a: int, b: int)
    requires
        0 <= a,
        0 < b,
    ensures
        is_coprime(a, b) == is_coprime(b, a % b),
{
    if is_coprime(a, b) {
        assert forall|d: int| d >= 2 implies !(#[trigger] divides(d, b) && divides(d, a % b)) by {
            if divides(d, b) {
                lemma_divides_remainder(a, b, d);
                assert(!(divides(d, a) && divides(d, b)));
            }
        }
    }
    if is_coprime(b, a % b) {
        assert forall|d: int| d >= 2 implies !(#[trigger] divides(d, a) && divides(d, b)) by {
            if divides(d, b) {
                lemma_divides_remainder(a, b, d);
                assert(!(divides(d, b) && divides(d, a % b)));
            }
        }
    }
}

/// Only 1 is coprime with 0.
pub proof fn lemma_coprime_zero(a: int)
    requires
        0 <= a,
    ensures
        is_coprime(a, 0) == (a == 1),
{
    if a == 1 {
        assert forall|d: int| d >= 2 implies !(#[trigger] divides(d, a) && divides(d, 0)) by {
            vstd::arithmetic::div_mod::lemma_small_mod(1, d as nat);
        }
    } else if a == 0 {
        assert(divides(2, 0));
    } else {
        vstd::arithmetic::div_mod::lemma_mod_self_0(a);
        assert(divides(a, a) && divides(a, 0));
    }
}

/// Being coprime does not depend on the order of the two integers.
pub proof fn lemma_coprime_symmetric(a: int, b: int)
    ensures
        is_coprime(a, b) == is_coprime(b, a),
{
    if is_coprime(a, b) {
        assert forall|d: int| d >= 2 implies !(#[trigger] divides(d, b) && divides(d, a)) by {
            assert(!(divides(d, a) && divides(d, b)));
        }
    }
    if is_coprime(b, a) {
        assert forall|d: int| d >= 2 implies !(#[trigger] divides(d, a) && divides(d, b)) by {
            assert(!(divides(d, b) && divides(d, a)));
        }
    }
}

/// Two coprime integers have a combination with integer factors that is 1.
pub proof fn lemma_bezout(a: int, b: int) -> (r: (int, int))
    requires
        0 <= a,
        0 <= b,
        is_coprime(a, b),
    ensures
        a * r.0 + b * r.1 == 1,
    decreases b,
{
    if b == 0 {
        lemma_coprime_zero(a);
        (1, 0)
    } else {
        lemma_coprime_step(a, b);
        let (x, y) = lemma_bezout(b, a % b);
        lemma_fundamental_div_mod(a, b);
        let q = a / b;
        let rest = a % b;
        assert(a * y + b * (x - q * y) == 1) by (nonlinear_arith)
            requires
                b * x + rest * y == 1,
                a == b * q + rest,
        ;
        (y, x - q * y)
    }
}

/// An integer `k` coprime to `n` has an inverse modulo `n` between 1 and
/// `n`, itself coprime to `n`.
pub proof fn lemma_inverse(k: int, n: int) -> (inv: int)
    requires
        1 <= n,
        0 <= k,
        is_coprime(n, k),
    ensures
        1 <= inv <= n,
        is_coprime(n, inv),
        (k * inv) % n == 1int % n,
{
    if n == 1 {
        assert forall|d: int| d >= 2 implies !(#[trigger] divides(d, 1) && divides(d, 1)) by {
            lemma_small_mod(1, d as nat);
        }
        1
    } else {
        let (x, y) = lemma_bezout(n, k);
        let inv = y % n;
        lemma_small_mod(1, n as nat);
        assert((k * y) % n == 1) by {
            assert(k * y == n * (-x) + 1) by (nonlinear_arith)
                requires
                    n * x + k * y == 1,
            ;
            lemma_mod_multiples_vanish(-x, 1, n);
        }
        lemma_mul_mod_noop_general(k, y, n);
        assert((k * inv) % n == 1);
        if inv == 0 {
            assert(k * inv == 0) by (nonlinear_arith)
                requires
                    inv == 0,
            ;
        }
        assert forall|d: int| d >= 2 implies !(#[trigger] divides(d, n) && divides(d, inv)) by {
            if divides(d, n) && divides(d, inv) {
                let m = (k * inv) / n;
                lemma_fundamental_div_mod(k * inv, n);
                lemma_fundamental_div_mod(n, d);
                lemma_fundamental_div_mod(inv, d);
                let (n1, i1) = (n / d, inv / d);
                assert(d * (k * i1 - n1 * m) == 1) by (nonlinear_arith)
                    requires
                        k * inv == n * m + 1,
                        n == d * n1,
                        inv == d * i1,
                ;
                let z = k * i1 - n1 * m;
                assert(false) by (nonlinear_arith)
                    requires
                        d >= 2,
                        d * z == 1,
                ;
            }
        }
        inv
    }
}

/// Shifting an index of a periodic sequence by `f` and then by the rest of
/// the period leads back to it.
pub proof fn lemma_shift_back(i: int, f: int, n: int)
    requires
        0 <= i < n,
        0 <= f <= n,
    ensures
        ((i + f) % n + (n - f)) % n == i,
{
    if i + f < n {
        lemma_small_mod((i + f) as nat, n as nat);
        lemma_mod_multiples_vanish(1, i, n);
        lemma_small_mod(i as nat, n as nat);
    } else {
        lemma_mod_multiples_vanish(1, i + f - n, n);
        if i + f - n < n {
            lemma_small_mod((i + f - n) as nat, n as nat);
        } else {
            vstd::arithmetic::div_mod::lemma_mod_self_0(n);
        }
        lemma_small_mod(i as nat, n as nat);
    }
}

/// Multiplying an index of a periodic sequence by `k` and then by an
/// inverse of `k` leads back to it.
pub proof fn lemma_multiply_back(i: int, k: int, inv: int, n: int)
    requires
        0 <= i < n,
        (k * inv) % n == 1int % n,
    ensures
        (((i * inv) % n) * k) % n == i,
{
    lemma_mul_mod_noop_general(i * inv, k, n);
    assert((i * inv) * k == i * (k * inv)) by (nonlinear_arith);
    lemma_mul_mod_noop_general(i, k * inv, n);
    lemma_mul_mod_noop_general(i, 1, n);
    assert(i * 1 == i);
    lemma_small_mod(i as nat, n as nat);
}

} // verus!
