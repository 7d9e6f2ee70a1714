use vstd::prelude::*;

verus! {

/// `d` divides `n`: some integer multiple of `d` equals `n`.
pub open spec fn divides(d: int, n: int) -> bool {
    d != 0 && n % d == 0
}

/// `d` is a common divisor of `n` and `m`.
pub open spec fn common_divisor(d: int, n: int, m: int) -> bool {
    divides(d, n) && divides(d, m)
}

/// `d` is the greatest common divisor of `n` and `m`: a positive common
/// divisor that no other common divisor exceeds.
pub open spec fn is_gcd(d: int, n: int, m: int) -> bool {
    &&& d > 0
    &&& common_divisor(d, n, m)
    &&& forall|e: int| #[trigger] common_divisor(e, n, m) ==> e <= d
}

/// Replacing `m` by its remainder modulo `n` leaves the set of common
/// divisors unchanged.
pub proof fn lemma_common_divisor_rem(e: int, n: int, m: int)
    requires
        n > 0,
        m >= 0,
        e > 0,
    ensures
        common_divisor(e, n, m) <==> common_divisor(e, n, m % n),
{
    let q = m / n;
    let r = m % n;
    assert(m == n * q + r) by {
        vstd::arithmetic::div_mod::lemma_fundamental_div_mod(m, n);
    }
    if divides(e, n) {
        let k = n / e;
        assert(n == e * k) by {
            vstd::arithmetic::div_mod::lemma_fundamental_div_mod(n, e);
        }
        assert(n * q == e * (k * q)) by (nonlinear_arith)
            requires
                n == e * k,
        ;
        if divides(e, r) {
            let j = r / e;
            assert(r == e * j) by {
                vstd::arithmetic::div_mod::lemma_fundamental_div_mod(r, e);
            }
            assert(m == e * (k * q + j)) by (nonlinear_arith)
                requires
                    m == n * q + r,
                    n * q == e * (k * q),
                    r == e * j,
            ;
            assert(m % e == 0) by {
                vstd::arithmetic::div_mod::lemma_mod_multiples_basic(k * q + j, e);
                assert(e * (k * q + j) == (k * q + j) * e) by (nonlinear_arith);
            }
        }
        if divides(e, m) {
            let j = m / e;
            assert(m == e * j) by {
                vstd::arithmetic::div_mod::lemma_fundamental_div_mod(m, e);
            }
            assert(r == e * (j - k * q)) by (nonlinear_arith)
                requires
                    m == n * q + r,
                    n * q == e * (k * q),
                    m == e * j,
            ;
            assert(r % e == 0) by {
                vstd::arithmetic::div_mod::lemma_mod_multiples_basic(j - k * q, e);
                assert(e * (j - k * q) == (j - k * q) * e) by (nonlinear_arith);
            }
        }
    }
}

/// The greatest common divisor of two positive integers, by Euclid's
/// algorithm with remainders.
pub fn gcd(n: u64, m: u64) -> (d: u64)
    requires
        n != 0,
        m != 0,
    ensures
        is_gcd(d as int, n as int, m as int),
{
    let mut a: u64 = n;
    let mut b: u64 = m;
    while b != 0
        invariant
            a > 0,
            forall|e: int| e > 0 ==> (#[trigger] common_divisor(e, a as int, b as int)
                <==> common_divisor(e, n as int, m as int)),
        decreases b,
    {
        let ghost (a0, b0) = (a as int, b as int);
        if b < a {
            let t: u64 = b;
            b = a;
            a = t;
        }
        proof {
            assert forall|e: int| e > 0 implies (#[trigger] common_divisor(
                e,
                a as int,
                (b % a) as int,
            ) <==> common_divisor(e, n as int, m as int)) by {
                lemma_common_divisor_rem(e, a as int, b as int);
                assert(common_divisor(e, a as int, b as int) <==> common_divisor(e, a0, b0));
            }
        }
        b = b % a;
    }
    proof {
        assert(common_divisor(a as int, a as int, 0));
        assert forall|e: int| #[trigger] common_divisor(e, n as int, m as int) implies e <= a by {
            if e > 0 {
                assert(common_divisor(e, a as int, b as int));
                if e > a {
                    vstd::arithmetic::div_mod::lemma_small_mod(a as nat, e as nat);
                }
            }
        }
    }
    a
}

/// Two numbers have at most one greatest common divisor.
pub proof fn lemma_gcd_unique(d: int, e: int, n: int, m: int)
    requires
        is_gcd(d, n, m),
        is_gcd(e, n, m),
    ensures
        d == e,
{
    assert(common_divisor(d, n, m));
    assert(common_divisor(e, n, m));
}

/// The greatest common divisor does not depend on the order of the two
/// numbers.
pub proof fn lemma_gcd_symmetric(d: int, n: int, m: int)
    requires
        is_gcd(d, n, m),
    ensures
        is_gcd(d, m, n),
{
    assert forall|e: int| #[trigger] common_divisor(e, m, n) implies e <= d by {
        assert(common_divisor(e, n, m));
    }
}

} // verus!
