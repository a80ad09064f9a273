//! The greatest common divisor behind the calculator form.

use vstd::prelude::*;

verus! {

/// Euclid's greatest common divisor: `gcd_spec(n, 0) == n`, and otherwise
/// the divisor is folded into the remainder.
pub open spec fn gcd_spec(n: nat, m: nat) -> nat
    decreases m,
{
    if m == 0 {
        n
    } else {
        gcd_spec(m, n % m)
    }
}

/// The greatest common divisor of two positive numbers, by Euclid's
/// algorithm.
pub fn gcd(n: u64, m: u64) -> (r: u64)
    requires
        1 <= n,
        1 <= m,
    ensures
        r == gcd_spec(n as nat, m as nat),
        1 <= r,
{
    let mut a = n;
    let mut b = m;
    while b != 0
        invariant
            1 <= a,
            gcd_spec(a as nat, b as nat) == gcd_spec(n as nat, m as nat),
        decreases b,
    {
        let t = a % b;
        a = b;
        b = t;
    }
    a
}

/// `d` divides `x`.
pub open spec fn divides(d: nat, x: nat) -> bool {
    exists|k: nat| x == #[trigger] (k * d)
}

/// What Euclid's algorithm returns is a common divisor of both inputs.
pub proof fn lemma_gcd_divides(n: nat, m: nat)
    ensures
        divides(gcd_spec(n, m), n),
        divides(gcd_spec(n, m), m),
    decreases m,
{
    if m == 0 {
        assert(n == 1nat * n) by (nonlinear_arith);
        assert(0nat == 0nat * n) by (nonlinear_arith);
    } else {
        lemma_gcd_divides(m, n % m);
        let g = gcd_spec(m, n % m);
        let k1 = choose|k: nat| m == #[trigger] (k * g);
        let k2 = choose|k: nat| (n % m) == #[trigger] (k * g);
        vstd::arithmetic::div_mod::lemma_fundamental_div_mod(n as int, m as int);
        let q = n as int / m as int;
        assert(0 <= q) by {
            vstd::arithmetic::div_mod::lemma_div_pos_is_pos(n as int, m as int);
        }
        assert(m as int * q + (n % m) as int == (q * k1 + k2) * g)
            by (nonlinear_arith)
            requires
                m as int == k1 as int * g as int,
                (n % m) as int == k2 as int * g as int,
        ;
        assert(n as int == (q * k1 + k2) * g);
        assert(0 <= q * k1) by (nonlinear_arith)
            requires
                0 <= q,
                0 <= k1,
        ;
        let kn = (q * k1 + k2) as nat;
        assert(n == kn * g);
    }
}

/// What Euclid's algorithm returns is the greatest common divisor: every
/// common divisor of the inputs divides it.
pub proof fn lemma_gcd_greatest(n: nat, m: nat, d: nat)
    requires
        divides(d, n),
        divides(d, m),
    ensures
        divides(d, gcd_spec(n, m)),
    decreases m,
{
    if m != 0 {
        let kn = choose|k: nat| n == #[trigger] (k * d);
        let km = choose|k: nat| m == #[trigger] (k * d);
        if d == 0 {
            assert(m == km * 0) by (nonlinear_arith)
                requires
                    m == km * d,
                    d == 0nat,
            ;
        }
        vstd::arithmetic::div_mod::lemma_fundamental_div_mod(n as int, m as int);
        let q = n as int / m as int;
        let z = (n % m) as int;
        assert(z == n as int - m as int * q);
        assert(z == (kn - q * km) * d) by (nonlinear_arith)
            requires
                z == n as int - m as int * q,
                n as int == kn as int * d as int,
                m as int == km as int * d as int,
        ;
        assert(0 <= kn - q * km) by (nonlinear_arith)
            requires
                z == (kn - q * km) * d,
                0 <= z,
                1 <= d,
        ;
        let kz = (kn - q * km) as nat;
        assert((n % m) == kz * d);
        lemma_gcd_greatest(m, n % m, d);
    }
}

/// What the calculator form answers: a zero input is rejected, any other
/// pair gets its greatest common divisor.
pub fn checked_gcd(n: u64, m: u64) -> (r: Option<u64>)
    ensures
        r is Some <==> 1 <= n && 1 <= m,
        r matches Some(g) ==> g == gcd_spec(n as nat, m as nat),
{
    if n == 0 || m == 0 {
        None
    } else {
        Some(gcd(n, m))
    }
}

} // verus!
