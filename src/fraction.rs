//! Reduced fractions and the Euclidean reduction that produces them.
use vstd::prelude::*;

verus! {

/// Error code for a fraction whose denominator is zero.
pub const ERR_DIVISION_BY_ZERO: u8 = 26;

/// Greatest common divisor by Euclid's recurrence; `gcd(a, 0) == a`.
pub open spec fn gcd(a: nat, b: nat) -> nat
    decreases b,
{
    if b == 0 {
        a
    } else {
        gcd(b, a % b)
    }
}

/// What reducing the pair `(n, d)` gives: an error code, or the reduced pair.
pub open spec fn reduced(n: nat, d: nat) -> Result<(nat, nat), u8> {
    if d == 0 {
        Err(ERR_DIVISION_BY_ZERO)
    } else if n == 0 {
        Ok((0nat, 1nat))
    } else {
        Ok((n / gcd(n, d), d / gcd(n, d)))
    }
}

/// A pair of numerator and denominator; returned by the library in reduced form.
#[derive(PartialEq, Eq, Structural, Debug, Clone, Copy)]
pub struct Fract {
    pub numer: u64,
    pub denom: u64,
}

impl Fract {
    /// The pair as mathematical integers.
    pub open spec fn pair(self) -> (nat, nat) {
        (self.numer as nat, self.denom as nat)
    }

    /// Lowest terms: coprime parts and a positive denominator.
    pub open spec fn is_reduced(self) -> bool {
        self.denom >= 1 && gcd(self.numer as nat, self.denom as nat) == 1
    }
}

/// Whether a result agrees with its mathematical counterpart: the same pair
/// on success, the same error code on failure.
pub open spec fn agrees(r: Result<Fract, (u8, String)>, spec: Result<(nat, nat), u8>) -> bool {
    match r {
        Ok(f) => spec == Ok::<(nat, nat), u8>(f.pair()),
        Err(e) => spec == Err::<(nat, nat), u8>(e.0),
    }
}

/// The gcd of two numbers that are not both zero is positive.
pub proof fn lemma_gcd_positive(a: nat, b: nat)
    requires
        a > 0 || b > 0,
    ensures
        gcd(a, b) > 0,
    decreases b,
{
    if b > 0 {
        lemma_gcd_positive(b, a % b);
    }
}

/// A positive gcd divides both of its arguments.
pub proof fn lemma_gcd_divides(a: nat, b: nat)
    ensures
        gcd(a, b) > 0 ==> a % gcd(a, b) == 0 && b % gcd(a, b) == 0,
    decreases b,
{
    if b > 0 {
        lemma_gcd_divides(b, a % b);
        let g = gcd(a, b);
        if g > 0 {
            // a == (a / b) * b + a % b, and g divides both b and a % b
            let (q, r) = ((a / b) as int, (a % b) as int);
            let (x, y) = ((b / g) as int, (r / g as int));
            assert(a % g == 0) by {
                vstd::arithmetic::div_mod::lemma_fundamental_div_mod(a as int, b as int);
                vstd::arithmetic::div_mod::lemma_fundamental_div_mod(b as int, g as int);
                vstd::arithmetic::div_mod::lemma_fundamental_div_mod(r, g as int);
                assert(a as int == (q * x + y) * g) by (nonlinear_arith)
                    requires
                        a as int == b as int * q + r,
                        b as int == g as int * x,
                        r == g as int * y,
                ;
                vstd::arithmetic::div_mod::lemma_mod_multiples_basic(q * x + y, g as int);
            }
        }
    }
}

/// Scaling both arguments by `k` scales their gcd by `k`.
pub proof fn lemma_gcd_scale(a: nat, b: nat, k: nat)
    requires
        k > 0,
    ensures
        gcd(a * k, b * k) == gcd(a, b) * k,
    decreases b,
{
    if b > 0 {
        assert((a * k) % (b * k) == (a % b) * k) by {
            let (q, r) = ((a / b) as int, (a % b) as int);
            vstd::arithmetic::div_mod::lemma_fundamental_div_mod(a as int, b as int);
            assert(a as int * k as int == q * (b as int * k as int) + r * k as int
                && 0 <= r * (k as int) && r * (k as int) < (b as int) * (k as int)) by (nonlinear_arith)
                requires
                    a as int == b as int * q + r,
                    0 <= r < b,
                    k > 0,
            ;
            vstd::arithmetic::div_mod::lemma_fundamental_div_mod_converse(
                a as int * k as int,
                b as int * k as int,
                q,
                r * k as int,
            );
        }
        lemma_gcd_scale(b, a % b, k);
        assert(b * k > 0) by (nonlinear_arith)
            requires
                b > 0,
                k > 0,
        ;
    } else {
        assert(b * k == 0) by (nonlinear_arith)
            requires
                b == 0,
        ;
    }
}

/// Dividing both parts by their greatest common divisor leaves a coprime pair.
pub proof fn lemma_divided_by_gcd_coprime(n: nat, d: nat)
    requires
        d > 0,
    ensures
        gcd(n / gcd(n, d), d / gcd(n, d)) == 1,
        n / gcd(n, d) * gcd(n, d) == n,
        d / gcd(n, d) * gcd(n, d) == d,
        d / gcd(n, d) >= 1,
{
    let g = gcd(n, d);
    lemma_gcd_positive(n, d);
    lemma_gcd_divides(n, d);
    vstd::arithmetic::div_mod::lemma_fundamental_div_mod(n as int, g as int);
    vstd::arithmetic::div_mod::lemma_fundamental_div_mod(d as int, g as int);
    lemma_gcd_scale(n / g, d / g, g);
    assert(n / g * g == n);
    assert(d / g * g == d);
    assert(gcd(n / g, d / g) * g == g);
    assert(gcd(n / g, d / g) == 1) by (nonlinear_arith)
        requires
            gcd(n / g, d / g) * g == g,
            g > 0,
    ;
    assert(d / g >= 1) by (nonlinear_arith)
        requires
            d / g * g == d,
            d > 0,
    ;
}

/// Brings `fr` to lowest terms: fails with code 26 on a zero denominator,
/// maps every zero numerator to `0/1`, and otherwise divides both parts by
/// their greatest common divisor, found with Euclid's algorithm.
pub fn get_norm(fr: &Fract) -> (r: Result<Fract, (u8, String)>)
    ensures
        agrees(r, reduced(fr.numer as nat, fr.denom as nat)),
        r is Err <==> fr.denom == 0,
        r matches Ok(f) ==> f.is_reduced(),
{
    if fr.denom == 0 {
        return Err((ERR_DIVISION_BY_ZERO, String::from_str("Division by zero")));
    }
    if fr.numer == 0 {
        proof {
            assert(gcd(0, 1) == gcd(1, 0));
        }
        return Ok(Fract { numer: 0, denom: 1 });
    }
    let mut xa: u64 = fr.numer;
    let mut xb: u64 = fr.denom;
    while xb > 0
        invariant
            gcd(xa as nat, xb as nat) == gcd(fr.numer as nat, fr.denom as nat),
        decreases xb,
    {
        let tmp = xb;
        xb = xa % xb;
        xa = tmp;
    }
    proof {
        lemma_divided_by_gcd_coprime(fr.numer as nat, fr.denom as nat);
    }
    Ok(Fract { numer: fr.numer / xa, denom: fr.denom / xa })
}

/// A pair already in lowest terms is left unchanged by reduction.
pub proof fn lemma_reduce_fixpoint(n: nat, d: nat)
    requires
        d >= 1,
        gcd(n, d) == 1,
    ensures
        reduced(n, d) == Ok::<(nat, nat), u8>((n, d)),
{
    if n == 0 {
        assert(gcd(0, d) == gcd(d, 0));
    }
}

/// Reducing twice gives what reducing once gave.
pub proof fn lemma_reduce_idempotent(n: nat, d: nat)
    requires
        d >= 1,
    ensures
        reduced(n, d) matches Ok(p) && reduced(p.0, p.1) == reduced(n, d),
{
    if n == 0 {
        assert(gcd(0, 1) == gcd(1, 0));
        lemma_reduce_fixpoint(0, 1);
    } else {
        lemma_divided_by_gcd_coprime(n, d);
        lemma_reduce_fixpoint(n / gcd(n, d), d / gcd(n, d));
    }
}

} // verus!
