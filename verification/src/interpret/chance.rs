//! An exact probability mass: a fraction of machine words kept in lowest
//! terms, with overflow-checked arithmetic.

use crate::interpret::factor::{
    lemma_gcd_coprime_after_div, lemma_gcd_divides, lemma_gcd_pos, lemma_divides_div_exact,
    lemma_reduced_unique, spec_gcd, gcd,
};
use crate::interpret::ArithmeticOverflow;
use vstd::arithmetic::div_mod::lemma_div_nonincreasing;
use vstd::prelude::*;

verus! {

/// A probability expressed as an exact fraction.
///
/// Every constructor and arithmetic operation returns the fraction in
/// lowest terms with a positive denominator.
#[derive(Clone, Copy, Debug, PartialEq, Eq, Structural)]
pub struct Chance {
    pub numerator: usize,
    pub denominator: usize,
}

/// The numerator of `n / d` in lowest terms.
pub open spec fn reduced_num(n: nat, d: nat) -> nat {
    n / spec_gcd(n, d)
}

/// The denominator of `n / d` in lowest terms.
pub open spec fn reduced_den(n: nat, d: nat) -> nat {
    d / spec_gcd(n, d)
}

impl Chance {
    pub open spec fn num(self) -> nat {
        self.numerator as nat
    }

    pub open spec fn den(self) -> nat {
        self.denominator as nat
    }

    /// The invariant every constructed `Chance` satisfies: the fraction
    /// is in lowest terms over a positive denominator.
    pub open spec fn reduced(self) -> bool {
        &&& self.den() >= 1
        &&& spec_gcd(self.num(), self.den()) == 1
    }

    /// What `new(n, d)` returns, as a value.
    pub open spec fn spec_new(n: nat, d: nat) -> Chance {
        Chance {
            numerator: reduced_num(n, d) as usize,
            denominator: reduced_den(n, d) as usize,
        }
    }

    /// The cross-multiplied sum of two fractions fits in machine words.
    pub open spec fn add_fits(self, rhs: Chance) -> bool {
        &&& self.num() * rhs.den() + rhs.num() * self.den() <= usize::MAX
        &&& self.den() * rhs.den() <= usize::MAX
    }

    /// The product of two fractions fits in machine words.
    pub open spec fn mul_fits(self, rhs: Chance) -> bool {
        &&& self.num() * rhs.num() <= usize::MAX
        &&& self.den() * rhs.den() <= usize::MAX
    }

    /// Constructs a fraction and immediately reduces it by the gcd of
    /// numerator and denominator.
    pub fn new(numerator: usize, denominator: usize) -> (r: Chance)
        requires
            denominator >= 1,
        ensures
            r == Self::spec_new(numerator as nat, denominator as nat),
            r.reduced(),
            r.num() * denominator == numerator * r.den(),
            r.num() <= numerator,
            r.den() <= denominator,
    {
        let mut result = Chance { numerator, denominator };
        result.simplify();
        result
    }

    /// Divides numerator and denominator by their gcd, leaving the
    /// fraction it stands for unchanged and in lowest terms.
    pub fn simplify(&mut self)
        requires
            old(self).den() >= 1,
        ensures
            *final(self) == Self::spec_new(old(self).num(), old(self).den()),
            final(self).reduced(),
            final(self).num() * old(self).den() == old(self).num() * final(self).den(),
            final(self).num() <= old(self).num(),
            final(self).den() <= old(self).den(),
    {
        proof {
            lemma_reduce_facts(self.num(), self.den());
        }
        if self.denominator <= 1 {
            return;
        }
        let factor = gcd(self.numerator, self.denominator);
        if factor > 1 {
            self.numerator = self.numerator / factor;
            self.denominator = self.denominator / factor;
        }
    }

    /// Cross-multiplied addition of two fractions, reduced; fails exactly
    /// when an intermediate product or sum exceeds the machine word range.
    pub fn add(self, rhs: Chance) -> (r: Result<Chance, ArithmeticOverflow>)
        requires
            self.den() >= 1,
            rhs.den() >= 1,
        ensures
            r is Ok <==> self.add_fits(rhs),
            (r matches Ok(c) ==> c == Self::spec_new(
                self.num() * rhs.den() + rhs.num() * self.den(),
                self.den() * rhs.den(),
            )),
            (r matches Ok(c) ==> c.reduced()),
            (r matches Ok(c) ==> c.num() * (self.den() * rhs.den()) == (self.num() * rhs.den()
                + rhs.num() * self.den()) * c.den()),
    {
        let n1 = match self.numerator.checked_mul(rhs.denominator) {
            Some(v) => v,
            None => {
                return Err(ArithmeticOverflow);
            },
        };
        let n2 = match rhs.numerator.checked_mul(self.denominator) {
            Some(v) => v,
            None => {
                return Err(ArithmeticOverflow);
            },
        };
        let n = match n1.checked_add(n2) {
            Some(v) => v,
            None => {
                return Err(ArithmeticOverflow);
            },
        };
        let d = match self.denominator.checked_mul(rhs.denominator) {
            Some(v) => v,
            None => {
                return Err(ArithmeticOverflow);
            },
        };
        proof {
            assert(d >= 1) by (nonlinear_arith)
                requires
                    d == self.den() * rhs.den(),
                    self.den() >= 1,
                    rhs.den() >= 1,
            ;
        }
        Ok(Chance::new(n, d))
    }

    /// Multiplication of two fractions, reduced; fails exactly when a
    /// product of numerators or denominators exceeds the machine word range.
    pub fn multiply(self, rhs: Chance) -> (r: Result<Chance, ArithmeticOverflow>)
        requires
            self.den() >= 1,
            rhs.den() >= 1,
        ensures
            r is Ok <==> self.mul_fits(rhs),
            (r matches Ok(c) ==> c == Self::spec_new(
                self.num() * rhs.num(),
                self.den() * rhs.den(),
            )),
            (r matches Ok(c) ==> c.reduced()),
            (r matches Ok(c) ==> c.num() * (self.den() * rhs.den()) == (self.num() * rhs.num())
                * c.den()),
    {
        let n = match self.numerator.checked_mul(rhs.numerator) {
            Some(v) => v,
            None => {
                return Err(ArithmeticOverflow);
            },
        };
        let d = match self.denominator.checked_mul(rhs.denominator) {
            Some(v) => v,
            None => {
                return Err(ArithmeticOverflow);
            },
        };
        proof {
            assert(d >= 1) by (nonlinear_arith)
                requires
                    d == self.den() * rhs.den(),
                    self.den() >= 1,
                    rhs.den() >= 1,
            ;
        }
        Ok(Chance::new(n, d))
    }

    /// Scales the numerator by an integer, reduced; fails exactly when
    /// the scaled numerator exceeds the machine word range.
    pub fn multiply_scalar(self, rhs: usize) -> (r: Result<Chance, ArithmeticOverflow>)
        requires
            self.den() >= 1,
        ensures
            r is Ok <==> self.num() * (rhs as nat) <= usize::MAX,
            (r matches Ok(c) ==> c == Self::spec_new(self.num() * (rhs as nat), self.den())),
            (r matches Ok(c) ==> c.reduced()),
    {
        let n = match self.numerator.checked_mul(rhs) {
            Some(v) => v,
            None => {
                return Err(ArithmeticOverflow);
            },
        };
        Ok(Chance::new(n, self.denominator))
    }

    /// Scales the denominator by a positive integer, reduced; fails
    /// exactly when the scaled denominator exceeds the machine word range.
    pub fn divide_scalar(self, rhs: usize) -> (r: Result<Chance, ArithmeticOverflow>)
        requires
            self.den() >= 1,
            rhs >= 1,
        ensures
            r is Ok <==> self.den() * (rhs as nat) <= usize::MAX,
            (r matches Ok(c) ==> c == Self::spec_new(self.num(), self.den() * (rhs as nat))),
            (r matches Ok(c) ==> c.reduced()),
    {
        let d = match self.denominator.checked_mul(rhs) {
            Some(v) => v,
            None => {
                return Err(ArithmeticOverflow);
            },
        };
        proof {
            assert(d >= 1) by (nonlinear_arith)
                requires
                    d == self.den() * (rhs as nat),
                    self.den() >= 1,
                    rhs >= 1,
            ;
        }
        Ok(Chance::new(self.numerator, d))
    }
}

/// The facts about reduction that `Chance::new` needs: the reduced parts
/// are no larger than the inputs, are coprime, and stand for the same
/// rational as the inputs.
pub proof fn lemma_reduce_facts(n: nat, d: nat)
    requires
        d >= 1,
    ensures
        reduced_num(n, d) <= n,
        reduced_den(n, d) <= d,
        1 <= reduced_den(n, d),
        1 <= spec_gcd(n, d),
        spec_gcd(reduced_num(n, d), reduced_den(n, d)) == 1,
        reduced_num(n, d) * d == n * reduced_den(n, d),
        d == 1 ==> reduced_num(n, d) == n && reduced_den(n, d) == d,
        spec_gcd(n, d) == 1 ==> reduced_num(n, d) == n && reduced_den(n, d) == d,
        n >= 1 ==> reduced_num(n, d) >= 1,
{
    let g = spec_gcd(n, d);
    lemma_gcd_pos(n, d);
    lemma_gcd_divides(n, d);
    lemma_divides_div_exact(g, n);
    lemma_divides_div_exact(g, d);
    lemma_div_nonincreasing(n as int, g as int);
    lemma_div_nonincreasing(d as int, g as int);
    lemma_gcd_coprime_after_div(n, d);
    assert(d / g >= 1) by (nonlinear_arith)
        requires
            d == g * (d / g),
            d >= 1,
            g >= 1,
    ;
    assert((n / g) * d == n * (d / g)) by (nonlinear_arith)
        requires
            n == g * (n / g),
            d == g * (d / g),
    ;
    if d == 1 {
        lemma_gcd_one(n);
    }
    if n >= 1 {
        assert(reduced_num(n, d) >= 1) by (nonlinear_arith)
            requires
                n == spec_gcd(n, d) * reduced_num(n, d),
                n >= 1,
        ;
    }
    if spec_gcd(n, d) == 1 {
        assert(reduced_num(n, d) == n / 1);
        assert(reduced_den(n, d) == d / 1);
        assert(n / 1 == n);
        assert(d / 1 == d);
    }
}

/// Chance equality is rational equality: reducing two fractions that
/// stand for the same rational yields the same chance.
pub proof fn lemma_same_ratio_same_chance(n1: nat, d1: nat, n2: nat, d2: nat)
    requires
        d1 >= 1,
        d2 >= 1,
        n1 * d2 == n2 * d1,
    ensures
        Chance::spec_new(n1, d1) == Chance::spec_new(n2, d2),
{
    lemma_reduce_facts(n1, d1);
    lemma_reduce_facts(n2, d2);
    let a1 = reduced_num(n1, d1);
    let b1 = reduced_den(n1, d1);
    let a2 = reduced_num(n2, d2);
    let b2 = reduced_den(n2, d2);
    assert((a1 * b2) * (d1 * d2) == (a2 * b1) * (d1 * d2)) by (nonlinear_arith)
        requires
            a1 * d1 == n1 * b1,
            a2 * d2 == n2 * b2,
            n1 * d2 == n2 * d1,
    ;
    assert(d1 * d2 >= 1) by (nonlinear_arith)
        requires
            d1 >= 1,
            d2 >= 1,
    ;
    assert(a1 * b2 == a2 * b1) by (nonlinear_arith)
        requires
            (a1 * b2) * (d1 * d2) == (a2 * b1) * (d1 * d2),
            d1 * d2 >= 1,
    ;
    lemma_reduced_unique(a1, b1, a2, b2);
}

/// `gcd(n, 1) == 1` for every natural `n`.
pub proof fn lemma_gcd_one(n: nat)
    ensures
        spec_gcd(n, 1) == 1,
{
    assert(n % 1 == 0);
    assert(spec_gcd(n, 1) == spec_gcd(1, 0));
}

/// `gcd(1, n) == 1` for every natural `n`.
pub proof fn lemma_gcd_one_left(n: nat)
    ensures
        spec_gcd(1, n) == 1,
{
    if n == 0 {
    } else if n == 1 {
        assert(1nat % 1 == 0);
        assert(spec_gcd(1, 1) == spec_gcd(1, 0));
    } else {
        vstd::arithmetic::div_mod::lemma_small_mod(1, n);
        assert(1nat % n == 1);
        assert(spec_gcd(1, n) == spec_gcd(n, 1));
        lemma_gcd_one(n);
    }
}

} // verus!
