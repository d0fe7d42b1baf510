//! Greatest common divisor and least common multiple, with the
//! divisibility theory that chance reduction and outcome-weight
//! canonicalization rest on.

use vstd::arithmetic::div_mod::*;
use vstd::arithmetic::mul::*;
use vstd::prelude::*;

verus! {

/// The greatest common divisor, by Euclid's recursion.
/// `spec_gcd(a, 0) == a`, so `spec_gcd(0, 0) == 0`.
pub open spec fn spec_gcd(a: nat, b: nat) -> nat
    decreases b,
{
    if b == 0 {
        a
    } else {
        spec_gcd(b, a % b)
    }
}

/// `d` divides `a` (every natural divides 0, and 0 divides only 0).
pub open spec fn divides(d: nat, a: nat) -> bool {
    exists|k: nat| a == #[trigger] (k * d)
}

/// The least common multiple, 0 when both arguments are 0.
pub open spec fn spec_lcm(a: nat, b: nat) -> nat {
    if a == 0 && b == 0 {
        0
    } else {
        a * (b / spec_gcd(a, b))
    }
}

pub proof fn lemma_divides_refl(a: nat)
    ensures
        divides(a, a),
{
    assert(a == 1 * a);
}

pub proof fn lemma_divides_zero(d: nat)
    ensures
        divides(d, 0),
{
    assert(0nat == 0 * d);
}

pub proof fn lemma_divides_transitive(a: nat, b: nat, c: nat)
    requires
        divides(a, b),
        divides(b, c),
    ensures
        divides(a, c),
{
    let k1 = choose|k1: nat| b == #[trigger] (k1 * a);
    let k2 = choose|k2: nat| c == #[trigger] (k2 * b);
    assert(c == (k2 * k1) * a) by (nonlinear_arith)
        requires
            b == k1 * a,
            c == k2 * b,
    ;
}

pub proof fn lemma_divides_le(d: nat, a: nat)
    requires
        divides(d, a),
        a > 0,
    ensures
        d <= a,
        d > 0,
{
    let k = choose|k: nat| a == #[trigger] (k * d);
    assert(k >= 1 && d >= 1 && k * d >= d) by (nonlinear_arith)
        requires
            a == k * d,
            a > 0,
    ;
}

/// When `d` divides `a`, the remainder of `a` by `d` is 0 and the
/// quotient recovers the witness exactly.
pub proof fn lemma_divides_div_exact(d: nat, a: nat)
    requires
        d > 0,
        divides(d, a),
    ensures
        a % d == 0,
        a == d * (a / d),
        a == (a / d) * d,
{
    let k = choose|k: nat| a == #[trigger] (k * d);
    lemma_mod_multiples_basic(k as int, d as int);
    lemma_fundamental_div_mod(a as int, d as int);
}

/// The gcd divides both of its arguments.
pub proof fn lemma_gcd_divides(a: nat, b: nat)
    ensures
        divides(spec_gcd(a, b), a),
        divides(spec_gcd(a, b), b),
    decreases b,
{
    if b == 0 {
        lemma_divides_refl(a);
        lemma_divides_zero(a);
    } else {
        lemma_gcd_divides(b, a % b);
        let g = spec_gcd(b, a % b);
        let kb = choose|kb: nat| b == #[trigger] (kb * g);
        let kr = choose|kr: nat| a % b == #[trigger] (kr * g);
        lemma_fundamental_div_mod(a as int, b as int);
        lemma_div_pos_is_pos(a as int, b as int);
        let q = (a as int / b as int) as nat;
        assert(a == (kb * q + kr) * g) by (nonlinear_arith)
            requires
                a as int == b as int * (a as int / b as int) + (a as int % b as int),
                q == a as int / b as int,
                b == kb * g,
                a % b == kr * g,
        ;
    }
}

/// The gcd of two naturals, not both 0, is positive.
pub proof fn lemma_gcd_pos(a: nat, b: nat)
    requires
        a > 0 || b > 0,
    ensures
        spec_gcd(a, b) >= 1,
    decreases b,
{
    if b == 0 {
    } else {
        lemma_gcd_pos(b, a % b);
    }
}

/// A common factor scales the gcd: `gcd(k*a, k*b) == k * gcd(a, b)`.
pub proof fn lemma_gcd_scale(k: nat, a: nat, b: nat)
    requires
        k >= 1,
    ensures
        spec_gcd(k * a, k * b) == k * spec_gcd(a, b),
    decreases b,
{
    if b == 0 {
        assert(k * b == 0);
    } else {
        assert(k * b > 0) by (nonlinear_arith)
            requires
                k >= 1,
                b > 0,
        ;
        lemma_truncate_middle(a as int, k as int, b as int);
        assert((k * a) % (k * b) == k * (a % b));
        lemma_mod_decreases(a, b);
        lemma_gcd_scale(k, b, a % b);
    }
}

/// Every common divisor of `a` and `b` divides their gcd.
pub proof fn lemma_gcd_greatest(a: nat, b: nat, d: nat)
    requires
        divides(d, a),
        divides(d, b),
    ensures
        divides(d, spec_gcd(a, b)),
    decreases b,
{
    if b == 0 {
    } else {
        let ka = choose|ka: nat| a == #[trigger] (ka * d);
        let kb = choose|kb: nat| b == #[trigger] (kb * d);
        if d == 0 {
            assert(b == kb * 0);
            assert(false);
        }
        lemma_fundamental_div_mod(a as int, b as int);
        lemma_div_pos_is_pos(a as int, b as int);
        let q = (a as int / b as int) as nat;
        let kr = (ka - kb * q) as int;
        assert(kr * d == a % b && kr >= 0) by (nonlinear_arith)
            requires
                a as int == b as int * (a as int / b as int) + (a as int % b as int),
                q == a as int / b as int,
                a == ka * d,
                b == kb * d,
                d > 0,
                a % b >= 0,
                kr == ka - kb * q,
        ;
        assert(a % b == (kr as nat) * d);
        lemma_gcd_greatest(b, a % b, d);
    }
}

/// Dividing two naturals by their gcd leaves them coprime.
pub proof fn lemma_gcd_coprime_after_div(n: nat, d: nat)
    requires
        d >= 1,
    ensures
        spec_gcd(n / spec_gcd(n, d), d / spec_gcd(n, d)) == 1,
{
    let g = spec_gcd(n, d);
    lemma_gcd_pos(n, d);
    lemma_gcd_divides(n, d);
    lemma_divides_div_exact(g, n);
    lemma_divides_div_exact(g, d);
    lemma_gcd_scale(g, n / g, d / g);
    assert(g * spec_gcd(n / g, d / g) == g);
    assert(spec_gcd(n / g, d / g) == 1) by (nonlinear_arith)
        requires
            g >= 1,
            g * spec_gcd(n / g, d / g) == g,
    ;
}

/// Two reduced fractions representing the same rational are identical.
pub proof fn lemma_reduced_unique(n1: nat, d1: nat, n2: nat, d2: nat)
    requires
        d1 >= 1,
        d2 >= 1,
        spec_gcd(n1, d1) == 1,
        spec_gcd(n2, d2) == 1,
        n1 * d2 == n2 * d1,
    ensures
        n1 == n2,
        d1 == d2,
{
    // d1 divides both n1*d2 and d1*d2, hence their gcd, which is d2.
    assert(n1 * d2 == n2 * d1);
    assert(d1 * d2 == d2 * d1) by (nonlinear_arith);
    assert(divides(d1, n1 * d2));
    assert(divides(d1, d1 * d2));
    lemma_gcd_greatest(n1 * d2, d1 * d2, d1);
    assert(n1 * d2 == d2 * n1 && d1 * d2 == d2 * d1) by (nonlinear_arith);
    lemma_gcd_scale(d2, n1, d1);
    assert(spec_gcd(d2 * n1, d2 * d1) == d2 * 1);
    assert(divides(d1, d2));
    // Symmetrically d2 divides d1.
    assert(divides(d2, n2 * d1));
    assert(divides(d2, d2 * d1));
    lemma_gcd_greatest(n2 * d1, d2 * d1, d2);
    assert(n2 * d1 == d1 * n2 && d2 * d1 == d1 * d2) by (nonlinear_arith);
    lemma_gcd_scale(d1, n2, d2);
    assert(spec_gcd(d1 * n2, d1 * d2) == d1 * 1);
    assert(divides(d2, d1));
    lemma_divides_le(d1, d2);
    lemma_divides_le(d2, d1);
    assert(d1 == d2);
    assert(n1 * d1 == n2 * d1);
    assert(n1 == n2) by (nonlinear_arith)
        requires
            n1 * d1 == n2 * d1,
            d1 >= 1,
    ;
}

/// The lcm of two positive naturals is positive and a common multiple.
pub proof fn lemma_lcm_properties(a: nat, b: nat)
    requires
        a >= 1,
        b >= 1,
    ensures
        spec_lcm(a, b) >= 1,
        divides(a, spec_lcm(a, b)),
        divides(b, spec_lcm(a, b)),
{
    let g = spec_gcd(a, b);
    lemma_gcd_pos(a, b);
    lemma_gcd_divides(a, b);
    lemma_divides_div_exact(g, a);
    lemma_divides_div_exact(g, b);
    let l = a * (b / g);
    assert(b / g >= 1) by (nonlinear_arith)
        requires
            b == g * (b / g),
            b >= 1,
            g >= 1,
    ;
    assert(l >= 1) by (nonlinear_arith)
        requires
            l == a * (b / g),
            a >= 1,
            b / g >= 1,
    ;
    assert(l == (b / g) * a) by (nonlinear_arith)
        requires
            l == a * (b / g),
    ;
    assert(divides(a, l));
    assert(l == (a / g) * b) by (nonlinear_arith)
        requires
            l == a * (b / g),
            a == g * (a / g),
            b == g * (b / g),
    ;
    assert(divides(b, l));
}

/// The least common multiple of a sequence of naturals, folded from 1.
pub open spec fn lcm_seq(s: Seq<nat>) -> nat
    decreases s.len(),
{
    if s.len() == 0 {
        1
    } else {
        spec_lcm(lcm_seq(s.drop_last()), s.last())
    }
}

/// The greatest common divisor of a sequence of naturals, folded from 0.
pub open spec fn gcd_seq(s: Seq<nat>) -> nat
    decreases s.len(),
{
    if s.len() == 0 {
        0
    } else {
        spec_gcd(gcd_seq(s.drop_last()), s.last())
    }
}

/// The lcm of a sequence of positive naturals is positive.
pub proof fn lemma_lcm_seq_pos(s: Seq<nat>)
    requires
        forall|i: int| 0 <= i < s.len() ==> #[trigger] s[i] >= 1,
    ensures
        lcm_seq(s) >= 1,
    decreases s.len(),
{
    if s.len() > 0 {
        lemma_lcm_seq_pos(s.drop_last());
        lemma_lcm_properties(lcm_seq(s.drop_last()), s.last());
    }
}

/// Every element of a sequence of positive naturals divides the
/// sequence's lcm.
pub proof fn lemma_lcm_seq_divides(s: Seq<nat>)
    requires
        forall|i: int| 0 <= i < s.len() ==> #[trigger] s[i] >= 1,
    ensures
        forall|i: int| 0 <= i < s.len() ==> divides(#[trigger] s[i], lcm_seq(s)),
    decreases s.len(),
{
    if s.len() > 0 {
        let front = s.drop_last();
        lemma_lcm_seq_divides(front);
        lemma_lcm_seq_pos(front);
        lemma_lcm_properties(lcm_seq(front), s.last());
        assert forall|i: int| 0 <= i < s.len() implies divides(#[trigger] s[i], lcm_seq(s)) by {
            if i < s.len() - 1 {
                assert(front[i] == s[i]);
                lemma_divides_transitive(s[i], lcm_seq(front), lcm_seq(s));
            }
        }
    }
}

/// The lcm of any prefix of a sequence of positive naturals divides the
/// lcm of the whole sequence.
pub proof fn lemma_lcm_seq_prefix_divides(s: Seq<nat>, j: int)
    requires
        forall|i: int| 0 <= i < s.len() ==> #[trigger] s[i] >= 1,
        0 <= j <= s.len(),
    ensures
        divides(lcm_seq(s.take(j)), lcm_seq(s)),
    decreases s.len(),
{
    if j == s.len() {
        assert(s.take(j) =~= s);
        lemma_divides_refl(lcm_seq(s));
    } else {
        let front = s.drop_last();
        assert(s.take(j) =~= front.take(j));
        lemma_lcm_seq_prefix_divides(front, j);
        lemma_lcm_seq_pos(front);
        lemma_lcm_properties(lcm_seq(front), s.last());
        lemma_divides_transitive(lcm_seq(s.take(j)), lcm_seq(front), lcm_seq(s));
    }
}

/// The gcd of a sequence divides every element of the sequence.
pub proof fn lemma_gcd_seq_divides(s: Seq<nat>)
    ensures
        forall|i: int| 0 <= i < s.len() ==> divides(gcd_seq(s), #[trigger] s[i]),
    decreases s.len(),
{
    if s.len() > 0 {
        let front = s.drop_last();
        lemma_gcd_seq_divides(front);
        lemma_gcd_divides(gcd_seq(front), s.last());
        assert forall|i: int| 0 <= i < s.len() implies divides(gcd_seq(s), #[trigger] s[i]) by {
            if i < s.len() - 1 {
                assert(front[i] == s[i]);
                lemma_divides_transitive(gcd_seq(s), gcd_seq(front), s[i]);
            }
        }
    }
}

/// A sequence with some positive element has a positive gcd.
pub proof fn lemma_gcd_seq_pos(s: Seq<nat>, i: int)
    requires
        0 <= i < s.len(),
        s[i] > 0,
    ensures
        gcd_seq(s) >= 1,
    decreases s.len(),
{
    let front = s.drop_last();
    if i == s.len() - 1 {
        lemma_gcd_pos(gcd_seq(front), s.last());
    } else {
        lemma_gcd_seq_pos(front, i);
        lemma_gcd_pos(gcd_seq(front), s.last());
    }
}

/// The sequence with every element divided by `g`.
pub open spec fn div_each(s: Seq<nat>, g: nat) -> Seq<nat> {
    s.map_values(|w: nat| w / g)
}

/// Dividing every element of a sequence by a common divisor scales the
/// sequence's gcd by the same factor.
pub proof fn lemma_gcd_seq_scale(s: Seq<nat>, g: nat)
    requires
        g >= 1,
        forall|i: int| 0 <= i < s.len() ==> divides(g, #[trigger] s[i]),
    ensures
        g * gcd_seq(div_each(s, g)) == gcd_seq(s),
    decreases s.len(),
{
    let m = div_each(s, g);
    if s.len() == 0 {
        assert(m.len() == 0);
        assert(gcd_seq(m) == 0);
        assert(g * 0nat == 0nat) by (nonlinear_arith);
    } else {
        let front = s.drop_last();
        assert(m.drop_last() =~= div_each(front, g));
        assert(forall|i: int| 0 <= i < front.len() ==> front[i] == s[i]);
        lemma_gcd_seq_scale(front, g);
        lemma_divides_div_exact(g, s.last());
        lemma_gcd_scale(g, gcd_seq(div_each(front, g)), s.last() / g);
        assert(g * (s.last() / g) == s.last());
        assert(m.len() == s.len());
        assert(m.last() == s.last() / g);
        assert(gcd_seq(m) == spec_gcd(gcd_seq(m.drop_last()), m.last()));
        assert(gcd_seq(s) == spec_gcd(gcd_seq(front), s.last()));
        assert(spec_gcd(gcd_seq(front), s.last()) == spec_gcd(
            g * gcd_seq(m.drop_last()),
            g * (s.last() / g),
        ));
    }
}

/// Computes the greatest common divisor of two machine words.
pub fn gcd(first: usize, second: usize) -> (r: usize)
    ensures
        r == spec_gcd(first as nat, second as nat),
{
    let mut a = first;
    let mut b = second;
    while b != 0
        invariant
            spec_gcd(a as nat, b as nat) == spec_gcd(first as nat, second as nat),
        decreases b,
    {
        let t = a % b;
        a = b;
        b = t;
    }
    a
}

/// Computes the least common multiple of two machine words.
///
/// The result must fit in a machine word; spec-level divisibility of the
/// inputs into the result is given by [`lemma_lcm_properties`].
pub fn lcm(first: usize, second: usize) -> (r: usize)
    requires
        spec_lcm(first as nat, second as nat) <= usize::MAX,
    ensures
        r == spec_lcm(first as nat, second as nat),
{
    gcd_lcm(first, second).1
}

/// Computes the greatest common divisor and least common multiple together.
pub fn gcd_lcm(first: usize, second: usize) -> (r: (usize, usize))
    requires
        spec_lcm(first as nat, second as nat) <= usize::MAX,
    ensures
        r.0 == spec_gcd(first as nat, second as nat),
        r.1 == spec_lcm(first as nat, second as nat),
{
    if first == 0 && second == 0 {
        return (0, 0);
    }
    let g = gcd(first, second);
    proof {
        lemma_gcd_pos(first as nat, second as nat);
        lemma_gcd_divides(first as nat, second as nat);
        lemma_divides_div_exact(g as nat, second as nat);
    }
    let l = first * (second / g);
    (g, l)
}

} // verus!
