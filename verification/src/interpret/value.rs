//! Evaluated values and their canonicalization into integer-weighted
//! outcomes.
//!
//! A [`Value`] is a number, a dice pool, or a sequence. Converting one
//! into outcomes flattens dice, scales the chances up by the least
//! common multiple of their denominators, and divides the resulting
//! integer weights by their greatest common divisor, leaving the
//! minimal exact representation.

use crate::interpret::chance::Chance;
use crate::interpret::dice::{flattened_fits, flattened_model, dens_positive, nums_positive, Dice, Die};
use crate::interpret::factor::{
    div_each, divides, gcd, gcd_seq, lcm_seq, lemma_divides_div_exact, lemma_divides_le,
    lemma_gcd_divides, lemma_gcd_pos, lemma_gcd_seq_divides, lemma_gcd_seq_pos,
    lemma_gcd_seq_scale, lemma_lcm_seq_divides, lemma_lcm_seq_pos, lemma_lcm_seq_prefix_divides,
    spec_gcd, spec_lcm,
};
use crate::interpret::ArithmeticOverflow;
use crate::outcome::Outcome;
use vstd::arithmetic::div_mod::lemma_div_nonincreasing;
use vstd::prelude::*;

verus! {

/// The result of evaluating an expression.
#[derive(Clone, Debug, PartialEq)]
pub enum Value {
    /// A single number.
    Number(i32),
    /// A pool of dice, not yet flattened.
    Dice(Dice),
    /// An ordered sequence of numbers.
    Sequence(Vec<i32>),
}

/// The chance denominators of a die's entries.
pub open spec fn dens_of(s: Seq<(i32, Chance)>) -> Seq<nat> {
    Seq::new(s.len(), |i: int| s[i].1.den())
}

/// The integer weights after scaling every chance by the lcm of all
/// denominators: weight `i` is `num_i * (L / den_i)`.
pub open spec fn raw_weights(s: Seq<(i32, Chance)>) -> Seq<nat> {
    Seq::new(s.len(), |i: int| s[i].1.num() * (lcm_seq(dens_of(s)) / s[i].1.den()))
}

/// The scale-up pass stays within machine words.
pub open spec fn canonical_fits(s: Seq<(i32, Chance)>) -> bool {
    &&& lcm_seq(dens_of(s)) <= usize::MAX
    &&& forall|i: int| 0 <= i < s.len() ==> #[trigger] raw_weights(s)[i] <= usize::MAX
}

/// The canonical outcomes of a die: its sides in order, each carrying
/// its raw weight divided by the gcd of all raw weights.
pub open spec fn canonical_outcomes(s: Seq<(i32, Chance)>) -> Seq<Outcome> {
    Seq::new(
        s.len(),
        |i: int| Outcome {
            value: s[i].0,
            weight: (raw_weights(s)[i] / gcd_seq(raw_weights(s))) as usize,
        },
    )
}

/// Each element as an outcome of weight 1, in order.
pub open spec fn unit_outcomes(vals: Seq<i32>) -> Seq<Outcome> {
    Seq::new(vals.len(), |i: int| Outcome { value: vals[i], weight: 1 })
}

/// The weights of a sequence of outcomes, as naturals.
pub open spec fn weights_of(outs: Seq<Outcome>) -> Seq<nat> {
    Seq::new(outs.len(), |i: int| outs[i].weight as nat)
}

/// Raw weights of a well-formed die are positive.
pub proof fn lemma_raw_weights_pos(s: Seq<(i32, Chance)>)
    requires
        dens_positive(s),
        nums_positive(s),
    ensures
        forall|i: int| 0 <= i < s.len() ==> #[trigger] raw_weights(s)[i] >= 1,
        lcm_seq(dens_of(s)) >= 1,
{
    let dens = dens_of(s);
    assert(forall|i: int| 0 <= i < dens.len() ==> #[trigger] dens[i] >= 1);
    lemma_lcm_seq_pos(dens);
    lemma_lcm_seq_divides(dens);
    let l = lcm_seq(dens);
    assert forall|i: int| 0 <= i < s.len() implies #[trigger] raw_weights(s)[i] >= 1 by {
        assert(divides(dens[i], l));
        lemma_divides_div_exact(dens[i], l);
        assert(s[i].1.num() * (l / s[i].1.den()) >= 1) by (nonlinear_arith)
            requires
                l == s[i].1.den() * (l / s[i].1.den()),
                l >= 1,
                s[i].1.den() >= 1,
                s[i].1.num() >= 1,
        ;
    }
}

/// The canonicalization law: after the lcm scale-up and gcd scale-down,
/// the weights are positive integers with no common factor above 1.
pub proof fn lemma_canonical_minimal(s: Seq<(i32, Chance)>)
    requires
        dens_positive(s),
        nums_positive(s),
        canonical_fits(s),
        s.len() > 0,
    ensures
        gcd_seq(weights_of(canonical_outcomes(s))) == 1,
        forall|i: int|
            0 <= i < s.len() ==> #[trigger] canonical_outcomes(s)[i].weight >= 1,
{
    let rw = raw_weights(s);
    lemma_raw_weights_pos(s);
    let g = gcd_seq(rw);
    lemma_gcd_seq_pos(rw, 0);
    lemma_gcd_seq_divides(rw);
    lemma_gcd_seq_scale(rw, g);
    assert(gcd_seq(div_each(rw, g)) == 1) by (nonlinear_arith)
        requires
            g * gcd_seq(div_each(rw, g)) == gcd_seq(rw),
            gcd_seq(rw) == g,
            g >= 1,
    ;
    assert forall|i: int| 0 <= i < s.len() implies #[trigger] canonical_outcomes(s)[i].weight >= 1
        && canonical_outcomes(s)[i].weight as nat == div_each(rw, g)[i] by {
        lemma_divides_div_exact(g, rw[i]);
        lemma_div_nonincreasing(rw[i] as int, g as int);
        assert(rw[i] / g >= 1) by (nonlinear_arith)
            requires
                rw[i] == g * (rw[i] / g),
                rw[i] >= 1,
                g >= 1,
        ;
    }
    assert(weights_of(canonical_outcomes(s)) =~= div_each(rw, g));
}

impl Value {
    /// Dice pools carried inside a value are well-formed.
    pub open spec fn wf(self) -> bool {
        match self {
            Value::Dice(dice) => dice.wf(),
            _ => true,
        }
    }

    /// Converts the value into exact integer-weighted outcomes.
    ///
    /// A number becomes a single outcome of weight 1. A sequence maps
    /// each element, in order, to an outcome of weight 1; an empty
    /// sequence becomes the single outcome `(0, 1)`. A dice pool is
    /// flattened and canonicalized by the lcm/gcd two-pass scaling; an
    /// empty flattened die also becomes `(0, 1)`. Fails exactly when
    /// flattening or scaling would overflow the machine word range.
    pub fn into_outcomes(self) -> (r: Result<Vec<Outcome>, ArithmeticOverflow>)
        requires
            self.wf(),
        ensures
            (self matches Value::Number(v) ==> (r matches Ok(out) && out@ == seq![
                Outcome { value: v, weight: 1 },
            ])),
            (self matches Value::Sequence(vals) ==> r is Ok),
            (self matches Value::Sequence(vals) ==> (vals@.len() == 0 ==> (r matches Ok(out)
                && out@ == seq![Outcome { value: 0, weight: 1 }]))),
            (self matches Value::Sequence(vals) ==> (vals@.len() > 0 ==> (r matches Ok(out)
                && out@ == unit_outcomes(vals@)))),
            (self matches Value::Dice(dice) ==> (r is Ok <==> flattened_fits(dice) && (
            flattened_model(dice).len() > 0 ==> canonical_fits(flattened_model(dice))))),
            (self matches Value::Dice(dice) ==> (flattened_fits(dice) && flattened_model(
                dice,
            ).len() == 0 ==> (r matches Ok(out) && out@ == seq![
                Outcome { value: 0, weight: 1 },
            ]))),
            (self matches Value::Dice(dice) ==> (r is Ok && flattened_model(dice).len() > 0 ==> (
            r matches Ok(out) && out@ == canonical_outcomes(flattened_model(dice))))),
    {
        match self {
            Value::Number(v) => {
                let out: Vec<Outcome> = vec![Outcome { value: v, weight: 1 }];
                proof {
                    assert(out@ =~= seq![Outcome { value: v, weight: 1 }]);
                }
                Ok(out)
            },
            Value::Sequence(vals) => {
                if vals.len() == 0 {
                    let out: Vec<Outcome> = vec![Outcome { value: 0, weight: 1 }];
                    proof {
                        assert(out@ =~= seq![Outcome { value: 0, weight: 1 }]);
                    }
                    return Ok(out);
                }
                let mut out: Vec<Outcome> = Vec::new();
                let n = vals.len();
                let mut k: usize = 0;
                while k < n
                    invariant
                        k <= n,
                        n == vals@.len(),
                        out@ == unit_outcomes(vals@).take(k as int),
                    decreases n - k,
                {
                    out.push(Outcome { value: vals[k], weight: 1 });
                    proof {
                        assert(unit_outcomes(vals@).take(k + 1 as int) =~= unit_outcomes(
                            vals@,
                        ).take(k as int).push(unit_outcomes(vals@)[k as int]));
                    }
                    k = k + 1;
                }
                proof {
                    assert(unit_outcomes(vals@).take(n as int) =~= unit_outcomes(vals@));
                }
                Ok(out)
            },
            Value::Dice(dice) => {
                let die = match Die::from_dice(dice) {
                    Ok(d) => d,
                    Err(e) => {
                        return Err(e);
                    },
                };
                canonicalize_die(&die)
            },
        }
    }
}

/// The lcm/gcd two-pass canonicalization of a flattened die.
fn canonicalize_die(die: &Die) -> (r: Result<Vec<Outcome>, ArithmeticOverflow>)
    requires
        die.wf(),
    ensures
        r is Ok <==> (die@.len() > 0 ==> canonical_fits(die@)),
        (die@.len() == 0 ==> (r matches Ok(out) && out@ == seq![Outcome { value: 0, weight: 1 }])),
        (die@.len() > 0 && r is Ok ==> (r matches Ok(out) && out@ == canonical_outcomes(die@))),
{
    let ghost s = die@;
    let ghost dens = dens_of(s);
    let entries = die.entries();
    let n = entries.len();
    if n == 0 {
        let out: Vec<Outcome> = vec![Outcome { value: 0, weight: 1 }];
        proof {
            assert(out@ =~= seq![Outcome { value: 0, weight: 1 }]);
        }
        return Ok(out);
    }
    proof {
        assert(forall|i: int| 0 <= i < dens.len() ==> #[trigger] dens[i] >= 1);
        lemma_lcm_seq_pos(dens);
        lemma_lcm_seq_divides(dens);
        lemma_raw_weights_pos(s);
    }
    // First pass: the least common multiple of all denominators.
    let mut l: usize = 1;
    let mut k: usize = 0;
    while k < n
        invariant
            k <= n,
            n == s.len(),
            die.wf(),
            s == die@,
            dens == dens_of(s),
            entries@ == s,
            1 <= l,
            l == lcm_seq(dens.take(k as int)),
        decreases n - k,
    {
        let den = entries[k].1.denominator;
        proof {
            assert(dens[k as int] == s[k as int].1.den());
            lemma_gcd_pos(l as nat, den as nat);
            lemma_gcd_divides(l as nat, den as nat);
            lemma_divides_div_exact(spec_gcd(l as nat, den as nat), den as nat);
        }
        let g = gcd(l, den);
        let q = den / g;
        let nl = match l.checked_mul(q) {
            Some(v) => v,
            None => {
                proof {
                    let stepped = lcm_seq(dens.take(k + 1 as int));
                    assert(dens.take(k + 1 as int).drop_last() =~= dens.take(k as int));
                    assert(dens.take(k + 1 as int).last() == dens[k as int]);
                    assert(stepped == spec_lcm(l as nat, den as nat));
                    lemma_lcm_seq_pos(dens);
                    lemma_lcm_seq_prefix_divides(dens, k + 1 as int);
                    lemma_divides_le(stepped, lcm_seq(dens));
                }
                return Err(ArithmeticOverflow);
            },
        };
        proof {
            assert(dens.take(k + 1 as int).drop_last() =~= dens.take(k as int));
            assert(dens.take(k + 1 as int).last() == dens[k as int]);
            assert(lcm_seq(dens.take(k + 1 as int)) == spec_lcm(l as nat, den as nat));
            assert(nl >= 1) by (nonlinear_arith)
                requires
                    nl == l * ((den as nat) / spec_gcd(l as nat, den as nat)),
                    den as nat == spec_gcd(l as nat, den as nat) * ((den as nat) / spec_gcd(
                        l as nat,
                        den as nat,
                    )),
                    den >= 1,
                    l >= 1,
            ;
        }
        l = nl;
        k = k + 1;
    }
    proof {
        assert(dens.take(n as int) =~= dens);
    }
    // Second pass: scale every numerator up to an integer weight.
    let ghost rw = raw_weights(s);
    let mut raws: Vec<usize> = Vec::new();
    k = 0;
    while k < n
        invariant
            k <= n,
            n == s.len(),
            die.wf(),
            s == die@,
            dens == dens_of(s),
            rw == raw_weights(s),
            entries@ == s,
            l == lcm_seq(dens),
            1 <= l,
            raws@.len() == k,
            forall|i: int| 0 <= i < k ==> #[trigger] raws@[i] as nat == rw[i],
        decreases n - k,
    {
        let den = entries[k].1.denominator;
        let num = entries[k].1.numerator;
        proof {
            assert(dens[k as int] == s[k as int].1.den());
            lemma_lcm_seq_divides(dens);
            assert(divides(dens[k as int], lcm_seq(dens)));
            lemma_divides_div_exact(den as nat, l as nat);
        }
        let q = l / den;
        let w = match num.checked_mul(q) {
            Some(v) => v,
            None => {
                proof {
                    assert(raw_weights(s)[k as int] > usize::MAX);
                }
                return Err(ArithmeticOverflow);
            },
        };
        raws.push(w);
        k = k + 1;
    }
    proof {
        assert forall|i: int| 0 <= i < s.len() implies #[trigger] raw_weights(s)[i]
            <= usize::MAX by {
            assert(raws@[i] as nat == rw[i]);
        }
        assert(canonical_fits(s));
    }
    // Third pass: the greatest common divisor of the integer weights.
    let mut g_all: usize = 0;
    k = 0;
    while k < n
        invariant
            k <= n,
            n == s.len(),
            n == raws@.len(),
            rw == raw_weights(s),
            canonical_fits(s),
            forall|i: int| 0 <= i < n ==> #[trigger] raws@[i] as nat == rw[i],
            g_all == gcd_seq(rw.take(k as int)),
        decreases n - k,
    {
        proof {
            assert(rw.take(k + 1 as int).drop_last() =~= rw.take(k as int));
        }
        g_all = gcd(g_all, raws[k]);
        k = k + 1;
    }
    proof {
        assert(rw.take(n as int) =~= rw);
        lemma_gcd_seq_pos(rw, 0);
        lemma_gcd_seq_divides(rw);
    }
    // Final pass: divide down to the minimal integer weights.
    let mut out: Vec<Outcome> = Vec::new();
    k = 0;
    while k < n
        invariant
            k <= n,
            n == s.len(),
            n == raws@.len(),
            die.wf(),
            s == die@,
            rw == raw_weights(s),
            forall|i: int| 0 <= i < n ==> #[trigger] raws@[i] as nat == rw[i],
            g_all == gcd_seq(rw),
            canonical_fits(s),
            entries@ == s,
            1 <= g_all,
            out@ == canonical_outcomes(s).take(k as int),
        decreases n - k,
    {
        let w = raws[k] / g_all;
        out.push(Outcome { value: entries[k].0, weight: w });
        proof {
            lemma_div_nonincreasing(rw[k as int] as int, g_all as int);
            assert(canonical_outcomes(s).take(k + 1 as int) =~= canonical_outcomes(s).take(
                k as int,
            ).push(canonical_outcomes(s)[k as int]));
        }
        k = k + 1;
    }
    proof {
        assert(canonical_outcomes(s).take(n as int) =~= canonical_outcomes(s));
    }
    Ok(out)
}

} // verus!
