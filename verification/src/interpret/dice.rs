//! Dice as finite probability distributions over integer side values.
//!
//! A [`Die`] maps side values to [`Chance`]s, with duplicate sides merged
//! by exact addition, zero-chance sides dropped, and entries kept in
//! ascending side order. A [`Dice`] is a "roll `count` copies" descriptor
//! that flattens into a single `Die` by repeated convolution.

use crate::interpret::chance::Chance;
use crate::interpret::ArithmeticOverflow;
use vstd::pervasive::VecAdditionalExecFns;
use vstd::prelude::*;

verus! {

/// Every chance in the sequence has a positive denominator.
pub open spec fn dens_positive(s: Seq<(i32, Chance)>) -> bool {
    forall|i: int| 0 <= i < s.len() ==> (#[trigger] s[i]).1.den() >= 1
}

/// Every chance in the sequence has a positive numerator.
pub open spec fn nums_positive(s: Seq<(i32, Chance)>) -> bool {
    forall|i: int| 0 <= i < s.len() ==> (#[trigger] s[i]).1.num() >= 1
}

/// Side values are strictly ascending, hence unique.
pub open spec fn sorted_unique(s: Seq<(i32, Chance)>) -> bool {
    forall|i: int, j: int| 0 <= i < j < s.len() ==> (#[trigger] s[i]).0 < (#[trigger] s[j]).0
}

/// The index of side `v` in `s`, or -1 when absent.
pub open spec fn index_of(s: Seq<(i32, Chance)>, v: i32) -> int
    decreases s.len(),
{
    if s.len() == 0 {
        -1
    } else if s[0].0 == v {
        0
    } else if index_of(s.drop_first(), v) < 0 {
        -1
    } else {
        index_of(s.drop_first(), v) + 1
    }
}

/// Where a new side `v` is inserted to keep a sorted sequence sorted:
/// the length of the prefix of sides below `v`.
pub open spec fn insert_pos(s: Seq<(i32, Chance)>, v: i32) -> int
    decreases s.len(),
{
    if s.len() == 0 {
        0
    } else if s[0].0 < v {
        1 + insert_pos(s.drop_first(), v)
    } else {
        0
    }
}

/// The reduced exact sum of two chances (meaningful when the
/// cross-multiplied sum fits in machine words).
pub open spec fn spec_chance_add(a: Chance, b: Chance) -> Chance {
    Chance::spec_new(a.num() * b.den() + b.num() * a.den(), a.den() * b.den())
}

/// The reduced exact product of two chances (meaningful when the
/// products fit in machine words).
pub open spec fn spec_chance_mul(a: Chance, b: Chance) -> Chance {
    Chance::spec_new(a.num() * b.num(), a.den() * b.den())
}

/// One step of merging an entry into an accumulated entry list:
/// zero-chance entries are dropped, an existing side absorbs the chance
/// by exact addition, and a new side is inserted in sorted position.
pub open spec fn merge_step(acc: Seq<(i32, Chance)>, e: (i32, Chance)) -> Seq<(i32, Chance)> {
    if e.1.num() == 0 {
        acc
    } else if index_of(acc, e.0) >= 0 {
        acc.update(index_of(acc, e.0), (e.0, spec_chance_add(acc[index_of(acc, e.0)].1, e.1)))
    } else {
        acc.insert(insert_pos(acc, e.0), e)
    }
}

/// The merge step stays within machine words.
pub open spec fn merge_step_fits(acc: Seq<(i32, Chance)>, e: (i32, Chance)) -> bool {
    e.1.num() == 0 || index_of(acc, e.0) < 0 || acc[index_of(acc, e.0)].1.add_fits(e.1)
}

/// The result of merging a whole entry list, left to right.
pub open spec fn merged(s: Seq<(i32, Chance)>) -> Seq<(i32, Chance)>
    decreases s.len(),
{
    if s.len() == 0 {
        Seq::empty()
    } else {
        merge_step(merged(s.drop_last()), s.last())
    }
}

/// Merging the whole entry list stays within machine words.
pub open spec fn merge_fits(s: Seq<(i32, Chance)>) -> bool
    decreases s.len(),
{
    if s.len() == 0 {
        true
    } else {
        merge_fits(s.drop_last()) && merge_step_fits(merged(s.drop_last()), s.last())
    }
}

/// Characterizes `index_of`: -1 exactly when the side is absent, else a
/// valid position holding that side.
pub proof fn lemma_index_of_spec(s: Seq<(i32, Chance)>, v: i32)
    ensures
        index_of(s, v) == -1 || (0 <= index_of(s, v) < s.len() && s[index_of(s, v)].0 == v),
        index_of(s, v) == -1 ==> forall|i: int| 0 <= i < s.len() ==> (#[trigger] s[i]).0 != v,
        (exists|i: int| 0 <= i < s.len() && (#[trigger] s[i]).0 == v) ==> index_of(s, v) >= 0,
    decreases s.len(),
{
    if s.len() == 0 {
    } else if s[0].0 == v {
    } else {
        lemma_index_of_spec(s.drop_first(), v);
        assert(forall|i: int| 0 <= i < s.len() - 1 ==> (#[trigger] s.drop_first()[i]) == s[i + 1]);
        if index_of(s.drop_first(), v) == -1 {
            assert forall|i: int| 0 <= i < s.len() implies (#[trigger] s[i]).0 != v by {
                if i > 0 {
                    assert(s[i] == s.drop_first()[i - 1]);
                }
            }
        }
        if exists|i: int| 0 <= i < s.len() && (#[trigger] s[i]).0 == v {
            let i = choose|i: int| 0 <= i < s.len() && (#[trigger] s[i]).0 == v;
            assert(i > 0);
            assert(s.drop_first()[i - 1] == s[i]);
        }
    }
}

/// In a sorted sequence the position of a side is unique.
pub proof fn lemma_index_of_unique(s: Seq<(i32, Chance)>, v: i32, i: int)
    requires
        sorted_unique(s),
        0 <= i < s.len(),
        s[i].0 == v,
    ensures
        index_of(s, v) == i,
{
    lemma_index_of_spec(s, v);
    let j = index_of(s, v);
    if j < i {
        assert(s[j].0 < s[i].0);
    } else if j > i {
        assert(s[i].0 < s[j].0);
    }
}

/// Characterizes `insert_pos` on a sorted sequence: everything before it
/// is below `v`, everything from it on is at or above `v`.
pub proof fn lemma_insert_pos_spec(s: Seq<(i32, Chance)>, v: i32)
    requires
        sorted_unique(s),
    ensures
        0 <= insert_pos(s, v) <= s.len(),
        forall|i: int| 0 <= i < insert_pos(s, v) ==> (#[trigger] s[i]).0 < v,
        forall|i: int| insert_pos(s, v) <= i < s.len() ==> (#[trigger] s[i]).0 >= v,
    decreases s.len(),
{
    if s.len() == 0 {
    } else {
        let rest = s.drop_first();
        assert(forall|i: int| 0 <= i < rest.len() ==> (#[trigger] rest[i]) == s[i + 1]);
        assert(sorted_unique(rest));
        lemma_insert_pos_spec(rest, v);
        if s[0].0 < v {
            let p = 1 + insert_pos(rest, v);
            assert forall|i: int| 0 <= i < p implies (#[trigger] s[i]).0 < v by {
                if i > 0 {
                    assert(s[i] == rest[i - 1]);
                }
            }
            assert forall|i: int| p <= i < s.len() implies (#[trigger] s[i]).0 >= v by {
                assert(s[i] == rest[i - 1]);
            }
        } else {
            assert forall|i: int| 0 <= i < s.len() implies (#[trigger] s[i]).0 >= v by {
                if i > 0 {
                    assert(s[0].0 < s[i].0);
                }
            }
        }
    }
}

/// A merge step preserves sortedness, positive denominators, and
/// positive numerators.
pub proof fn lemma_merge_step_wf(acc: Seq<(i32, Chance)>, e: (i32, Chance))
    requires
        sorted_unique(acc),
        dens_positive(acc),
        nums_positive(acc),
        e.1.den() >= 1,
        merge_step_fits(acc, e),
    ensures
        sorted_unique(merge_step(acc, e)),
        dens_positive(merge_step(acc, e)),
        nums_positive(merge_step(acc, e)),
{
    if e.1.num() == 0 {
    } else {
        lemma_index_of_spec(acc, e.0);
        let i = index_of(acc, e.0);
        if i >= 0 {
            let a = acc[i].1;
            let n = a.num() * e.1.den() + e.1.num() * a.den();
            let d = a.den() * e.1.den();
            assert(n >= 1 && d >= 1) by (nonlinear_arith)
                requires
                    n == a.num() * e.1.den() + e.1.num() * a.den(),
                    d == a.den() * e.1.den(),
                    a.num() >= 1,
                    a.den() >= 1,
                    e.1.den() >= 1,
                    e.1.num() >= 1,
            ;
            crate::interpret::chance::lemma_reduce_facts(n, d);
            let r = merge_step(acc, e);
            assert(forall|j: int|
                0 <= j < r.len() ==> (#[trigger] r[j]).0 == acc[j].0);
        } else {
            lemma_insert_pos_spec(acc, e.0);
            let p = insert_pos(acc, e.0);
            let r = acc.insert(p, e);
            assert forall|x: int, y: int| 0 <= x < y < r.len() implies (#[trigger] r[x]).0 < (
            #[trigger] r[y]).0 by {
                if x < p && y < p {
                    assert(r[x] == acc[x] && r[y] == acc[y]);
                } else if x < p && y == p {
                    assert(r[x] == acc[x]);
                } else if x < p && y > p {
                    assert(r[x] == acc[x] && r[y] == acc[y - 1]);
                } else if x == p {
                    assert(r[y] == acc[y - 1]);
                    assert(acc[y - 1].0 >= e.0);
                    assert(acc[y - 1].0 != e.0);
                } else {
                    assert(r[x] == acc[x - 1] && r[y] == acc[y - 1]);
                }
            }
            assert forall|j: int| 0 <= j < r.len() implies (#[trigger] r[j]).1.den() >= 1 && r[j].1.num()
                >= 1 by {
                if j < p {
                    assert(r[j] == acc[j]);
                } else if j == p {
                } else {
                    assert(r[j] == acc[j - 1]);
                }
            }
        }
    }
}

/// Folding one more entry into a merged list.
pub proof fn lemma_merged_push(s: Seq<(i32, Chance)>, e: (i32, Chance))
    ensures
        merged(s.push(e)) == merge_step(merged(s), e),
        merge_fits(s.push(e)) <==> merge_fits(s) && merge_step_fits(merged(s), e),
{
    assert(s.push(e).drop_last() =~= s);
    assert(s.push(e).last() == e);
}

/// A merged entry list is sorted with positive chances throughout.
pub proof fn lemma_merged_wf(s: Seq<(i32, Chance)>)
    requires
        dens_positive(s),
        merge_fits(s),
    ensures
        sorted_unique(merged(s)),
        dens_positive(merged(s)),
        nums_positive(merged(s)),
    decreases s.len(),
{
    if s.len() > 0 {
        let front = s.drop_last();
        assert(forall|i: int| 0 <= i < front.len() ==> (#[trigger] front[i]) == s[i]);
        lemma_merged_wf(front);
        lemma_merge_step_wf(merged(front), s.last());
    }
}

/// A finite probability distribution over `i32` side values.
///
/// Entries are kept in ascending side order with unique sides, every
/// chance has a positive numerator and denominator, and duplicate sides
/// are merged by exact addition at construction time.
#[derive(Clone, Debug, PartialEq)]
pub struct Die {
    entries: Vec<(i32, Chance)>,
}

impl View for Die {
    type V = Seq<(i32, Chance)>;

    closed spec fn view(&self) -> Seq<(i32, Chance)> {
        self.entries@
    }
}

impl Die {
    /// The well-formedness invariant every constructed `Die` satisfies.
    pub open spec fn wf(self) -> bool {
        &&& sorted_unique(self@)
        &&& dens_positive(self@)
        &&& nums_positive(self@)
    }

    /// Read access to the entries, ascending by side value.
    pub fn entries(&self) -> (r: &Vec<(i32, Chance)>)
        requires
            self.wf(),
        ensures
            r@ == self@,
    {
        &self.entries
    }

    /// An exact copy of this distribution.
    pub fn duplicate(&self) -> (r: Die)
        requires
            self.wf(),
        ensures
            r@ == self@,
            r.wf(),
    {
        let mut entries: Vec<(i32, Chance)> = Vec::new();
        let n = self.entries.len();
        let mut k: usize = 0;
        while k < n
            invariant
                k <= n,
                n == self.entries@.len(),
                entries@ == self.entries@.take(k as int),
            decreases n - k,
        {
            entries.push(self.entries[k]);
            proof {
                assert(self.entries@.take(k + 1 as int) =~= self.entries@.take(k as int).push(
                    self.entries@[k as int],
                ));
            }
            k = k + 1;
        }
        proof {
            assert(self.entries@.take(n as int) =~= self.entries@);
        }
        Die { entries }
    }

    /// Builds a die from `(side, chance)` entries: zero-numerator entries
    /// are dropped, duplicate sides merged by exact chance addition, and
    /// the result ordered ascending by side. Fails exactly when a merged
    /// chance overflows the machine word range.
    pub fn new(chances: Vec<(i32, Chance)>) -> (r: Result<Die, ArithmeticOverflow>)
        requires
            dens_positive(chances@),
        ensures
            r is Ok <==> merge_fits(chances@),
            (r matches Ok(d) ==> d@ == merged(chances@)),
            (r matches Ok(d) ==> d.wf()),
    {
        let ghost all = chances@;
        let mut entries: Vec<(i32, Chance)> = Vec::new();
        let n = chances.len();
        let mut k: usize = 0;
        while k < n
            invariant
                k <= n,
                n == all.len(),
                all == chances@,
                dens_positive(all),
                entries@ == merged(all.take(k as int)),
                merge_fits(all.take(k as int)),
                sorted_unique(entries@),
                dens_positive(entries@),
                nums_positive(entries@),
            decreases n - k,
        {
            let e = chances[k];
            proof {
                assert(all.take(k as int).push(all[k as int]) =~= all.take(k + 1 as int));
                lemma_merged_push(all.take(k as int), all[k as int]);
                assert(forall|i: int|
                    0 <= i < all.len() ==> (#[trigger] all.take(all.len() as int)[i]) == all[i]);
            }
            if e.1.numerator != 0 {
                // Find the first position whose side is not below e.0.
                let mut idx: usize = 0;
                let len = entries.len();
                while idx < len && entries[idx].0 < e.0
                    invariant
                        idx <= len,
                        len == entries@.len(),
                        forall|j: int| 0 <= j < idx ==> (#[trigger] entries@[j]).0 < e.0,
                        sorted_unique(entries@),
                    decreases len - idx,
                {
                    idx = idx + 1;
                }
                if idx < entries.len() && entries[idx].0 == e.0 {
                    proof {
                        lemma_index_of_unique(entries@, e.0, idx as int);
                    }
                    let merged_chance = match entries[idx].1.add(e.1) {
                        Ok(c) => c,
                        Err(err) => {
                            proof {
                                lemma_merge_fits_prefix(all, k as int);
                            }
                            return Err(err);
                        },
                    };
                    entries.set(idx, (e.0, merged_chance));
                    proof {
                        lemma_merge_step_wf(merged(all.take(k as int)), all[k as int]);
                    }
                } else {
                    proof {
                        lemma_index_of_spec(entries@, e.0);
                        lemma_insert_pos_spec(entries@, e.0);
                        assert forall|j: int| 0 <= j < entries@.len() implies (#[trigger] entries@[
                        j]).0 != e.0 by {
                            if j >= idx {
                                if j > idx {
                                    assert(entries@[idx as int].0 < entries@[j].0);
                                }
                            }
                        }
                        assert(index_of(entries@, e.0) == -1);
                        // idx and insert_pos agree: both are the length of
                        // the prefix of sides below e.0.
                        let p = insert_pos(entries@, e.0);
                        if p < idx {
                            assert(entries@[p].0 < e.0);
                            assert(entries@[p].0 >= e.0);
                        }
                        if p > idx {
                            assert(entries@[idx as int].0 < e.0);
                        }
                        assert(p == idx);
                    }
                    entries.insert(idx, e);
                    proof {
                        lemma_merge_step_wf(merged(all.take(k as int)), all[k as int]);
                    }
                }
            }
            k = k + 1;
        }
        proof {
            assert(all.take(n as int) =~= all);
        }
        Ok(Die { entries })
    }

    /// A fair die: sides `1..=size` for positive `size`, `size..=-1` for
    /// negative `size`, each with chance `1/|size|`; no sides at all for
    /// `size == 0`.
    pub fn new_regular(largest_side: i32) -> (r: Die)
        requires
            largest_side > i32::MIN,
        ensures
            r.wf(),
            r@.len() == abs_side(largest_side),
            forall|i: int|
                0 <= i < r@.len() ==> (#[trigger] r@[i]) == (
                (regular_start(largest_side) + i) as i32,
                Chance { numerator: 1, denominator: abs_side(largest_side) as usize },
                ),
    {
        let n_abs: usize = if largest_side < 0 {
            (-(largest_side as i64)) as usize
        } else {
            largest_side as usize
        };
        let mut entries: Vec<(i32, Chance)> = Vec::new();
        if n_abs == 0 {
            return Die { entries };
        }
        let start: i32 = if largest_side < 0 {
            largest_side
        } else {
            1
        };
        let mut k: usize = 0;
        proof {
            crate::interpret::chance::lemma_gcd_one_left(n_abs as nat);
            crate::interpret::chance::lemma_reduce_facts(1nat, n_abs as nat);
        }
        while k < n_abs
            invariant
                k <= n_abs,
                n_abs == abs_side(largest_side),
                n_abs >= 1,
                start == regular_start(largest_side),
                start + n_abs - 1 <= i32::MAX,
                entries@.len() == k,
                forall|i: int|
                    0 <= i < k ==> (#[trigger] entries@[i]) == (
                    (start + i) as i32,
                    Chance { numerator: 1, denominator: n_abs },
                    ),
            decreases n_abs - k,
        {
            let side = start + (k as i32);
            proof {
                crate::interpret::chance::lemma_gcd_one_left(n_abs as nat);
                crate::interpret::chance::lemma_reduce_facts(1nat, n_abs as nat);
            }
            let chance = Chance::new(1, n_abs);
            proof {
                assert(chance == Chance { numerator: 1, denominator: n_abs });
            }
            entries.push((side, chance));
            k = k + 1;
        }
        proof {
            assert(sorted_unique(entries@));
        }
        Die { entries }
    }

    /// Shifts every side up by `rhs` and re-merges; chances are untouched.
    pub fn add_scalar(&self, rhs: i32) -> (r: Result<Die, ArithmeticOverflow>)
        requires
            self.wf(),
        ensures
            r is Ok <==> add_in_range(self@, rhs) && merge_fits(shifted_add(self@, rhs)),
            (r matches Ok(d) ==> d@ == merged(shifted_add(self@, rhs))),
            (r matches Ok(d) ==> d.wf()),
    {
        let ghost target = shifted_add(self@, rhs);
        let mut mapped: Vec<(i32, Chance)> = Vec::new();
        let n = self.entries.len();
        let mut k: usize = 0;
        while k < n
            invariant
                k <= n,
                n == self@.len(),
                self.wf(),
                target == shifted_add(self@, rhs),
                mapped@ == target.take(k as int),
                forall|i: int| 0 <= i < k ==> i32::MIN <= (#[trigger] self@[i]).0 + rhs <= i32::MAX,
            decreases n - k,
        {
            let side = match self.entries[k].0.checked_add(rhs) {
                Some(v) => v,
                None => {
                    return Err(ArithmeticOverflow);
                },
            };
            mapped.push((side, self.entries[k].1));
            proof {
                assert(target.take(k + 1 as int) =~= target.take(k as int).push(target[k as int]));
            }
            k = k + 1;
        }
        proof {
            assert(target.take(n as int) =~= target);
            assert(dens_positive(target));
        }
        Die::new(mapped)
    }

    /// Shifts every side down by `rhs` and re-merges; chances are untouched.
    pub fn subtract_scalar(&self, rhs: i32) -> (r: Result<Die, ArithmeticOverflow>)
        requires
            self.wf(),
        ensures
            r is Ok <==> sub_in_range(self@, rhs) && merge_fits(shifted_sub(self@, rhs)),
            (r matches Ok(d) ==> d@ == merged(shifted_sub(self@, rhs))),
            (r matches Ok(d) ==> d.wf()),
    {
        let ghost target = shifted_sub(self@, rhs);
        let mut mapped: Vec<(i32, Chance)> = Vec::new();
        let n = self.entries.len();
        let mut k: usize = 0;
        while k < n
            invariant
                k <= n,
                n == self@.len(),
                self.wf(),
                target == shifted_sub(self@, rhs),
                mapped@ == target.take(k as int),
                forall|i: int| 0 <= i < k ==> i32::MIN <= (#[trigger] self@[i]).0 - rhs <= i32::MAX,
            decreases n - k,
        {
            let side = match self.entries[k].0.checked_sub(rhs) {
                Some(v) => v,
                None => {
                    return Err(ArithmeticOverflow);
                },
            };
            mapped.push((side, self.entries[k].1));
            proof {
                assert(target.take(k + 1 as int) =~= target.take(k as int).push(target[k as int]));
            }
            k = k + 1;
        }
        proof {
            assert(target.take(n as int) =~= target);
            assert(dens_positive(target));
        }
        Die::new(mapped)
    }

    /// Scales every side by `rhs` and re-merges; chances are untouched.
    pub fn multiply_scalar(&self, rhs: i32) -> (r: Result<Die, ArithmeticOverflow>)
        requires
            self.wf(),
        ensures
            r is Ok <==> scale_in_range(self@, rhs) && merge_fits(scaled(self@, rhs)),
            (r matches Ok(d) ==> d@ == merged(scaled(self@, rhs))),
            (r matches Ok(d) ==> d.wf()),
    {
        let ghost target = scaled(self@, rhs);
        let mut mapped: Vec<(i32, Chance)> = Vec::new();
        let n = self.entries.len();
        let mut k: usize = 0;
        while k < n
            invariant
                k <= n,
                n == self@.len(),
                self.wf(),
                target == scaled(self@, rhs),
                mapped@ == target.take(k as int),
                forall|i: int| 0 <= i < k ==> i32::MIN <= (#[trigger] self@[i]).0 * rhs <= i32::MAX,
            decreases n - k,
        {
            let side = match self.entries[k].0.checked_mul(rhs) {
                Some(v) => v,
                None => {
                    return Err(ArithmeticOverflow);
                },
            };
            mapped.push((side, self.entries[k].1));
            proof {
                assert(target.take(k + 1 as int) =~= target.take(k as int).push(target[k as int]));
            }
            k = k + 1;
        }
        proof {
            assert(target.take(n as int) =~= target);
            assert(dens_positive(target));
        }
        Die::new(mapped)
    }

    /// Divides every side by `rhs`, truncating toward zero, and
    /// re-merges; chances are untouched.
    pub fn divide_scalar(&self, rhs: i32) -> (r: Result<Die, ArithmeticOverflow>)
        requires
            self.wf(),
            rhs != 0,
        ensures
            r is Ok <==> div_in_range(self@, rhs) && merge_fits(divided(self@, rhs)),
            (r matches Ok(d) ==> d@ == merged(divided(self@, rhs))),
            (r matches Ok(d) ==> d.wf()),
    {
        let ghost target = divided(self@, rhs);
        let mut mapped: Vec<(i32, Chance)> = Vec::new();
        let n = self.entries.len();
        let mut k: usize = 0;
        while k < n
            invariant
                k <= n,
                n == self@.len(),
                self.wf(),
                rhs != 0,
                target == divided(self@, rhs),
                mapped@ == target.take(k as int),
                forall|i: int|
                    0 <= i < k ==> i32::MIN <= trunc_div(
                        (#[trigger] self@[i]).0 as int,
                        rhs as int,
                    ) <= i32::MAX,
            decreases n - k,
        {
            let side = match self.entries[k].0.checked_div(rhs) {
                Some(v) => v,
                None => {
                    return Err(ArithmeticOverflow);
                },
            };
            mapped.push((side, self.entries[k].1));
            proof {
                assert(target.take(k + 1 as int) =~= target.take(k as int).push(target[k as int]));
            }
            k = k + 1;
        }
        proof {
            assert(target.take(n as int) =~= target);
            assert(dens_positive(target));
        }
        Die::new(mapped)
    }
}

/// The sides shifted up by `rhs`, chances untouched (before re-merging).
pub open spec fn shifted_add(s: Seq<(i32, Chance)>, rhs: i32) -> Seq<(i32, Chance)> {
    Seq::new(s.len(), |i: int| (((s[i].0 + rhs) as i32), s[i].1))
}

/// Every shifted side stays within `i32`.
pub open spec fn add_in_range(s: Seq<(i32, Chance)>, rhs: i32) -> bool {
    forall|i: int| 0 <= i < s.len() ==> i32::MIN <= (#[trigger] s[i]).0 + rhs <= i32::MAX
}

/// The sides shifted down by `rhs`, chances untouched (before re-merging).
pub open spec fn shifted_sub(s: Seq<(i32, Chance)>, rhs: i32) -> Seq<(i32, Chance)> {
    Seq::new(s.len(), |i: int| (((s[i].0 - rhs) as i32), s[i].1))
}

/// Every down-shifted side stays within `i32`.
pub open spec fn sub_in_range(s: Seq<(i32, Chance)>, rhs: i32) -> bool {
    forall|i: int| 0 <= i < s.len() ==> i32::MIN <= (#[trigger] s[i]).0 - rhs <= i32::MAX
}

/// The sides scaled by `rhs`, chances untouched (before re-merging).
pub open spec fn scaled(s: Seq<(i32, Chance)>, rhs: i32) -> Seq<(i32, Chance)> {
    Seq::new(s.len(), |i: int| (((s[i].0 * rhs) as i32), s[i].1))
}

/// Every scaled side stays within `i32`.
pub open spec fn scale_in_range(s: Seq<(i32, Chance)>, rhs: i32) -> bool {
    forall|i: int| 0 <= i < s.len() ==> i32::MIN <= (#[trigger] s[i]).0 * rhs <= i32::MAX
}

/// Integer division truncating toward zero, as Rust's `/` computes it.
pub open spec fn trunc_div(a: int, b: int) -> int {
    if a == 0 {
        0
    } else if a > 0 && b > 0 {
        a / b
    } else if a < 0 && b < 0 {
        (a * -1) / (b * -1)
    } else if a < 0 {
        ((a * -1) / b) * -1
    } else {
        (a / (b * -1)) * -1
    }
}

/// The sides divided by `rhs` (truncating toward zero), chances
/// untouched (before re-merging).
pub open spec fn divided(s: Seq<(i32, Chance)>, rhs: i32) -> Seq<(i32, Chance)> {
    Seq::new(s.len(), |i: int| ((trunc_div(s[i].0 as int, rhs as int) as i32), s[i].1))
}

/// Every divided side stays within `i32`.
pub open spec fn div_in_range(s: Seq<(i32, Chance)>, rhs: i32) -> bool {
    forall|i: int|
        0 <= i < s.len() ==> i32::MIN <= trunc_div((#[trigger] s[i]).0 as int, rhs as int)
            <= i32::MAX
}

/// The number of sides of a regular die of the given size.
pub open spec fn abs_side(s: i32) -> int {
    if s < 0 {
        -(s as int)
    } else {
        s as int
    }
}

/// The lowest side of a regular die of the given size.
pub open spec fn regular_start(s: i32) -> int {
    if s < 0 {
        s as int
    } else {
        1
    }
}

/// One convolution pair: sides add, chances multiply.
pub open spec fn cross_pair(e: (i32, Chance), x: (i32, Chance)) -> (i32, Chance) {
    (((e.0 + x.0) as i32), spec_chance_mul(e.1, x.1))
}

/// The convolution pairs of one entry of the new die against every
/// entry of the accumulated die.
pub open spec fn cross_row(acc: Seq<(i32, Chance)>, e: (i32, Chance)) -> Seq<(i32, Chance)> {
    Seq::new(acc.len(), |j: int| cross_pair(e, acc[j]))
}

/// All convolution pairs of two dice, row by row of the new die.
pub open spec fn cross_seq(acc: Seq<(i32, Chance)>, curr: Seq<(i32, Chance)>) -> Seq<
    (i32, Chance),
>
    decreases curr.len(),
{
    if curr.len() == 0 {
        Seq::empty()
    } else {
        cross_seq(acc, curr.drop_last()) + cross_row(acc, curr.last())
    }
}

/// Every pair's side sum stays within `i32` and every chance product
/// within machine words.
pub open spec fn cross_fits(acc: Seq<(i32, Chance)>, curr: Seq<(i32, Chance)>) -> bool {
    forall|i: int, j: int|
        0 <= i < curr.len() && 0 <= j < acc.len() ==> i32::MIN <= (#[trigger] curr[i]).0 + (
        #[trigger] acc[j]).0 <= i32::MAX && curr[i].1.mul_fits(acc[j].1)
}

/// Convolution pairs of dice with positive denominators have positive
/// denominators, as long as the products fit.
pub proof fn lemma_cross_dens(acc: Seq<(i32, Chance)>, curr: Seq<(i32, Chance)>)
    requires
        dens_positive(acc),
        dens_positive(curr),
        cross_fits(acc, curr),
    ensures
        dens_positive(cross_seq(acc, curr)),
        cross_seq(acc, curr).len() == acc.len() * curr.len(),
    decreases curr.len(),
{
    if curr.len() == 0 {
        assert(acc.len() * 0 == 0) by (nonlinear_arith);
    } else {
        let front = curr.drop_last();
        assert(forall|i: int| 0 <= i < front.len() ==> (#[trigger] front[i]) == curr[i]);
        lemma_cross_dens(acc, front);
        let row = cross_row(acc, curr.last());
        assert forall|j: int| 0 <= j < row.len() implies (#[trigger] row[j]).1.den() >= 1 by {
            let e = curr.last();
            let x = acc[j];
            let d = e.1.den() * x.1.den();
            assert(d >= 1 && d <= usize::MAX) by (nonlinear_arith)
                requires
                    d == e.1.den() * x.1.den(),
                    e.1.den() >= 1,
                    x.1.den() >= 1,
                    e.1.mul_fits(x.1),
                    e.1.num() * x.1.num() <= usize::MAX,
                    e.1.den() * x.1.den() <= usize::MAX,
            ;
            crate::interpret::chance::lemma_reduce_facts(e.1.num() * x.1.num(), d);
        }
        assert(acc.len() * curr.len() == acc.len() * front.len() + acc.len()) by (nonlinear_arith)
            requires
                curr.len() == front.len() + 1,
        ;
    }
}

/// Convolves two dice: for every pair of sides, the combined side is
/// the sum and the combined chance the product; the pairs are then
/// merged into a die. Fails exactly when a side sum, chance product, or
/// merged chance leaves the machine range.
pub fn convolve(acc: &Die, curr: &Die) -> (r: Result<Die, ArithmeticOverflow>)
    requires
        acc.wf(),
        curr.wf(),
    ensures
        r is Ok <==> cross_fits(acc@, curr@) && merge_fits(cross_seq(acc@, curr@)),
        (r matches Ok(d) ==> d@ == merged(cross_seq(acc@, curr@))),
        (r matches Ok(d) ==> d.wf()),
{
    let mut pairs: Vec<(i32, Chance)> = Vec::new();
    let n_curr = curr.entries.len();
    let mut i: usize = 0;
    while i < n_curr
        invariant
            i <= n_curr,
            n_curr == curr@.len(),
            acc.wf(),
            curr.wf(),
            pairs@ == cross_seq(acc@, curr@.take(i as int)),
            forall|x: int, j: int|
                0 <= x < i && 0 <= j < acc@.len() ==> i32::MIN <= (#[trigger] curr@[x]).0 + (
                #[trigger] acc@[j]).0 <= i32::MAX && curr@[x].1.mul_fits(acc@[j].1),
        decreases n_curr - i,
    {
        let e = curr.entries[i];
        let n_acc = acc.entries.len();
        let mut j: usize = 0;
        while j < n_acc
            invariant
                j <= n_acc,
                i < n_curr,
                n_acc == acc@.len(),
                n_curr == curr@.len(),
                acc.wf(),
                curr.wf(),
                e == curr@[i as int],
                pairs@ == cross_seq(acc@, curr@.take(i as int)) + cross_row(acc@, e).take(
                    j as int,
                ),
                forall|x: int, y: int|
                    0 <= x < i && 0 <= y < acc@.len() ==> i32::MIN <= (#[trigger] curr@[x]).0 + (
                    #[trigger] acc@[y]).0 <= i32::MAX && curr@[x].1.mul_fits(acc@[y].1),
                forall|y: int|
                    0 <= y < j ==> i32::MIN <= e.0 + (#[trigger] acc@[y]).0 <= i32::MAX
                        && e.1.mul_fits(acc@[y].1),
            decreases n_acc - j,
        {
            let x = acc.entries[j];
            let side = match e.0.checked_add(x.0) {
                Some(v) => v,
                None => {
                    return Err(ArithmeticOverflow);
                },
            };
            let chance = match e.1.multiply(x.1) {
                Ok(c) => c,
                Err(err) => {
                    return Err(err);
                },
            };
            pairs.push((side, chance));
            proof {
                assert(cross_row(acc@, e).take(j + 1 as int) =~= cross_row(acc@, e).take(
                    j as int,
                ).push(cross_pair(e, acc@[j as int])));
            }
            j = j + 1;
        }
        proof {
            assert(cross_row(acc@, e).take(n_acc as int) =~= cross_row(acc@, e));
            assert(curr@.take(i + 1 as int).drop_last() =~= curr@.take(i as int));
            assert(cross_seq(acc@, curr@.take(i + 1 as int)) == cross_seq(
                acc@,
                curr@.take(i as int),
            ) + cross_row(acc@, curr@.take(i + 1 as int).last()));
        }
        i = i + 1;
    }
    proof {
        assert(curr@.take(n_curr as int) =~= curr@);
        lemma_cross_dens(acc@, curr@);
    }
    Die::new(pairs)
}

/// The convolution of `k` copies of a die, folded pairwise from the
/// left; one copy (or none) is the die itself, unconvolved.
pub open spec fn spec_power(die: Seq<(i32, Chance)>, k: nat) -> Seq<(i32, Chance)>
    decreases k,
{
    if k <= 1 {
        die
    } else {
        merged(cross_seq(spec_power(die, (k - 1) as nat), die))
    }
}

/// Convolving `k` copies of a die stays within machine words throughout.
pub open spec fn spec_power_fits(die: Seq<(i32, Chance)>, k: nat) -> bool
    decreases k,
{
    if k <= 1 {
        true
    } else {
        &&& spec_power_fits(die, (k - 1) as nat)
        &&& cross_fits(spec_power(die, (k - 1) as nat), die)
        &&& merge_fits(cross_seq(spec_power(die, (k - 1) as nat), die))
    }
}

/// A convolution power of a well-formed die is well-formed.
pub proof fn lemma_spec_power_wf(die: Seq<(i32, Chance)>, k: nat)
    requires
        sorted_unique(die),
        dens_positive(die),
        nums_positive(die),
        spec_power_fits(die, k),
    ensures
        sorted_unique(spec_power(die, k)),
        dens_positive(spec_power(die, k)),
        nums_positive(spec_power(die, k)),
    decreases k,
{
    if k > 1 {
        lemma_spec_power_wf(die, (k - 1) as nat);
        lemma_cross_dens(spec_power(die, (k - 1) as nat), die);
        lemma_merged_wf(cross_seq(spec_power(die, (k - 1) as nat), die));
    }
}

/// Fitting a taller convolution power implies fitting every shorter one.
pub proof fn lemma_spec_power_fits_mono(die: Seq<(i32, Chance)>, m: nat, k: nat)
    requires
        m <= k,
        spec_power_fits(die, k),
    ensures
        spec_power_fits(die, m),
    decreases k,
{
    if m < k && k > 1 {
        lemma_spec_power_fits_mono(die, m, (k - 1) as nat);
    }
}

/// The absolute value of a dice count.
pub open spec fn abs_count(c: i32) -> nat {
    if c < 0 {
        (-(c as int)) as nat
    } else {
        c as nat
    }
}

/// A "roll `count` copies of `die` and sum them" descriptor, prior to
/// convolution.
#[derive(Clone, Debug, PartialEq)]
pub struct Dice {
    pub count: i32,
    pub die: Die,
}

/// What flattening a `Dice` yields: no sides for a zero count, the
/// `|count|`-fold convolution for a positive count, and the same with
/// every side negated for a negative count.
pub open spec fn flattened_model(dice: Dice) -> Seq<(i32, Chance)> {
    if dice.count == 0 {
        Seq::empty()
    } else if dice.count > 0 {
        spec_power(dice.die@, abs_count(dice.count))
    } else {
        merged(scaled(spec_power(dice.die@, abs_count(dice.count)), -1i32))
    }
}

/// Flattening a `Dice` stays within machine words throughout.
pub open spec fn flattened_fits(dice: Dice) -> bool {
    if dice.count == 0 {
        true
    } else {
        &&& spec_power_fits(dice.die@, abs_count(dice.count))
        &&& (dice.count < 0 ==> scale_in_range(
            spec_power(dice.die@, abs_count(dice.count)),
            -1i32,
        ) && merge_fits(scaled(spec_power(dice.die@, abs_count(dice.count)), -1i32)))
    }
}

impl Dice {
    pub open spec fn wf(self) -> bool {
        self.die.wf()
    }

    /// Pairs a count with a die.
    pub fn new(count: i32, die: Die) -> (r: Dice)
        ensures
            r.count == count,
            r.die == die,
    {
        Dice { count, die }
    }

    /// Convolves the pool into a single effective die and rewraps it
    /// with a count of 1, so later operations do not re-expand it.
    /// A pool whose count is already 1 comes back unchanged.
    pub fn flatten(self) -> (r: Result<Dice, ArithmeticOverflow>)
        requires
            self.wf(),
        ensures
            r is Ok <==> flattened_fits(self),
            (r matches Ok(f) ==> f.count == 1 && f.die@ == flattened_model(self) && f.die.wf()),
            (self.count == 1 ==> (r matches Ok(f) && f.die@ == self.die@)),
    {
        match Die::from_dice(self) {
            Ok(d) => Ok(Dice { count: 1, die: d }),
            Err(e) => Err(e),
        }
    }
}

impl Die {
    /// Flattens a dice pool into a single die: the `|count|`-fold
    /// pairwise convolution of the die with itself, with every side
    /// negated afterward when the count is negative, and an empty die
    /// for a zero count.
    pub fn from_dice(dice: Dice) -> (r: Result<Die, ArithmeticOverflow>)
        requires
            dice.wf(),
        ensures
            r is Ok <==> flattened_fits(dice),
            (r matches Ok(d) ==> d@ == flattened_model(dice)),
            (r matches Ok(d) ==> d.wf()),
    {
        if dice.count == 0 {
            let entries: Vec<(i32, Chance)> = Vec::new();
            return Ok(Die { entries });
        }
        let n_abs: usize = if dice.count < 0 {
            (-(dice.count as i64)) as usize
        } else {
            dice.count as usize
        };
        let mut acc = dice.die.duplicate();
        let mut k: usize = 1;
        while k < n_abs
            invariant
                1 <= k <= n_abs,
                n_abs == abs_count(dice.count),
                dice.wf(),
                acc.wf(),
                acc@ == spec_power(dice.die@, k as nat),
                spec_power_fits(dice.die@, k as nat),
            decreases n_abs - k,
        {
            acc = match convolve(&acc, &dice.die) {
                Ok(d) => d,
                Err(e) => {
                    proof {
                        lemma_power_fits_fail(dice.die@, (k + 1) as nat, n_abs as nat);
                    }
                    return Err(e);
                },
            };
            k = k + 1;
        }
        if dice.count < 0 {
            acc.multiply_scalar(-1)
        } else {
            Ok(acc)
        }
    }
}

/// When a convolution power does not fit, no taller power fits either.
pub proof fn lemma_power_fits_fail(die: Seq<(i32, Chance)>, m: nat, k: nat)
    requires
        m <= k,
        !spec_power_fits(die, m),
    ensures
        !spec_power_fits(die, k),
{
    if spec_power_fits(die, k) {
        lemma_spec_power_fits_mono(die, m, k);
    }
}

/// Some entry of `s` has side `v`.
pub open spec fn has_side(s: Seq<(i32, Chance)>, v: i32) -> bool {
    exists|j: int| 0 <= j < s.len() && (#[trigger] s[j]).0 == v
}

/// The chances listed for side `v`, skipping zero-chance entries, in
/// the order they appear.
pub open spec fn chances_at(s: Seq<(i32, Chance)>, v: i32) -> Seq<Chance>
    decreases s.len(),
{
    if s.len() == 0 {
        Seq::empty()
    } else if s.last().0 == v && s.last().1.num() != 0 {
        chances_at(s.drop_last(), v).push(s.last().1)
    } else {
        chances_at(s.drop_last(), v)
    }
}

/// The left fold of exact chance addition: a single chance is kept as
/// it stands; each further chance is added and the sum reduced.
pub open spec fn chance_fold(cs: Seq<Chance>) -> Chance
    decreases cs.len(),
{
    if cs.len() <= 1 {
        cs[0]
    } else {
        spec_chance_add(chance_fold(cs.drop_last()), cs.last())
    }
}

/// Every step of the chance fold stays within machine words.
pub open spec fn fold_fits(cs: Seq<Chance>) -> bool
    decreases cs.len(),
{
    if cs.len() <= 1 {
        true
    } else {
        fold_fits(cs.drop_last()) && chance_fold(cs.drop_last()).add_fits(cs.last())
    }
}

/// The exact rational sum of a list of chances, cross-multiplied and
/// left unreduced.
pub open spec fn rat_sum(cs: Seq<Chance>) -> (nat, nat)
    decreases cs.len(),
{
    if cs.len() <= 1 {
        (cs[0].num(), cs[0].den())
    } else {
        let r = rat_sum(cs.drop_last());
        (r.0 * cs.last().den() + cs.last().num() * r.1, r.1 * cs.last().den())
    }
}

/// The merge law: a side appears in a merged die exactly when some
/// entry listed it with a nonzero chance, and it carries the exact sum
/// of all chances listed for it.
pub proof fn lemma_merged_chances(s: Seq<(i32, Chance)>, v: i32)
    requires
        dens_positive(s),
        merge_fits(s),
    ensures
        has_side(merged(s), v) <==> chances_at(s, v).len() > 0,
        forall|j: int|
            0 <= j < merged(s).len() && (#[trigger] merged(s)[j]).0 == v ==> merged(s)[j].1
                == chance_fold(chances_at(s, v)),
        fold_fits(chances_at(s, v)),
    decreases s.len(),
{
    if s.len() == 0 {
    } else {
        let front = s.drop_last();
        let e = s.last();
        assert(forall|i: int| 0 <= i < front.len() ==> (#[trigger] front[i]) == s[i]);
        lemma_merged_chances(front, v);
        lemma_merged_wf(front);
        let acc = merged(front);
        let m = merged(s);
        let cf = chances_at(front, v);
        lemma_index_of_spec(acc, e.0);
        if e.1.num() == 0 {
            assert(m == acc);
            assert(chances_at(s, v) == cf);
        } else if index_of(acc, e.0) >= 0 {
            let p = index_of(acc, e.0);
            assert(m == acc.update(p, (e.0, spec_chance_add(acc[p].1, e.1))));
            assert(m.len() == acc.len());
            if e.0 == v {
                assert(has_side(acc, v));
                assert(cf.len() > 0);
                assert(chances_at(s, v) == cf.push(e.1));
                assert(cf.push(e.1).drop_last() =~= cf);
                assert(chance_fold(cf.push(e.1)) == spec_chance_add(chance_fold(cf), e.1));
                assert(acc[p].1 == chance_fold(cf));
                assert(m[p].0 == v);
                assert(has_side(m, v));
                assert forall|j: int|
                    0 <= j < m.len() && (#[trigger] m[j]).0 == v implies m[j].1 == chance_fold(
                    chances_at(s, v),
                ) by {
                    if j != p {
                        assert(m[j] == acc[j]);
                        assert(acc[j].0 != acc[p].0);
                    }
                }
            } else {
                assert(chances_at(s, v) == cf);
                assert forall|j: int|
                    0 <= j < m.len() && (#[trigger] m[j]).0 == v implies m[j].1 == chance_fold(
                    cf,
                ) by {
                    assert(j != p);
                    assert(m[j] == acc[j]);
                }
                assert(has_side(m, v) <==> has_side(acc, v)) by {
                    if has_side(m, v) {
                        let j = choose|j: int| 0 <= j < m.len() && (#[trigger] m[j]).0 == v;
                        assert(j != p);
                        assert(acc[j].0 == v);
                    }
                    if has_side(acc, v) {
                        let j = choose|j: int| 0 <= j < acc.len() && (#[trigger] acc[j]).0 == v;
                        assert(j != p);
                        assert(m[j].0 == v);
                    }
                }
            }
        } else {
            let p = insert_pos(acc, e.0);
            lemma_insert_pos_spec(acc, e.0);
            assert(m == acc.insert(p, e));
            assert(m.len() == acc.len() + 1);
            assert(forall|j: int| 0 <= j < p ==> (#[trigger] m[j]) == acc[j]);
            assert(m[p] == e);
            assert(forall|j: int| p < j < m.len() ==> (#[trigger] m[j]) == acc[j - 1]);
            assert(forall|j: int| 0 <= j < acc.len() ==> (#[trigger] acc[j]).0 != e.0);
            if e.0 == v {
                assert(!has_side(acc, v));
                assert(cf.len() == 0);
                assert(chances_at(s, v) == cf.push(e.1));
                assert(chance_fold(cf.push(e.1)) == e.1);
                assert(has_side(m, v));
                assert forall|j: int|
                    0 <= j < m.len() && (#[trigger] m[j]).0 == v implies m[j].1 == chance_fold(
                    chances_at(s, v),
                ) by {
                    if j < p {
                        assert(acc[j].0 != v);
                    } else if j > p {
                        assert(acc[j - 1].0 != v);
                    }
                }
            } else {
                assert(chances_at(s, v) == cf);
                assert(has_side(m, v) <==> has_side(acc, v)) by {
                    if has_side(m, v) {
                        let j = choose|j: int| 0 <= j < m.len() && (#[trigger] m[j]).0 == v;
                        if j < p {
                            assert(acc[j].0 == v);
                        } else {
                            assert(j != p);
                            assert(acc[j - 1].0 == v);
                        }
                    }
                    if has_side(acc, v) {
                        let j = choose|j: int| 0 <= j < acc.len() && (#[trigger] acc[j]).0 == v;
                        if j < p {
                            assert(m[j].0 == v);
                        } else {
                            assert(m[j + 1].0 == v);
                        }
                    }
                }
                assert forall|j: int|
                    0 <= j < m.len() && (#[trigger] m[j]).0 == v implies m[j].1 == chance_fold(
                    cf,
                ) by {
                    assert(j != p);
                    if j < p {
                        assert(m[j] == acc[j]);
                    } else {
                        assert(m[j] == acc[j - 1]);
                    }
                }
            }
        }
    }
}

/// Folding two or more chances with intermediate reductions yields
/// exactly the reduced form of their rational sum: the intermediate
/// reductions change nothing.
pub proof fn lemma_chance_fold_exact(cs: Seq<Chance>)
    requires
        cs.len() >= 1,
        forall|i: int| 0 <= i < cs.len() ==> (#[trigger] cs[i]).den() >= 1,
        fold_fits(cs),
    ensures
        rat_sum(cs).1 >= 1,
        chance_fold(cs).den() >= 1,
        chance_fold(cs).num() * rat_sum(cs).1 == rat_sum(cs).0 * chance_fold(cs).den(),
        cs.len() >= 2 ==> chance_fold(cs) == Chance::spec_new(rat_sum(cs).0, rat_sum(cs).1),
        cs.len() >= 2 ==> chance_fold(cs).reduced(),
    decreases cs.len(),
{
    if cs.len() == 1 {
        assert(chance_fold(cs) == cs[0]);
        assert(rat_sum(cs) == (cs[0].num(), cs[0].den()));
        assert(cs[0].num() * cs[0].den() == cs[0].den() * cs[0].num()) by (nonlinear_arith);
    } else {
        let front = cs.drop_last();
        assert(forall|i: int| 0 <= i < front.len() ==> (#[trigger] front[i]) == cs[i]);
        lemma_chance_fold_exact(front);
        let f = chance_fold(front);
        let sn = rat_sum(front).0;
        let sd = rat_sum(front).1;
        let e = cs.last();
        let n = f.num() * e.den() + e.num() * f.den();
        let d = f.den() * e.den();
        assert(chance_fold(cs) == Chance::spec_new(n, d));
        assert(rat_sum(cs) == (sn * e.den() + e.num() * sd, sd * e.den()));
        assert(d >= 1 && sd * e.den() >= 1) by (nonlinear_arith)
            requires
                d == f.den() * e.den(),
                f.den() >= 1,
                e.den() >= 1,
                sd >= 1,
        ;
        // The step sum and the rational sum stand for the same rational.
        assert(n * (sd * e.den()) == (sn * e.den() + e.num() * sd) * d) by (nonlinear_arith)
            requires
                n == f.num() * e.den() + e.num() * f.den(),
                d == f.den() * e.den(),
                f.num() * sd == sn * f.den(),
        ;
        crate::interpret::chance::lemma_same_ratio_same_chance(
            n,
            d,
            sn * e.den() + e.num() * sd,
            sd * e.den(),
        );
        crate::interpret::chance::lemma_reduce_facts(n, d);
        // The fold stays within machine words, so its reduced parts are
        // stored without truncation.
        assert(f.add_fits(e));
        assert(chance_fold(cs).num() == crate::interpret::chance::reduced_num(n, d));
        assert(chance_fold(cs).den() == crate::interpret::chance::reduced_den(n, d));
        assert(chance_fold(cs).num() * (sd * e.den()) == (sn * e.den() + e.num() * sd)
            * chance_fold(cs).den()) by (nonlinear_arith)
            requires
                chance_fold(cs).num() * d == n * chance_fold(cs).den(),
                n * (sd * e.den()) == (sn * e.den() + e.num() * sd) * d,
                d >= 1,
                sd * e.den() >= 1,
        ;
    }
}

/// The merge law, exactly: a side listed with two or more nonzero
/// chances carries the reduced form of their exact rational sum in the
/// merged die.
pub proof fn lemma_merged_chance_is_exact_sum(s: Seq<(i32, Chance)>, v: i32)
    requires
        dens_positive(s),
        merge_fits(s),
        chances_at(s, v).len() >= 2,
    ensures
        forall|j: int|
            0 <= j < merged(s).len() && (#[trigger] merged(s)[j]).0 == v ==> merged(s)[j].1
                == Chance::spec_new(rat_sum(chances_at(s, v)).0, rat_sum(chances_at(s, v)).1),
{
    lemma_merged_chances(s, v);
    lemma_chances_at_dens(s, v);
    lemma_chance_fold_exact(chances_at(s, v));
}

/// The chances listed for a side inherit positive denominators.
pub proof fn lemma_chances_at_dens(s: Seq<(i32, Chance)>, v: i32)
    requires
        dens_positive(s),
    ensures
        forall|i: int| 0 <= i < chances_at(s, v).len() ==> (#[trigger] chances_at(s, v)[i]).den()
            >= 1,
    decreases s.len(),
{
    if s.len() > 0 {
        let front = s.drop_last();
        assert(forall|i: int| 0 <= i < front.len() ==> (#[trigger] front[i]) == s[i]);
        lemma_chances_at_dens(front, v);
        let cs = chances_at(s, v);
        let cf = chances_at(front, v);
        assert(s.last().1.den() >= 1);
        assert forall|i: int| 0 <= i < cs.len() implies (#[trigger] cs[i]).den() >= 1 by {
            if s.last().0 == v && s.last().1.num() != 0 {
                assert(cs == cf.push(s.last().1));
                if i < cf.len() {
                    assert(cs[i] == cf[i]);
                } else {
                    assert(cs[i] == s.last().1);
                }
            } else {
                assert(cs == cf);
            }
        }
    }
}

/// The entries of a die with every side negated, in reversed order.
pub open spec fn negated_reversed(s: Seq<(i32, Chance)>) -> Seq<(i32, Chance)> {
    Seq::new(s.len(), |i: int| (((s[s.len() - 1 - i].0 * -1) as i32), s[s.len() - 1 - i].1))
}

/// The sign law: scaling every side of a well-formed die by -1 keeps
/// each side's chance and merely reverses the order of the (negated)
/// sides; no merging collision can occur.
pub proof fn lemma_negate_reverses(s: Seq<(i32, Chance)>)
    requires
        sorted_unique(s),
        dens_positive(s),
        nums_positive(s),
        scale_in_range(s, -1i32),
    ensures
        merge_fits(scaled(s, -1i32)),
        merged(scaled(s, -1i32)) == negated_reversed(s),
    decreases s.len(),
{
    let m = scaled(s, -1i32);
    if s.len() == 0 {
        assert(merged(m) =~= negated_reversed(s));
    } else {
        let front = s.drop_last();
        assert(forall|i: int| 0 <= i < front.len() ==> (#[trigger] front[i]) == s[i]);
        lemma_negate_reverses(front);
        assert(m.drop_last() =~= scaled(front, -1i32));
        let acc = negated_reversed(front);
        let e = m.last();
        assert(e.0 == s.last().0 * -1);
        assert(e.1 == s.last().1);
        assert(e.1.num() >= 1);
        assert(merged(m) == merge_step(acc, e));
        assert forall|j: int| 0 <= j < acc.len() implies (#[trigger] acc[j]).0 > e.0 by {
            let src = front.len() - 1 - j;
            assert(front[src].0 < s.last().0);
        }
        lemma_index_of_spec(acc, e.0);
        assert(index_of(acc, e.0) == -1);
        assert(insert_pos(acc, e.0) == 0) by {
            if acc.len() > 0 {
                assert(acc[0].0 >= e.0);
            }
        }
        assert(merge_step(acc, e) == acc.insert(0, e));
        assert(acc.insert(0, e) =~= negated_reversed(s));
    }
}

/// A failing merge step within a prefix makes the whole merge fail.
pub proof fn lemma_merge_fits_prefix(s: Seq<(i32, Chance)>, k: int)
    requires
        0 <= k < s.len(),
        !merge_step_fits(merged(s.take(k)), s[k]),
    ensures
        !merge_fits(s),
    decreases s.len(),
{
    if s.len() == k + 1 {
        assert(s.take(k) =~= s.drop_last());
        assert(s.last() == s[k]);
    } else {
        let front = s.drop_last();
        assert(front.take(k) =~= s.take(k));
        assert(front[k] == s[k]);
        lemma_merge_fits_prefix(front, k);
    }
}

} // verus!
