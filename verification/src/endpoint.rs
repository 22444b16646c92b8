//! One side of a link: an ordered aggregation of (device, count) pairs
//! and the non-linear rule that combines them into one effective power.
//!
//! With `m` the largest individual power among the contributions, the
//! combined power is `m * (1 + sum over the other contributions of
//! (p/m)^e)`.  One instance of a maximal contribution serves as the
//! anchor; its own ratio term is exactly one in the fixed-point
//! arithmetic, so the engine computes `m * (sum over all contributions
//! of (p/m)^e) / FRAC_ONE`, which is the same value.  A contribution
//! with exponent zero and power below the maximum adds nothing.

use vstd::prelude::*;
use vstd::math::max;
use vstd::arithmetic::div_mod::lemma_div_is_ordered;
use vstd::arithmetic::div_mod::lemma_div_multiples_vanish;
use vstd::arithmetic::div_mod::lemma_div_pos_is_pos;
use vstd::seq_lib::lemma_fold_right_permutation;
use vstd::seq_lib::commutative_foldr;
use crate::EngineError;
use crate::FRAC_ONE;
use crate::EXP_ONE;
use crate::MAX_POWER;
use crate::MAX_TOTAL_COUNT;
use crate::device::DeviceDefinition;
use crate::device::DeviceView;
use crate::device::view_wf;
use crate::numeric::pow_frac;
use crate::numeric::pow_frac_spec;
use crate::numeric::lemma_pow_frac_spec_bounds;
use crate::numeric::lemma_pow_frac_one;

verus! {

/// One contribution line: power, exponent (in `1/EXP_ONE` units), count.
pub type ContribView = (int, int, int);

/// The largest individual power among the contributions; zero when
/// there are none.
pub open spec fn pmax_of(s: Seq<ContribView>) -> int
    decreases s.len(),
{
    if s.len() == 0 {
        0
    } else {
        max(pmax_of(s.drop_last()), s.last().0)
    }
}

/// The scaled ratio term one instance of a contribution adds to the
/// sum: `(p/m)^e` in `FRAC_ONE` units, zero for a non-combinable
/// device below the maximum.
pub open spec fn frac_of(c: ContribView, m: int) -> int {
    if c.0 < m && c.1 == 0 {
        0
    } else {
        pow_frac_spec(c.0 * FRAC_ONE / m, c.1)
    }
}

/// What a whole contribution line adds: count times its ratio term.
pub open spec fn weight_of(c: ContribView, m: int) -> int {
    c.2 * frac_of(c, m)
}

/// The scaled sum of all ratio terms, the anchor's included.
pub open spec fn sum_weights(s: Seq<ContribView>, m: int) -> int
    decreases s.len(),
{
    if s.len() == 0 {
        0
    } else {
        sum_weights(s.drop_last(), m) + weight_of(s.last(), m)
    }
}

/// The combined effective power of a multiset of contributions.
pub open spec fn combined_spec(s: Seq<ContribView>) -> int {
    let m = pmax_of(s);
    if m == 0 {
        0
    } else {
        m * sum_weights(s, m) / (FRAC_ONE as int)
    }
}

/// Every contribution line is within the engine's bounds.
pub open spec fn contribs_wf(s: Seq<ContribView>) -> bool {
    forall|i: int| 0 <= i < s.len() ==> {
        &&& 0 <= (#[trigger] s[i]).0 <= MAX_POWER
        &&& 0 <= s[i].1 <= EXP_ONE
        &&& 1 <= s[i].2
    }
}

/// The total number of individual contributions.
pub open spec fn total_count(s: Seq<ContribView>) -> int
    decreases s.len(),
{
    if s.len() == 0 {
        0
    } else {
        total_count(s.drop_last()) + s.last().2
    }
}

/// An aggregation of (device, count) pairs; one side of a link.
pub struct Endpoint {
    entries: Vec<(DeviceDefinition, u64)>,
}

impl View for Endpoint {
    type V = Seq<(DeviceView, int)>;

    closed spec fn view(&self) -> Seq<(DeviceView, int)> {
        Seq::new(self.entries.len() as nat, |i: int| (self.entries[i].0@, self.entries[i].1 as int))
    }
}

/// The contribution lines of an endpoint's entries.
pub open spec fn contribs(s: Seq<(DeviceView, int)>) -> Seq<ContribView> {
    s.map_values(|e: (DeviceView, int)| (e.0.power, e.0.exp_q, e.1))
}

impl Endpoint {
    pub open spec fn wf(&self) -> bool {
        &&& forall|i: int| 0 <= i < self@.len() ==> view_wf((#[trigger] self@[i]).0) && self@[i].1 >= 1
        &&& total_count(contribs(self@)) <= MAX_TOTAL_COUNT
    }

    /// An endpoint with no contributions yet.
    pub fn new() -> (r: Endpoint)
        ensures
            r@ =~= Seq::<(DeviceView, int)>::empty(),
            r.wf(),
    {
        let r = Endpoint { entries: Vec::new() };
        proof {
            assert(r@ =~= Seq::<(DeviceView, int)>::empty());
            assert(contribs(r@) =~= Seq::<ContribView>::empty());
        }
        r
    }

    /// Whether nothing was added yet.
    pub fn is_empty(&self) -> (r: bool)
        ensures
            r == (self@.len() == 0),
    {
        self.entries.len() == 0
    }

    /// The entries in the order they were added.
    pub fn devices(&self) -> (r: &Vec<(DeviceDefinition, u64)>)
        ensures
            r@.len() == self@.len(),
            forall|i: int| 0 <= i < r@.len() ==> (#[trigger] r@[i]).0@ == self@[i].0 && r@[i].1 == self@[i].1,
    {
        &self.entries
    }

    /// Appends one contribution line; a count of zero is refused.
    /// Repeated lines for one device accumulate independently.
    pub fn add(&mut self, device: DeviceDefinition, count: u64) -> (r: Result<(), EngineError>)
        requires
            old(self).wf(),
            device.wf(),
            total_count(contribs(old(self)@)) + count <= MAX_TOTAL_COUNT,
        ensures
            final(self).wf(),
            match r {
                Ok(()) => count >= 1 && final(self)@ == old(self)@.push((device@, count as int)),
                Err(EngineError::InvalidCount) => count == 0 && final(self)@ == old(self)@,
                Err(_) => false,
            },
    {
        if count == 0 {
            return Err(EngineError::InvalidCount);
        }
        let ghost orig = self@;
        self.entries.push((device, count));
        proof {
            assert(self@ =~= orig.push((device@, count as int)));
            assert(contribs(self@).drop_last() =~= contribs(orig));
            assert(contribs(self@).last() == (device@.power, device@.exp_q, count as int));
            assert forall|i: int| 0 <= i < self@.len()
                implies view_wf((#[trigger] self@[i]).0) && self@[i].1 >= 1 by {
                if i < self@.len() - 1 {
                    assert(self@[i] == orig[i]);
                }
            }
        }
        Ok(())
    }

    /// The combined effective power of all contributions, by the
    /// anchored ratio-sum rule; zero when the endpoint is empty or
    /// every contribution has zero power.
    pub fn combined_power(&self) -> (r: u64)
        requires
            self.wf(),
        ensures
            r == combined_spec(contribs(self@)),
    {
        let ghost cs = contribs(self@);
        let n = self.entries.len();
        // First pass: the maximum individual power.
        let mut pmax: u64 = 0;
        let mut i: usize = 0;
        proof {
            assert(cs.take(0) =~= Seq::<ContribView>::empty());
        }
        while i < n
            invariant
                i <= n,
                n == self.entries.len(),
                cs == contribs(self@),
                self.wf(),
                pmax == pmax_of(cs.take(i as int)),
                pmax <= MAX_POWER,
            decreases n - i,
        {
            proof {
                assert(cs.take(i + 1).drop_last() =~= cs.take(i as int));
                assert(cs.take(i + 1).last() == cs[i as int]);
                assert(cs[i as int].0 == self@[i as int].0.power);
                assert(view_wf(self@[i as int].0));
            }
            let p = self.entries[i].0.power;
            if p > pmax {
                pmax = p;
            }
            i = i + 1;
        }
        proof {
            assert(cs.take(n as int) =~= cs);
        }
        if pmax == 0 {
            return 0;
        }
        // Second pass: the scaled sum of ratio terms.
        let mut sum: u64 = 0;
        let mut i: usize = 0;
        proof {
            assert(cs.take(0) =~= Seq::<ContribView>::empty());
        }
        while i < n
            invariant
                i <= n,
                n == self.entries.len(),
                cs == contribs(self@),
                self.wf(),
                0 < pmax <= MAX_POWER,
                pmax == pmax_of(cs),
                sum == sum_weights(cs.take(i as int), pmax as int),
                sum <= total_count(cs.take(i as int)) * FRAC_ONE,
                total_count(cs.take(i as int)) <= MAX_TOTAL_COUNT,
            decreases n - i,
        {
            proof {
                assert(cs.take(i + 1).drop_last() =~= cs.take(i as int));
                assert(cs.take(i + 1).last() == cs[i as int]);
                assert(cs[i as int] == (self@[i as int].0.power, self@[i as int].0.exp_q, self@[i as int].1));
                assert(view_wf(self@[i as int].0));
                lemma_contribs_wf(self@);
                lemma_pmax_ge(cs, i as int);
                lemma_total_count_le(cs, i + 1);
                lemma_count_in_total(cs, i as int);
            }
            let p = self.entries[i].0.power;
            let e = self.entries[i].0.exp_q;
            let c = self.entries[i].1;
            let f: u64;
            if p < pmax && e == 0 {
                f = 0;
            } else {
                proof {
                    assert((p as int) * (FRAC_ONE as int) <= (pmax as int) * (FRAC_ONE as int))
                        by (nonlinear_arith)
                        requires 0 <= p as int <= pmax as int, FRAC_ONE as int > 0;
                    lemma_div_is_ordered((p as int) * (FRAC_ONE as int), (pmax as int) * (FRAC_ONE as int), pmax as int);
                    lemma_div_multiples_vanish(FRAC_ONE as int, pmax as int);
                    lemma_div_pos_is_pos((p as int) * (FRAC_ONE as int), pmax as int);
                    assert((p as int) * (FRAC_ONE as int) >= 0) by (nonlinear_arith)
                        requires p as int >= 0, FRAC_ONE as int > 0;
                }
                let ratio = ((p as u128) * (FRAC_ONE as u128) / (pmax as u128)) as u64;
                f = pow_frac(ratio, e);
            }
            proof {
                assert(f == frac_of(cs[i as int], pmax as int));
                assert(0 <= f <= FRAC_ONE);
                assert((c as int) * (f as int) <= (c as int) * (FRAC_ONE as int)
                    && 0 <= (c as int) * (f as int))
                    by (nonlinear_arith)
                    requires 0 <= f as int <= FRAC_ONE as int, c as int >= 0;
                assert((c as int) * (FRAC_ONE as int) <= (MAX_TOTAL_COUNT as int) * (FRAC_ONE as int))
                    by (nonlinear_arith)
                    requires 0 <= c as int <= MAX_TOTAL_COUNT as int, FRAC_ONE as int > 0;
                assert(total_count(cs.take(i as int)) * FRAC_ONE + (c as int) * (FRAC_ONE as int)
                    == total_count(cs.take(i + 1)) * FRAC_ONE)
                    by (nonlinear_arith)
                    requires total_count(cs.take(i + 1)) == total_count(cs.take(i as int)) + c as int;
                assert(total_count(cs.take(i + 1)) * FRAC_ONE <= (MAX_TOTAL_COUNT as int) * (FRAC_ONE as int))
                    by (nonlinear_arith)
                    requires total_count(cs.take(i + 1)) <= MAX_TOTAL_COUNT as int, FRAC_ONE as int > 0;
            }
            sum = sum + c * f;
            i = i + 1;
        }
        proof {
            assert(cs.take(n as int) =~= cs);
            assert((pmax as int) * (sum as int) <= (pmax as int) * (MAX_TOTAL_COUNT as int) * (FRAC_ONE as int)
                && 0 <= (pmax as int) * (sum as int))
                by (nonlinear_arith)
                requires
                    0 <= sum as int <= (MAX_TOTAL_COUNT as int) * (FRAC_ONE as int),
                    0 <= pmax as int;
            assert((pmax as int) * (sum as int) / (FRAC_ONE as int) <= (pmax as int) * (MAX_TOTAL_COUNT as int)
                && 0 <= (pmax as int) * (sum as int) / (FRAC_ONE as int))
                by (nonlinear_arith)
                requires
                    0 <= (pmax as int) * (sum as int) <= (pmax as int) * (MAX_TOTAL_COUNT as int) * (FRAC_ONE as int),
                    FRAC_ONE as int > 0;
            assert((pmax as int) * (MAX_TOTAL_COUNT as int) <= (MAX_POWER as int) * (MAX_TOTAL_COUNT as int))
                by (nonlinear_arith)
                requires 0 <= pmax as int <= MAX_POWER as int;
        }
        ((pmax as u128) * (sum as u128) / (FRAC_ONE as u128)) as u64
    }
}

/// The maximum-finding step, as a fold operator.
pub open spec fn pmax_step() -> spec_fn(ContribView, int) -> int {
    |c: ContribView, acc: int| max(acc, c.0)
}

/// The summing step for a given maximum `m`, as a fold operator.
pub open spec fn sum_step(m: int) -> spec_fn(ContribView, int) -> int {
    |c: ContribView, acc: int| acc + weight_of(c, m)
}

/// The maximum of the contributions is never negative.
pub proof fn lemma_pmax_nonneg(s: Seq<ContribView>)
    ensures
        pmax_of(s) >= 0,
    decreases s.len(),
{
    if s.len() > 0 {
        lemma_pmax_nonneg(s.drop_last());
    }
}

proof fn lemma_pmax_fold(s: Seq<ContribView>, v: int)
    requires
        v >= 0,
    ensures
        s.fold_right(pmax_step(), v) == max(pmax_of(s), v),
    decreases s.len(),
{
    if s.len() > 0 {
        lemma_pmax_nonneg(s.drop_last());
        lemma_pmax_fold(s.drop_last(), max(v, s.last().0));
    }
}

proof fn lemma_sum_fold(s: Seq<ContribView>, m: int, v: int)
    ensures
        s.fold_right(sum_step(m), v) == sum_weights(s, m) + v,
    decreases s.len(),
{
    if s.len() > 0 {
        lemma_sum_fold(s.drop_last(), m, v + weight_of(s.last(), m));
    }
}

/// The ratio term of an in-bound contribution is a fraction.
pub proof fn lemma_frac_bounds(c: ContribView, m: int)
    requires
        0 < m,
        0 <= c.0 <= m,
    ensures
        0 <= frac_of(c, m) <= FRAC_ONE,
{
    if c.0 < m && c.1 == 0 {
    } else {
        assert((c.0 * (FRAC_ONE as int)) <= (m * (FRAC_ONE as int)) && 0 <= c.0 * (FRAC_ONE as int))
            by (nonlinear_arith)
            requires 0 <= c.0 <= m, FRAC_ONE as int > 0;
        lemma_div_is_ordered(c.0 * (FRAC_ONE as int), m * (FRAC_ONE as int), m);
        lemma_div_multiples_vanish(FRAC_ONE as int, m);
        lemma_div_pos_is_pos(c.0 * (FRAC_ONE as int), m);
        lemma_pow_frac_spec_bounds(c.0 * (FRAC_ONE as int) / m, c.1);
    }
}

/// Combining a single contribution of one device yields that device's
/// own power, whatever its combinability exponent.
pub proof fn lemma_combined_single(c: ContribView)
    requires
        0 <= c.0,
        c.2 == 1,
    ensures
        combined_spec(seq![c]) == c.0,
{
    let s = seq![c];
    assert(s.drop_last() =~= Seq::<ContribView>::empty());
    assert(s.last() == c);
    assert(pmax_of(Seq::<ContribView>::empty()) == 0);
    assert(sum_weights(Seq::<ContribView>::empty(), c.0) == 0);
    assert(pmax_of(s) == max(0, c.0));
    if c.0 > 0 {
        let m = c.0;
        lemma_div_multiples_vanish(FRAC_ONE as int, m);
        assert(c.0 * (FRAC_ONE as int) == m * (FRAC_ONE as int));
        lemma_pow_frac_one(c.1);
        assert(frac_of(c, m) == FRAC_ONE as int);
        assert(sum_weights(s, m) == 1 * (FRAC_ONE as int));
        assert(m * (1 * (FRAC_ONE as int)) == (FRAC_ONE as int) * m) by (nonlinear_arith);
        lemma_div_multiples_vanish(m, FRAC_ONE as int);
    }
}

/// Combined power does not depend on the order in which contributions
/// were added: any reordering gives the same value.
pub proof fn lemma_combined_permutation(s1: Seq<ContribView>, s2: Seq<ContribView>)
    requires
        s1.to_multiset() == s2.to_multiset(),
    ensures
        combined_spec(s1) == combined_spec(s2),
{
    broadcast use vstd::seq_lib::group_to_multiset_ensures;

    assert(commutative_foldr(pmax_step())) by {
        assert forall|x: ContribView, y: ContribView, v: int|
            #[trigger] pmax_step()(x, pmax_step()(y, v)) == pmax_step()(y, pmax_step()(x, v)) by {}
    }
    lemma_fold_right_permutation(s1, s2, pmax_step(), 0);
    lemma_pmax_fold(s1, 0);
    lemma_pmax_fold(s2, 0);
    lemma_pmax_nonneg(s1);
    lemma_pmax_nonneg(s2);
    assert(pmax_of(s1) == pmax_of(s2));
    let m = pmax_of(s1);
    if m != 0 {
        assert(commutative_foldr(sum_step(m))) by {
            assert forall|x: ContribView, y: ContribView, v: int|
                #[trigger] sum_step(m)(x, sum_step(m)(y, v)) == sum_step(m)(y, sum_step(m)(x, v)) by {}
        }
        lemma_fold_right_permutation(s1, s2, sum_step(m), 0);
        lemma_sum_fold(s1, m, 0);
        lemma_sum_fold(s2, m, 0);
    }
}

proof fn lemma_pmax_same(s1: Seq<ContribView>, s2: Seq<ContribView>)
    requires
        s1.len() == s2.len(),
        forall|i: int| 0 <= i < s1.len() ==> (#[trigger] s1[i]).0 == (#[trigger] s2[i]).0,
    ensures
        pmax_of(s1) == pmax_of(s2),
    decreases s1.len(),
{
    if s1.len() > 0 {
        assert(forall|i: int| 0 <= i < s1.len() - 1 ==> #[trigger] s1.drop_last()[i] == s1[i]);
        assert(forall|i: int| 0 <= i < s2.len() - 1 ==> #[trigger] s2.drop_last()[i] == s2[i]);
        lemma_pmax_same(s1.drop_last(), s2.drop_last());
    }
}

proof fn lemma_sum_mono(s1: Seq<ContribView>, s2: Seq<ContribView>, m: int)
    requires
        0 < m,
        s1.len() == s2.len(),
        forall|i: int| 0 <= i < s1.len() ==> {
            &&& (#[trigger] s1[i]).0 == (#[trigger] s2[i]).0
            &&& s1[i].1 == s2[i].1
            &&& 0 <= s1[i].2 <= s2[i].2
            &&& 0 <= s1[i].0 <= m
        },
    ensures
        sum_weights(s1, m) <= sum_weights(s2, m),
    decreases s1.len(),
{
    if s1.len() > 0 {
        assert(forall|i: int| 0 <= i < s1.len() - 1 ==> #[trigger] s1.drop_last()[i] == s1[i]);
        assert(forall|i: int| 0 <= i < s2.len() - 1 ==> #[trigger] s2.drop_last()[i] == s2[i]);
        lemma_sum_mono(s1.drop_last(), s2.drop_last(), m);
        let c1 = s1.last();
        let c2 = s2.last();
        assert(c1 == s1[s1.len() - 1] && c2 == s2[s2.len() - 1]);
        lemma_frac_bounds(c1, m);
        assert(frac_of(c1, m) == frac_of(c2, m));
        assert(c1.2 * frac_of(c1, m) <= c2.2 * frac_of(c1, m)) by (nonlinear_arith)
            requires 0 <= c1.2 <= c2.2, frac_of(c1, m) >= 0;
    }
}

/// Combined power is monotonically non-decreasing when any
/// contribution's count increases, all else held fixed.
pub proof fn lemma_combined_count_monotone(s1: Seq<ContribView>, s2: Seq<ContribView>)
    requires
        s1.len() == s2.len(),
        forall|i: int| 0 <= i < s1.len() ==> {
            &&& (#[trigger] s1[i]).0 == (#[trigger] s2[i]).0
            &&& s1[i].1 == s2[i].1
            &&& 0 <= s1[i].2 <= s2[i].2
        },
        contribs_wf(s1),
    ensures
        combined_spec(s1) <= combined_spec(s2),
{
    lemma_pmax_same(s1, s2);
    let m = pmax_of(s1);
    if m != 0 {
        lemma_pmax_nonneg(s1);
        assert forall|i: int| 0 <= i < s1.len() implies 0 <= (#[trigger] s1[i]).0 <= m by {
            lemma_pmax_ge(s1, i);
        }
        lemma_sum_mono(s1, s2, m);
        assert(m * sum_weights(s1, m) <= m * sum_weights(s2, m)) by (nonlinear_arith)
            requires m >= 0, sum_weights(s1, m) <= sum_weights(s2, m);
        lemma_div_is_ordered(m * sum_weights(s1, m), m * sum_weights(s2, m), FRAC_ONE as int);
    }
}

/// The maximum power is bounded by any bound on the powers.
proof fn lemma_pmax_le(s: Seq<ContribView>, b: int)
    requires
        b >= 0,
        forall|i: int| 0 <= i < s.len() ==> (#[trigger] s[i]).0 <= b,
    ensures
        pmax_of(s) <= b,
    decreases s.len(),
{
    if s.len() > 0 {
        assert(forall|i: int| 0 <= i < s.len() - 1 ==> (#[trigger] s.drop_last()[i]).0 == s[i].0);
        lemma_pmax_le(s.drop_last(), b);
    }
}

proof fn lemma_pmax_pointwise_mono(s1: Seq<ContribView>, s2: Seq<ContribView>)
    requires
        s1.len() == s2.len(),
        forall|i: int| 0 <= i < s1.len() ==> (#[trigger] s1[i]).0 <= (#[trigger] s2[i]).0,
    ensures
        pmax_of(s1) <= pmax_of(s2),
    decreases s1.len(),
{
    if s1.len() > 0 {
        assert(forall|i: int| 0 <= i < s1.len() - 1 ==> #[trigger] s1.drop_last()[i] == s1[i]);
        assert(forall|i: int| 0 <= i < s2.len() - 1 ==> #[trigger] s2.drop_last()[i] == s2[i]);
        lemma_pmax_pointwise_mono(s1.drop_last(), s2.drop_last());
    }
}

/// A contribution's ratio term never decreases with its power, as long
/// as the power stays at or below the maximum.
proof fn lemma_frac_power_mono(c1: ContribView, c2: ContribView, m: int)
    requires
        0 < m,
        c1.1 == c2.1,
        0 <= c1.0 <= c2.0 <= m,
    ensures
        frac_of(c1, m) <= frac_of(c2, m),
{
    lemma_frac_bounds(c1, m);
    lemma_frac_bounds(c2, m);
    if c1.0 < m && c1.1 == 0 {
    } else {
        assert(c1.0 * (FRAC_ONE as int) <= c2.0 * (FRAC_ONE as int)) by (nonlinear_arith)
            requires c1.0 <= c2.0, FRAC_ONE as int > 0;
        lemma_div_is_ordered(c1.0 * (FRAC_ONE as int), c2.0 * (FRAC_ONE as int), m);
        assert(c2.0 * (FRAC_ONE as int) <= m * (FRAC_ONE as int)) by (nonlinear_arith)
            requires c2.0 <= m, FRAC_ONE as int > 0;
        lemma_div_is_ordered(c2.0 * (FRAC_ONE as int), m * (FRAC_ONE as int), m);
        lemma_div_multiples_vanish(FRAC_ONE as int, m);
        lemma_div_pos_is_pos(c1.0 * (FRAC_ONE as int), m);
        assert(c1.0 * (FRAC_ONE as int) >= 0) by (nonlinear_arith)
            requires c1.0 >= 0, FRAC_ONE as int > 0;
        crate::numeric::lemma_pow_frac_monotone(
            c1.0 * (FRAC_ONE as int) / m,
            c2.0 * (FRAC_ONE as int) / m,
            c1.1,
        );
    }
}

proof fn lemma_sum_weights_power_mono(s1: Seq<ContribView>, s2: Seq<ContribView>, m: int)
    requires
        0 < m,
        s1.len() == s2.len(),
        forall|i: int| 0 <= i < s1.len() ==> {
            &&& (#[trigger] s1[i]).1 == (#[trigger] s2[i]).1
            &&& s1[i].2 == s2[i].2
            &&& 0 <= s1[i].2
            &&& 0 <= s1[i].0 <= s2[i].0 <= m
        },
    ensures
        sum_weights(s1, m) <= sum_weights(s2, m),
    decreases s1.len(),
{
    if s1.len() > 0 {
        assert(forall|i: int| 0 <= i < s1.len() - 1 ==> #[trigger] s1.drop_last()[i] == s1[i]);
        assert(forall|i: int| 0 <= i < s2.len() - 1 ==> #[trigger] s2.drop_last()[i] == s2[i]);
        lemma_sum_weights_power_mono(s1.drop_last(), s2.drop_last(), m);
        let c1 = s1.last();
        let c2 = s2.last();
        assert(c1 == s1[s1.len() - 1] && c2 == s2[s2.len() - 1]);
        lemma_frac_power_mono(c1, c2, m);
        lemma_frac_bounds(c1, m);
        assert(c1.2 * frac_of(c1, m) <= c2.2 * frac_of(c2, m)) by (nonlinear_arith)
            requires
                c1.2 == c2.2,
                0 <= c1.2,
                0 <= frac_of(c1, m) <= frac_of(c2, m);
    }
}

/// Combined power is monotonically non-decreasing when any
/// contribution's power increases, all else held fixed, as long as the
/// increase stays within the endpoint's maximum individual power.  The
/// case where the increase overtakes the maximum is left out: there
/// the anchor changes, and the committed floor rounding of the ratio
/// terms does not preserve the hair-thin real-valued margin.
pub proof fn lemma_combined_power_monotone(s1: Seq<ContribView>, s2: Seq<ContribView>)
    requires
        s1.len() == s2.len(),
        forall|i: int| 0 <= i < s1.len() ==> {
            &&& (#[trigger] s1[i]).1 == (#[trigger] s2[i]).1
            &&& s1[i].2 == s2[i].2
            &&& s1[i].0 <= s2[i].0
            &&& s2[i].0 <= pmax_of(s1)
        },
        contribs_wf(s1),
    ensures
        combined_spec(s1) <= combined_spec(s2),
{
    lemma_pmax_nonneg(s1);
    lemma_pmax_pointwise_mono(s1, s2);
    assert forall|i: int| 0 <= i < s2.len() implies (#[trigger] s2[i]).0 <= pmax_of(s1) by {
        assert(s1[i].1 == s2[i].1);
    }
    lemma_pmax_le(s2, pmax_of(s1));
    let m = pmax_of(s1);
    assert(pmax_of(s2) == m);
    if m != 0 {
        assert forall|i: int| 0 <= i < s1.len() implies 0 <= (#[trigger] s1[i]).0 <= m by {
            lemma_pmax_ge(s1, i);
        }
        lemma_sum_weights_power_mono(s1, s2, m);
        assert(m * sum_weights(s1, m) <= m * sum_weights(s2, m)) by (nonlinear_arith)
            requires m >= 0, sum_weights(s1, m) <= sum_weights(s2, m);
        lemma_div_is_ordered(m * sum_weights(s1, m), m * sum_weights(s2, m), FRAC_ONE as int);
    }
}

/// A well-formed endpoint's contribution lines are in bounds.
pub proof fn lemma_contribs_wf(s: Seq<(DeviceView, int)>)
    requires
        forall|i: int| 0 <= i < s.len() ==> view_wf((#[trigger] s[i]).0) && s[i].1 >= 1,
    ensures
        contribs_wf(contribs(s)),
{
    assert forall|i: int| 0 <= i < contribs(s).len() implies {
        &&& 0 <= (#[trigger] contribs(s)[i]).0 <= MAX_POWER
        &&& 0 <= contribs(s)[i].1 <= EXP_ONE
        &&& 1 <= contribs(s)[i].2
    } by {
        assert(view_wf(s[i].0) && s[i].1 >= 1);
    }
}

/// Each contribution's power is at most the maximum.
pub proof fn lemma_pmax_ge(s: Seq<ContribView>, i: int)
    requires
        0 <= i < s.len(),
    ensures
        s[i].0 <= pmax_of(s),
    decreases s.len(),
{
    if i == s.len() - 1 {
    } else {
        assert(s.drop_last()[i] == s[i]);
        lemma_pmax_ge(s.drop_last(), i);
    }
}

/// Total counts only grow along a prefix.
pub proof fn lemma_total_count_le(s: Seq<ContribView>, i: int)
    requires
        contribs_wf(s),
        0 <= i <= s.len(),
    ensures
        total_count(s.take(i)) <= total_count(s),
        total_count(s.take(i)) >= 0,
    decreases s.len() - i,
{
    if i == s.len() {
        assert(s.take(i) =~= s);
        lemma_total_count_nonneg(s);
    } else {
        assert(s.take(i + 1).drop_last() =~= s.take(i));
        assert(s.take(i + 1).last() == s[i]);
        lemma_total_count_le(s, i + 1);
        lemma_total_count_nonneg(s.take(i));
    }
}

/// A total of in-bound counts is never negative.
pub proof fn lemma_total_count_nonneg(s: Seq<ContribView>)
    requires
        contribs_wf(s),
    ensures
        total_count(s) >= 0,
    decreases s.len(),
{
    if s.len() > 0 {
        assert(forall|i: int| 0 <= i < s.len() - 1 ==> #[trigger] s.drop_last()[i] == s[i]);
        lemma_total_count_nonneg(s.drop_last());
    }
}

/// One line's count never exceeds the total.
pub proof fn lemma_count_in_total(s: Seq<ContribView>, i: int)
    requires
        contribs_wf(s),
        0 <= i < s.len(),
    ensures
        s[i].2 <= total_count(s),
    decreases s.len(),
{
    assert(forall|j: int| 0 <= j < s.len() - 1 ==> #[trigger] s.drop_last()[j] == s[j]);
    if i == s.len() - 1 {
        lemma_total_count_nonneg(s.drop_last());
    } else {
        lemma_count_in_total(s.drop_last(), i);
    }
}

} // verus!
