//! The distance-band table: named fractions of the maximum distance,
//! and the signal strength at each band's near and far edge.
//!
//! Strength at relative remaining distance `h = 1 - d/D` follows the
//! smooth cubic `h^2 * (3 - 2h)`: one at the transmitter, zero at the
//! edge of range, monotonically non-increasing and continuous between.

use vstd::prelude::*;
use vstd::arithmetic::div_mod::lemma_div_is_ordered;
use vstd::arithmetic::div_mod::lemma_div_multiples_vanish;
use vstd::arithmetic::div_mod::lemma_div_pos_is_pos;
use crate::FRAC_ONE;

verus! {

/// One named band: near and far edge as fractions of the maximum
/// distance, in `FRAC_ONE` units.
pub struct Band {
    pub label: String,
    pub near: u64,
    pub far: u64,
}

impl View for Band {
    type V = (Seq<char>, int, int);

    open spec fn view(&self) -> (Seq<char>, int, int) {
        (self.label@, self.near as int, self.far as int)
    }
}

/// Strength readings at one band's two boundary distances; none when
/// no link exists at all.
pub struct SignalEntry {
    pub label: String,
    pub at_near: Option<u64>,
    pub at_far: Option<u64>,
}

/// The bands cover `[0, 1]` exactly: the first starts at zero, the
/// last ends at one, each is non-degenerate, and each band's far edge
/// is the next band's near edge — no gaps and no overlaps.
pub open spec fn bands_partition(s: Seq<(Seq<char>, int, int)>) -> bool {
    &&& s.len() > 0
    &&& s[0].1 == 0
    &&& s[s.len() - 1].2 == FRAC_ONE
    &&& forall|i: int| 0 <= i < s.len() ==> (#[trigger] s[i]).1 < s[i].2
    &&& forall|i: int| 0 <= i < s.len() - 1 ==> (#[trigger] s[i]).2 == s[i + 1].1
}

/// The remaining-range fraction `(D - d) / D` in `FRAC_ONE` units.
pub open spec fn remaining_frac(d: int, dd: int) -> int {
    (dd - d) * FRAC_ONE / dd
}

/// The decay curve on a scaled fraction `h`: `h^2 * (3 - 2h)`.
pub open spec fn curve(h: int) -> int {
    h * h * (3 * FRAC_ONE - 2 * h) / ((FRAC_ONE as int) * (FRAC_ONE as int))
}

/// Signal strength at `d` out of a maximum `dd > 0`, in `FRAC_ONE`
/// units: one at zero distance, zero at and beyond the maximum.
pub open spec fn strength_spec(d: int, dd: int) -> int {
    if d >= dd {
        0
    } else {
        curve(remaining_frac(d, dd))
    }
}

proof fn lemma_curve_bounds(h: int)
    requires
        0 <= h <= FRAC_ONE,
    ensures
        0 <= curve(h) <= FRAC_ONE,
        h == FRAC_ONE ==> curve(h) == FRAC_ONE,
{
    let s = FRAC_ONE as int;
    assert(s * s * s - h * h * (3 * s - 2 * h) == (s - h) * (s - h) * (s + 2 * h))
        by (nonlinear_arith);
    assert((s - h) * (s - h) * (s + 2 * h) >= 0) by (nonlinear_arith)
        requires 0 <= h <= s;
    assert(h * h * (3 * s - 2 * h) >= 0) by (nonlinear_arith)
        requires 0 <= h <= s;
    lemma_div_pos_is_pos(h * h * (3 * s - 2 * h), s * s);
    lemma_div_is_ordered(h * h * (3 * s - 2 * h), s * s * s, s * s);
    assert(s * s * s == (s * s) * s) by (nonlinear_arith);
    lemma_div_multiples_vanish(s, s * s);
    if h == FRAC_ONE {
        assert(h * h * (3 * s - 2 * h) == (s * s) * s) by (nonlinear_arith)
            requires h == s;
    }
}

/// The curve does not increase as the remaining fraction shrinks.
proof fn lemma_curve_monotone(h1: int, h2: int)
    requires
        0 <= h2 <= h1 <= FRAC_ONE,
    ensures
        curve(h2) <= curve(h1),
{
    let s = FRAC_ONE as int;
    assert(h1 * h1 * (3 * s - 2 * h1) - h2 * h2 * (3 * s - 2 * h2)
        == (h1 - h2) * (3 * s * (h1 + h2) - 2 * (h1 * h1 + h1 * h2 + h2 * h2)))
        by (nonlinear_arith);
    assert((h1 - h2) * (3 * s * (h1 + h2) - 2 * (h1 * h1 + h1 * h2 + h2 * h2)) >= 0)
        by (nonlinear_arith)
        requires 0 <= h2 <= h1 <= s;
    lemma_div_is_ordered(h2 * h2 * (3 * s - 2 * h2), h1 * h1 * (3 * s - 2 * h1), s * s);
}

proof fn lemma_remaining_frac_bounds(d: int, dd: int)
    requires
        0 < dd,
        0 <= d < dd,
    ensures
        0 <= remaining_frac(d, dd) <= FRAC_ONE,
        d == 0 ==> remaining_frac(d, dd) == FRAC_ONE,
{
    let s = FRAC_ONE as int;
    assert((dd - d) * s <= dd * s && 0 <= (dd - d) * s) by (nonlinear_arith)
        requires 0 <= d < dd, s > 0;
    lemma_div_is_ordered((dd - d) * s, dd * s, dd);
    lemma_div_multiples_vanish(s, dd);
    lemma_div_pos_is_pos((dd - d) * s, dd);
}

/// Strength is full at the transmitter and gone at the edge of range.
pub proof fn lemma_strength_edges(dd: int)
    requires
        dd > 0,
    ensures
        strength_spec(0, dd) == FRAC_ONE,
        strength_spec(dd, dd) == 0,
{
    lemma_remaining_frac_bounds(0, dd);
    lemma_curve_bounds(FRAC_ONE as int);
}

/// Strength never increases with distance.
pub proof fn lemma_strength_monotone(d1: int, d2: int, dd: int)
    requires
        dd > 0,
        0 <= d1 <= d2,
    ensures
        strength_spec(d2, dd) <= strength_spec(d1, dd),
{
    if d1 >= dd {
    } else if d2 >= dd {
        lemma_remaining_frac_bounds(d1, dd);
        lemma_curve_bounds(remaining_frac(d1, dd));
    } else {
        lemma_remaining_frac_bounds(d1, dd);
        lemma_remaining_frac_bounds(d2, dd);
        let s = FRAC_ONE as int;
        assert((dd - d2) * s <= (dd - d1) * s) by (nonlinear_arith)
            requires d1 <= d2, s > 0;
        lemma_div_is_ordered((dd - d2) * s, (dd - d1) * s, dd);
        lemma_curve_monotone(remaining_frac(d1, dd), remaining_frac(d2, dd));
    }
}

/// Strength values stay within `[0, FRAC_ONE]`.
pub proof fn lemma_strength_bounds(d: int, dd: int)
    requires
        dd > 0,
        0 <= d,
    ensures
        0 <= strength_spec(d, dd) <= FRAC_ONE,
{
    if d < dd {
        lemma_remaining_frac_bounds(d, dd);
        lemma_curve_bounds(remaining_frac(d, dd));
    }
}

/// Signal strength at distance `distance` of a link whose maximum is
/// `max_distance`; not applicable when no link exists at all.
pub fn strength_at(distance: u64, max_distance: u64) -> (r: Option<u64>)
    ensures
        max_distance == 0 ==> r is None,
        max_distance > 0 ==> r == Some(strength_spec(distance as int, max_distance as int) as u64)
            && strength_spec(distance as int, max_distance as int) <= FRAC_ONE,
{
    if max_distance == 0 {
        return None;
    }
    if distance >= max_distance {
        proof {
            lemma_strength_bounds(distance as int, max_distance as int);
        }
        return Some(0);
    }
    let dd = max_distance;
    let d = distance;
    proof {
        lemma_remaining_frac_bounds(d as int, dd as int);
        assert(((dd - d) as int) * (FRAC_ONE as int) <= 0xffff_ffff_ffff_ffff_ffff_ffff_ffff_ffff as int)
            by (nonlinear_arith)
            requires 0 <= (dd - d) as int <= 0xffff_ffff_ffff_ffff as int;
    }
    let h: u64 = (((dd - d) as u128) * (FRAC_ONE as u128) / (dd as u128)) as u64;
    proof {
        assert(h == remaining_frac(d as int, dd as int));
        lemma_curve_bounds(h as int);
        assert((h as int) * (h as int) <= (FRAC_ONE as int) * (FRAC_ONE as int))
            by (nonlinear_arith)
            requires 0 <= h as int <= FRAC_ONE as int;
        assert((h as int) * (h as int) * (3 * FRAC_ONE - 2 * (h as int))
            <= 0xffff_ffff_ffff_ffff_ffff_ffff_ffff_ffff as int
            && 0 <= (h as int) * (h as int) * (3 * FRAC_ONE - 2 * (h as int)))
            by (nonlinear_arith)
            requires 0 <= h as int <= FRAC_ONE as int, FRAC_ONE as int == 1_000_000_000;
    }
    let num: u128 = (h as u128) * (h as u128) * (3 * (FRAC_ONE as u128) - 2 * (h as u128));
    let den: u128 = (FRAC_ONE as u128) * (FRAC_ONE as u128);
    let r: u64 = (num / den) as u64;
    proof {
        assert(r == curve(h as int));
    }
    Some(r)
}

/// One emitted entry carries the band's label and the strengths at
/// its two boundary distances, or no strengths when no link exists.
pub open spec fn entry_matches(e: SignalEntry, b: (Seq<char>, int, int), dd: int) -> bool {
    &&& e.label@ == b.0
    &&& e.at_near == (if dd == 0 { None } else {
        Some(strength_spec(b.1 * dd / (FRAC_ONE as int), dd) as u64)
    })
    &&& e.at_far == (if dd == 0 { None } else {
        Some(strength_spec(b.2 * dd / (FRAC_ONE as int), dd) as u64)
    })
}

/// The fixed table of distance bands.
pub struct BandTable {
    bands: Vec<Band>,
}

impl View for BandTable {
    type V = Seq<(Seq<char>, int, int)>;

    closed spec fn view(&self) -> Seq<(Seq<char>, int, int)> {
        self.bands.deep_view()
    }
}

impl DeepView for Band {
    type V = (Seq<char>, int, int);

    open spec fn deep_view(&self) -> (Seq<char>, int, int) {
        self@
    }
}

impl BandTable {
    pub open spec fn wf(&self) -> bool {
        bands_partition(self@)
    }

    /// The built-in band configuration: strong, fading and weak
    /// stretches of the link, nearest first.
    pub fn new() -> (r: BandTable)
        ensures
            r.wf(),
            r@.len() == 3,
            r@[0].1 == 0 && r@[0].2 == 500_000_000,
            r@[1].1 == 500_000_000 && r@[1].2 == 900_000_000,
            r@[2].1 == 900_000_000 && r@[2].2 == 1_000_000_000,
    {
        let mut bands: Vec<Band> = Vec::new();
        bands.push(Band { label: "Strong signal".to_owned(), near: 0, far: 500_000_000 });
        bands.push(Band { label: "Fading signal".to_owned(), near: 500_000_000, far: 900_000_000 });
        bands.push(Band { label: "Weak signal".to_owned(), near: 900_000_000, far: 1_000_000_000 });
        let r = BandTable { bands };
        proof {
            assert(r@.len() == 3);
            assert(r@[0].1 == 0 && r@[0].2 == 500_000_000);
            assert(r@[1].1 == 500_000_000 && r@[1].2 == 900_000_000);
            assert(r@[2].1 == 900_000_000 && r@[2].2 == 1_000_000_000);
            assert forall|i: int| 0 <= i < r@.len() implies (#[trigger] r@[i]).1 < r@[i].2 by {
                if i == 0 {
                } else if i == 1 {
                } else {
                    assert(i == 2);
                }
            }
            assert forall|i: int| 0 <= i < r@.len() - 1 implies (#[trigger] r@[i]).2 == r@[i + 1].1 by {
                if i == 0 {
                } else {
                    assert(i == 1);
                }
            }
        }
        r
    }

    /// The bands in order, nearest first.
    pub fn bands(&self) -> (r: &Vec<Band>)
        ensures
            r.deep_view() == self@,
    {
        &self.bands
    }

    /// The strength table for a link of the given maximum distance:
    /// one entry per band, in order, with the strength at the band's
    /// near and far boundary distances.
    #[verifier::rlimit(30)]
    pub fn evaluate(&self, max_distance: u64) -> (r: Vec<SignalEntry>)
        requires
            self.wf(),
        ensures
            r@.len() == self@.len(),
            forall|i: int| 0 <= i < r@.len()
                ==> entry_matches(#[trigger] r@[i], self@[i], max_distance as int),
    {
        let mut out: Vec<SignalEntry> = Vec::new();
        let mut i: usize = 0;
        while i < self.bands.len()
            invariant
                i <= self.bands.len(),
                self.wf(),
                out@.len() == i,
                forall|j: int| 0 <= j < i
                    ==> entry_matches(#[trigger] out@[j], self@[j], max_distance as int),
            decreases self.bands.len() - i,
        {
            proof {
                assert(self@[i as int] == self.bands[i as int]@);
                assert(self@[i as int].1 < self@[i as int].2 <= FRAC_ONE) by {
                    assert(self@[self@.len() - 1].2 == FRAC_ONE);
                    if i as int == self@.len() - 1 {
                    } else {
                        lemma_band_far_le(self@, i as int);
                    }
                }
            }
            let d_near = frac_of_distance(self.bands[i].near, max_distance);
            let d_far = frac_of_distance(self.bands[i].far, max_distance);
            let entry = SignalEntry {
                label: self.bands[i].label.clone(),
                at_near: strength_at(d_near, max_distance),
                at_far: strength_at(d_far, max_distance),
            };
            proof {
                assert(entry_matches(entry, self@[i as int], max_distance as int));
            }
            out.push(entry);
            i = i + 1;
        }
        out
    }
}

/// Every band's far edge is at most the last band's, which is one.
proof fn lemma_band_far_le(s: Seq<(Seq<char>, int, int)>, i: int)
    requires
        bands_partition(s),
        0 <= i < s.len(),
    ensures
        s[i].2 <= FRAC_ONE,
    decreases s.len() - i,
{
    if i == s.len() - 1 {
    } else {
        lemma_band_far_le(s, i + 1);
        assert(s[i].2 == s[i + 1].1);
    }
}

/// The absolute distance a scaled fraction of the maximum stands for.
fn frac_of_distance(frac: u64, max_distance: u64) -> (r: u64)
    requires
        frac <= FRAC_ONE,
    ensures
        r == (frac as int) * (max_distance as int) / (FRAC_ONE as int),
{
    proof {
        assert((frac as int) * (max_distance as int) <= (FRAC_ONE as int) * (max_distance as int)
            && 0 <= (frac as int) * (max_distance as int))
            by (nonlinear_arith)
            requires 0 <= frac as int <= FRAC_ONE as int, max_distance as int >= 0;
        lemma_div_is_ordered((frac as int) * (max_distance as int),
            (FRAC_ONE as int) * (max_distance as int), FRAC_ONE as int);
        lemma_div_multiples_vanish(max_distance as int, FRAC_ONE as int);
        lemma_div_pos_is_pos((frac as int) * (max_distance as int), FRAC_ONE as int);
    }
    (((frac as u128) * (max_distance as u128)) / (FRAC_ONE as u128)) as u64
}

} // verus!
