//! Maximum communication distance between two endpoints.

use vstd::prelude::*;
use crate::numeric::is_sqrt_floor;
use crate::numeric::isqrt;
use crate::numeric::sqrt_floor;
use crate::numeric::lemma_sqrt_floor_unique;

verus! {

/// The geometric mean of the two combined powers, floor-rounded.
pub open spec fn max_distance_spec(a: int, b: int) -> int {
    sqrt_floor(a * b)
}

/// The farthest separation at which any signal remains between two
/// endpoints of the given combined powers: `sqrt(from * to)`.
pub fn max_distance(power_from: u64, power_to: u64) -> (r: u64)
    ensures
        r == max_distance_spec(power_from as int, power_to as int),
        power_from == 0 || power_to == 0 ==> r == 0,
{
    proof {
        assert((power_from as int) * (power_to as int)
            <= 0xffff_ffff_ffff_ffff_ffff_ffff_ffff_ffff as int)
            by (nonlinear_arith)
            requires
                0 <= power_from as int <= 0xffff_ffff_ffff_ffff as int,
                0 <= power_to as int <= 0xffff_ffff_ffff_ffff as int;
    }
    let r = isqrt((power_from as u128) * (power_to as u128));
    proof {
        if power_from == 0 || power_to == 0 {
            assert(is_sqrt_floor(0, 0));
            lemma_sqrt_floor_unique(0, 0);
        }
    }
    r
}

/// The link is symmetric: swapping the endpoints changes nothing.
pub proof fn lemma_max_distance_symmetric(a: int, b: int)
    ensures
        max_distance_spec(a, b) == max_distance_spec(b, a),
{
    assert(a * b == b * a);
}

/// A powerless endpoint allows no link at any distance.
pub proof fn lemma_max_distance_zero(a: int)
    ensures
        max_distance_spec(a, 0) == 0,
{
    assert(a * 0 == 0);
    assert(is_sqrt_floor(0, 0));
    lemma_sqrt_floor_unique(0, 0);
}

} // verus!
