//! Polar hit test: maps a cursor position, given as its squared distance from
//! the chart's center and its angle around it, to the center disc, to the one
//! ring segment it falls in, or to nothing. The center takes priority over
//! every ring.

use vstd::prelude::*;
use crate::layout::Segment;

verus! {

/// What the cursor is over.
pub enum Hover {
    /// Inside the center disc.
    Center,
    /// Over the segment at this index of the tested list.
    Segment(usize),
    /// Over no segment and outside the center disc.
    Miss,
}

/// The cursor at squared distance `dist_sq` and angle `angle` falls in `s`:
/// strictly outside the inner circle, within the outer one, and within the
/// segment's angular span.
pub open spec fn seg_hit(s: Segment, dist_sq: int, angle: int) -> bool {
    &&& s.inner_radius * s.inner_radius < dist_sq
    &&& dist_sq <= s.outer_radius * s.outer_radius
    &&& s.start_angle <= angle
    &&& angle < s.start_angle + s.sweep_angle
}

/// The square of a 64-bit value fits in 128 bits.
proof fn lemma_square_fits(x: u64)
    ensures
        (x as int) * (x as int) <= u128::MAX,
{
    assert((x as int) * (x as int) <= 0xffff_ffff_ffff_ffff * 0xffff_ffff_ffff_ffff)
        by (nonlinear_arith)
        requires
            x <= 0xffff_ffff_ffff_ffff,
    ;
}

/// Finds what the cursor is over. `dist_sq` is the squared distance of the
/// cursor from the chart center and `angle` its angle around it; a front end
/// computes both from screen coordinates, normalizing the angle to one turn.
pub fn hit_test(dist_sq: u64, angle: u64, center_radius: u64, segments: &Vec<Segment>) -> (h:
    Hover)
    ensures
        dist_sq <= center_radius * center_radius ==> h == Hover::Center,
        match h {
            Hover::Center => dist_sq <= center_radius * center_radius,
            Hover::Segment(i) => {
                &&& dist_sq > center_radius * center_radius
                &&& i < segments@.len()
                &&& seg_hit(segments@[i as int], dist_sq as int, angle as int)
                &&& forall|j: int|
                    0 <= j < i ==> !seg_hit(#[trigger] segments@[j], dist_sq as int, angle as int)
            },
            Hover::Miss => {
                &&& dist_sq > center_radius * center_radius
                &&& forall|j: int|
                    0 <= j < segments@.len() ==> !seg_hit(
                        #[trigger] segments@[j],
                        dist_sq as int,
                        angle as int,
                    )
            },
        },
{
    proof {
        lemma_square_fits(center_radius);
    }
    if (dist_sq as u128) <= (center_radius as u128) * (center_radius as u128) {
        return Hover::Center;
    }
    let n = segments.len();
    let mut i: usize = 0;
    while i < n
        invariant
            0 <= i <= n,
            n == segments@.len(),
            dist_sq > center_radius * center_radius,
            forall|j: int| 0 <= j < i ==> !seg_hit(#[trigger] segments@[j], dist_sq as int, angle as int),
        decreases n - i,
    {
        let s = &segments[i];
        proof {
            lemma_square_fits(s.inner_radius);
            lemma_square_fits(s.outer_radius);
        }
        let inner_sq = (s.inner_radius as u128) * (s.inner_radius as u128);
        let outer_sq = (s.outer_radius as u128) * (s.outer_radius as u128);
        let d = dist_sq as u128;
        if inner_sq < d && d <= outer_sq && s.start_angle <= angle && (angle as u128) < (
        s.start_angle as u128) + (s.sweep_angle as u128) {
            return Hover::Segment(i);
        }
        i = i + 1;
    }
    Hover::Miss
}

} // verus!

