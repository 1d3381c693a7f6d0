//! The chart state a front end keeps between frames: the laid-out segments
//! for the displayed root, the drill-down chain, and whether interaction is
//! accepted (it is not until the first scan has finished). Rebuilding the
//! segments first checks the snapshot, so a tree that no scan of this library
//! produces simply draws nothing instead of overflowing the geometry.

use vstd::prelude::*;
use crate::entry::{Entry, entry_wf, entry_height, check_wf, check_height};
use crate::layout::{Segment, SegV, segs_v, layout, layout_spec, TAU_UNITS, INNER_RADIUS,
    OUTER_RADIUS, RING_WIDTH, CENTER_RADIUS};
use crate::hittest::{Hover, hit_test, seg_hit};
use crate::nav::NavStack;

verus! {

/// The tallest snapshot whose rings still fit the radius word.
pub const HEIGHT_LIMIT: u64 = 922_337_203_685_477_577;

/// The segments drawn for the tree rooted at `e`: its sunburst layout over
/// the full circle, or nothing when the tree is not a well-formed snapshot or
/// is too tall for the radius arithmetic.
pub open spec fn segments_spec(e: Entry) -> Seq<SegV> {
    if entry_wf(e) && entry_height(e) <= HEIGHT_LIMIT {
        layout_spec(
            e,
            OUTER_RADIUS as int,
            INNER_RADIUS as int,
            0,
            TAU_UNITS as int,
        )
    } else {
        Seq::empty()
    }
}

/// Lays out the tree rooted at `entry` over the full circle, after checking
/// that it is a well-formed snapshot of workable height.
pub fn segments_for(entry: &Entry) -> (segs: Vec<Segment>)
    ensures
        segs_v(segs@) == segments_spec(*entry),
{
    if check_wf(entry) && check_height(entry, HEIGHT_LIMIT) {
        proof {
            vstd::arithmetic::mul::lemma_mul_inequality(
                entry_height(*entry) as int,
                HEIGHT_LIMIT as int,
                RING_WIDTH as int,
            );
            assert(entry_height(*entry) as int * (RING_WIDTH as int) == (RING_WIDTH as int)
                * (entry_height(*entry) as int)) by (nonlinear_arith);
            assert((HEIGHT_LIMIT as int) * (RING_WIDTH as int) == 18446744073709551540)
                by (nonlinear_arith);
        }
        layout(entry, OUTER_RADIUS, INNER_RADIUS, 0, TAU_UNITS)
    } else {
        let segs: Vec<Segment> = Vec::new();
        proof {
            assert(segs_v(segs@) =~= Seq::<SegV>::empty());
        }
        segs
    }
}

/// The chart state.
pub struct Chart {
    pub segments: Vec<Segment>,
    pub nav: NavStack,
    pub accept: bool,
}

impl Chart {
    /// A chart with nothing scanned yet: no segments, no drill-down, input
    /// not accepted.
    pub fn new() -> (c: Chart)
        ensures
            c.segments@.len() == 0,
            c.nav.stack@.len() == 0,
            !c.accept,
    {
        Chart { segments: Vec::new(), nav: NavStack::new(), accept: false }
    }

    /// Rebuilds the segments for a newly published snapshot of the displayed
    /// root.
    pub fn refresh_segments(&mut self, entry: &Entry)
        ensures
            segs_v(final(self).segments@) == segments_spec(*entry),
            final(self).nav == old(self).nav,
            final(self).accept == old(self).accept,
    {
        self.segments = segments_for(entry);
    }

    /// Forgets everything for a new scan: segments, drill-down and the
    /// accept flag.
    pub fn reset(&mut self)
        ensures
            final(self).segments@.len() == 0,
            final(self).nav.stack@.len() == 0,
            !final(self).accept,
    {
        self.segments = Vec::new();
        self.nav.clear();
        self.accept = false;
    }

    /// Starts accepting interaction, once a scan has finished.
    pub fn finish_scan(&mut self)
        ensures
            final(self).accept,
            final(self).segments == old(self).segments,
            final(self).nav == old(self).nav,
    {
        self.accept = true;
    }

    /// Descends into `entry` and lays out its ring. Until a scan has
    /// finished the chart accepts no interaction, so the drill-down is
    /// ignored.
    pub fn expand(&mut self, entry: Entry)
        ensures
            !old(self).accept ==> *final(self) == *old(self),
            old(self).accept ==> {
                &&& segs_v(final(self).segments@) == segments_spec(entry)
                &&& final(self).nav.stack@ == old(self).nav.stack@.push(entry)
                &&& final(self).accept
            },
    {
        if !self.accept {
            return ;
        }
        self.segments = segments_for(&entry);
        self.nav.expand(entry);
    }

    /// Ascends one level and lays out the ring of what is then displayed.
    /// Until a scan has finished the chart accepts no interaction, so the
    /// ascent is ignored.
    pub fn collapse(&mut self, scan_root: &Entry)
        ensures
            !old(self).accept ==> *final(self) == *old(self),
            old(self).accept ==> {
                &&& old(self).nav.stack@.len() == 0 ==> final(self).nav.stack@ == old(
                    self,
                ).nav.stack@
                &&& old(self).nav.stack@.len() > 0 ==> final(self).nav.stack@ == old(
                    self,
                ).nav.stack@.drop_last()
                &&& final(self).nav.stack@.len() == 0 ==> segs_v(final(self).segments@)
                    == segments_spec(*scan_root)
                &&& final(self).nav.stack@.len() > 0 ==> segs_v(final(self).segments@)
                    == segments_spec(final(self).nav.stack@.last())
                &&& final(self).accept
            },
    {
        if !self.accept {
            return ;
        }
        self.nav.collapse();
        let n = self.nav.stack.len();
        if n > 0 {
            let segs = segments_for(&self.nav.stack[n - 1]);
            self.segments = segs;
        } else {
            self.segments = segments_for(scan_root);
        }
    }

    /// Finds what the cursor is over, given its squared distance from the
    /// chart center and its angle around it.
    pub fn hover(&self, dist_sq: u64, angle: u64) -> (h: Hover)
        ensures
            dist_sq <= CENTER_RADIUS * CENTER_RADIUS ==> h == Hover::Center,
            match h {
                Hover::Center => dist_sq <= CENTER_RADIUS * CENTER_RADIUS,
                Hover::Segment(i) => {
                    &&& dist_sq > CENTER_RADIUS * CENTER_RADIUS
                    &&& i < self.segments@.len()
                    &&& seg_hit(self.segments@[i as int], dist_sq as int, angle as int)
                    &&& forall|j: int|
                        0 <= j < i ==> !seg_hit(
                            #[trigger] self.segments@[j],
                            dist_sq as int,
                            angle as int,
                        )
                },
                Hover::Miss => {
                    &&& dist_sq > CENTER_RADIUS * CENTER_RADIUS
                    &&& forall|j: int|
                        0 <= j < self.segments@.len() ==> !seg_hit(
                            #[trigger] self.segments@[j],
                            dist_sq as int,
                            angle as int,
                        )
                },
            },
    {
        hit_test(dist_sq, angle, CENTER_RADIUS, &self.segments)
    }
}

} // verus!
