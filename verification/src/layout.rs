//! Sunburst layout: turns a size-weighted snapshot tree into a flat list of
//! ring segments with polar bounds. Angles are integers counting nanoradians,
//! so one full turn is `TAU_UNITS`; a child's sweep is its share of the
//! parent's allotted arc, rounded down. A child whose sweep falls below
//! `MIN_SWEEP_UNITS` is not emitted and not descended into, but the running
//! angular position still advances past it, so later siblings keep their
//! place.

use vstd::prelude::*;
use vstd::arithmetic::div_mod::{
    lemma_fundamental_div_mod,
    lemma_div_is_ordered,
    lemma_div_multiples_vanish,
};
use vstd::arithmetic::mul::lemma_mul_inequality;
use crate::entry::{Entry, entry_wf, entry_height, sizes_sum, sizes_sum_from, kids_height,
    lemma_sizes_sum_member, lemma_kids_height_bound, lemma_sizes_sum_from_nonneg};

verus! {

broadcast use vstd::std_specs::vec::group_vec_axioms;

/// One full turn, in nanoradians.
pub const TAU_UNITS: u64 = 6_283_185_307;

/// Sweeps below this (0.01 radians) are dropped from the visual output.
pub const MIN_SWEEP_UNITS: u64 = 10_000_000;

/// How much the radii grow per nesting level.
pub const RING_WIDTH: u64 = 20;

/// Inner radius of the innermost ring.
pub const INNER_RADIUS: u64 = 40;

/// Outer radius of the innermost ring.
pub const OUTER_RADIUS: u64 = 60;

/// Radius of the central disc.
pub const CENTER_RADIUS: u64 = 40;

/// One ring segment: which entry it stands for, its radius band, and its
/// angular span. `node` is the index path of the entry from the laid-out
/// root, one child index per level.
pub struct Segment {
    pub path: String,
    pub size: u64,
    pub is_dir: bool,
    pub inner_radius: u64,
    pub outer_radius: u64,
    pub start_angle: u64,
    pub sweep_angle: u64,
    pub node: Vec<usize>,
}

/// Mathematical image of a segment.
pub ghost struct SegV {
    pub path: Seq<char>,
    pub size: int,
    pub is_dir: bool,
    pub inner_radius: int,
    pub outer_radius: int,
    pub start_angle: int,
    pub sweep_angle: int,
    pub node: Seq<usize>,
}

/// The view of one segment.
pub open spec fn seg_v(s: Segment) -> SegV {
    SegV {
        path: s.path@,
        size: s.size as int,
        is_dir: s.is_dir,
        inner_radius: s.inner_radius as int,
        outer_radius: s.outer_radius as int,
        start_angle: s.start_angle as int,
        sweep_angle: s.sweep_angle as int,
        node: s.node@,
    }
}

/// The view of a list of segments.
pub open spec fn segs_v(s: Seq<Segment>) -> Seq<SegV>
    decreases s.len(),
{
    if s.len() == 0 {
        Seq::empty()
    } else {
        segs_v(s.drop_last()).push(seg_v(s.last()))
    }
}

proof fn lemma_segs_v_push(s: Seq<Segment>, x: Segment)
    ensures
        segs_v(s.push(x)) == segs_v(s).push(seg_v(x)),
{
    assert(s.push(x).drop_last() =~= s);
}

/// A child of `size` out of `total` gets this share of an allotted arc.
pub open spec fn sweep_of(allotted: int, size: int, total: int) -> int {
    allotted * size / total
}

/// Sum of the sweeps of the children of a node from index `i` on, whether or
/// not they pass the minimum-sweep filter.
pub open spec fn sweep_sum(s: Seq<Entry>, allotted: int, total: int, i: int) -> int
    decreases s.len() - i,
{
    if i < 0 || i >= s.len() {
        0
    } else {
        sweep_of(allotted, s[i].size as int, total) + sweep_sum(s, allotted, total, i + 1)
    }
}

/// Sum of only those sweeps that pass the minimum-sweep filter.
pub open spec fn emitted_sweep_sum(s: Seq<Entry>, allotted: int, total: int, i: int) -> int
    decreases s.len() - i,
{
    if i < 0 || i >= s.len() {
        0
    } else {
        let sw = sweep_of(allotted, s[i].size as int, total);
        (if sw >= MIN_SWEEP_UNITS {
            sw
        } else {
            0
        }) + emitted_sweep_sum(s, allotted, total, i + 1)
    }
}

/// The segments laid out for the children of `e` from index `i` on, with the
/// running angular position at `pos`. `allotted` is the whole arc granted to
/// `e`; `node` is `e`'s index path from the laid-out root.
pub open spec fn layout_kids(
    e: Entry,
    outer: int,
    inner: int,
    allotted: int,
    pos: int,
    node: Seq<usize>,
    i: int,
) -> Seq<SegV>
    decreases e, e.children@.len() - i,
{
    if i < 0 || i >= e.children@.len() || e.size == 0 {
        Seq::empty()
    } else {
        let c = e.children@[i];
        let sw = sweep_of(allotted, c.size as int, e.size as int);
        let rest = layout_kids(e, outer, inner, allotted, pos + sw, node, i + 1);
        if sw < MIN_SWEEP_UNITS {
            rest
        } else {
            let child_node = node.push(i as usize);
            let here = SegV {
                path: c.path@,
                size: c.size as int,
                is_dir: c.is_dir,
                inner_radius: inner,
                outer_radius: outer,
                start_angle: pos,
                sweep_angle: sw,
                node: child_node,
            };
            let below = layout_kids(
                c,
                outer + RING_WIDTH,
                inner + RING_WIDTH,
                sw,
                pos,
                child_node,
                0,
            );
            seq![here] + below + rest
        }
    }
}

/// The whole layout of the tree rooted at `e` over the arc `[start, end)`,
/// with the innermost ring between `inner` and `outer`.
pub open spec fn layout_spec(e: Entry, outer: int, inner: int, start: int, end: int) -> Seq<
    SegV,
> {
    layout_kids(e, outer, inner, end - start, start, Seq::empty(), 0)
}

/// Rounding down loses against dividing the sum: `x/t + y/t <= (x+y)/t`.
proof fn lemma_div_add(x: int, y: int, t: int)
    requires
        x >= 0,
        y >= 0,
        t > 0,
    ensures
        x / t + y / t <= (x + y) / t,
{
    lemma_fundamental_div_mod(x, t);
    lemma_fundamental_div_mod(y, t);
    let q = x / t + y / t;
    assert(t * (x / t + y / t) == t * (x / t) + t * (y / t)) by (nonlinear_arith);
    assert(t * q <= x + y);
    lemma_div_is_ordered(t * q, x + y, t);
    lemma_div_multiples_vanish(q, t);
}

/// A share of the arc is between zero and the whole arc.
proof fn lemma_sweep_bounds(allotted: int, size: int, total: int)
    requires
        allotted >= 0,
        0 <= size <= total,
        total > 0,
    ensures
        0 <= sweep_of(allotted, size, total),
        sweep_of(allotted, size, total) <= allotted,
{
    lemma_div_is_ordered(0, allotted * size, total);
    lemma_mul_inequality(size, total, allotted);
    assert(size * allotted == allotted * size) by (nonlinear_arith);
    assert(total * allotted == allotted * total) by (nonlinear_arith);
    lemma_div_is_ordered(allotted * size, allotted * total, total);
    lemma_div_multiples_vanish(allotted, total);
}

/// The sweeps of the children from `i` on sum to no more than the share of
/// the arc their sizes would earn together.
proof fn lemma_sweep_sum_le(s: Seq<Entry>, allotted: int, total: int, i: int)
    requires
        allotted >= 0,
        total > 0,
        0 <= i,
    ensures
        0 <= sweep_sum(s, allotted, total, i),
        sweep_sum(s, allotted, total, i) <= sweep_of(allotted, sizes_sum_from(s, i), total),
    decreases s.len() - i,
{
    if i >= s.len() {
        assert(sweep_of(allotted, 0, total) == 0);
    } else {
        lemma_sweep_sum_le(s, allotted, total, i + 1);
        lemma_sizes_sum_from_nonneg(s, i + 1);
        assert(allotted * s[i].size >= 0) by (nonlinear_arith)
            requires
                allotted >= 0,
                s[i].size >= 0,
        ;
        assert(allotted * sizes_sum_from(s, i + 1) >= 0) by (nonlinear_arith)
            requires
                allotted >= 0,
                sizes_sum_from(s, i + 1) >= 0,
        ;
        lemma_div_is_ordered(0, allotted * s[i].size as int, total);
        lemma_div_add(allotted * s[i].size as int, allotted * sizes_sum_from(s, i + 1), total);
        assert(allotted * s[i].size + allotted * sizes_sum_from(s, i + 1) == allotted
            * sizes_sum_from(s, i)) by (nonlinear_arith)
            requires
                sizes_sum_from(s, i) == s[i].size + sizes_sum_from(s, i + 1),
        ;
    }
}

/// Angular closure: the sweeps of a well-formed node's children never exceed
/// the node's allotted arc; the emitted ones (those at or above the filter)
/// sum to no more, and to exactly the same when no child is filtered out.
pub proof fn lemma_angular_closure(e: Entry, allotted: int)
    requires
        entry_wf(e),
        e.size > 0,
        allotted >= 0,
    ensures
        0 <= emitted_sweep_sum(e.children@, allotted, e.size as int, 0),
        emitted_sweep_sum(e.children@, allotted, e.size as int, 0) <= sweep_sum(
            e.children@,
            allotted,
            e.size as int,
            0,
        ),
        sweep_sum(e.children@, allotted, e.size as int, 0) <= allotted,
        (forall|i: int| 0 <= i < e.children@.len() ==> sweep_of(
            allotted,
            (#[trigger] e.children@[i]).size as int,
            e.size as int,
        ) >= MIN_SWEEP_UNITS) ==> emitted_sweep_sum(e.children@, allotted, e.size as int, 0)
            == sweep_sum(e.children@, allotted, e.size as int, 0),
{
    let t = e.size as int;
    lemma_sweep_sum_le(e.children@, allotted, t, 0);
    lemma_sizes_sum_from_nonneg(e.children@, 0);
    assert(sizes_sum(e.children@) <= t);
    lemma_sweep_bounds(allotted, sizes_sum(e.children@), t);
    lemma_emitted_le(e.children@, allotted, t, 0);
}

proof fn lemma_emitted_le(s: Seq<Entry>, allotted: int, total: int, i: int)
    requires
        allotted >= 0,
        total > 0,
        0 <= i,
    ensures
        0 <= emitted_sweep_sum(s, allotted, total, i),
        emitted_sweep_sum(s, allotted, total, i) <= sweep_sum(s, allotted, total, i),
        (forall|j: int| i <= j < s.len() ==> sweep_of(
            allotted,
            (#[trigger] s[j]).size as int,
            total,
        ) >= MIN_SWEEP_UNITS) ==> emitted_sweep_sum(s, allotted, total, i) == sweep_sum(
            s,
            allotted,
            total,
            i,
        ),
    decreases s.len() - i,
{
    if i < s.len() {
        lemma_emitted_le(s, allotted, total, i + 1);
        assert(allotted * s[i].size >= 0) by (nonlinear_arith)
            requires
                allotted >= 0,
                s[i].size >= 0,
        ;
        lemma_div_is_ordered(0, allotted * s[i].size as int, total);
    }
}

/// Every segment laid out for the children of `e` from index `i` on sits at
/// or outside this level's ring and within the angular span the remaining
/// children can claim.
proof fn lemma_layout_kids_bounds(
    e: Entry,
    outer: int,
    inner: int,
    a: int,
    pos: int,
    node: Seq<usize>,
    i: int,
)
    requires
        entry_wf(e),
        a >= 0,
        0 <= i,
    ensures
        forall|p: int|
            0 <= p < layout_kids(e, outer, inner, a, pos, node, i).len() ==> {
                let s = #[trigger] layout_kids(e, outer, inner, a, pos, node, i)[p];
                &&& s.inner_radius >= inner
                &&& pos <= s.start_angle
                &&& s.start_angle + s.sweep_angle <= pos + sweep_sum(
                    e.children@,
                    a,
                    e.size as int,
                    i,
                )
            },
    decreases e, e.children@.len() - i,
{
    let ch = e.children@;
    let t = e.size as int;
    let ll = layout_kids(e, outer, inner, a, pos, node, i);
    if i < ch.len() && e.size != 0 {
        let c = ch[i];
        let sw = sweep_of(a, c.size as int, t);
        lemma_sizes_sum_member(ch, i);
        lemma_sweep_bounds(a, c.size as int, t);
        lemma_sweep_sum_le(ch, a, t, i + 1);
        lemma_layout_kids_bounds(e, outer, inner, a, pos + sw, node, i + 1);
        let rest = layout_kids(e, outer, inner, a, pos + sw, node, i + 1);
        if sw >= MIN_SWEEP_UNITS {
            assert(c.size > 0) by {
                if c.size == 0 {
                    assert(a * 0 == 0) by (nonlinear_arith);
                }
            }
            let cn = node.push(i as usize);
            let below = layout_kids(c, outer + RING_WIDTH, inner + RING_WIDTH, sw, pos, cn, 0);
            lemma_layout_kids_bounds(c, outer + RING_WIDTH, inner + RING_WIDTH, sw, pos, cn, 0);
            assert(entry_wf(c));
            assert(sizes_sum(c.children@) <= c.size);
            lemma_sweep_sum_le(c.children@, sw, c.size as int, 0);
            lemma_sizes_sum_from_nonneg(c.children@, 0);
            lemma_sweep_bounds(sw, sizes_sum(c.children@), c.size as int);
            assert forall|p: int| 0 <= p < ll.len() implies {
                let s = #[trigger] ll[p];
                &&& s.inner_radius >= inner
                &&& pos <= s.start_angle
                &&& s.start_angle + s.sweep_angle <= pos + sweep_sum(ch, a, t, i)
            } by {
                if p == 0 {
                } else if p < 1 + below.len() {
                    assert(ll[p] == below[p - 1]);
                } else {
                    assert(ll[p] == rest[p - 1 - below.len()]);
                }
            }
        }
    }
}

/// Segments are non-overlapping by construction: two segments of the same
/// ring band laid out for the children of `e` from index `i` on never share
/// an angle.
proof fn lemma_band_disjoint_kids(
    e: Entry,
    outer: int,
    inner: int,
    a: int,
    pos: int,
    node: Seq<usize>,
    i: int,
)
    requires
        entry_wf(e),
        a >= 0,
        0 <= i,
    ensures
        forall|p: int, q: int|
            0 <= p < q < layout_kids(e, outer, inner, a, pos, node, i).len() && (
            #[trigger] layout_kids(e, outer, inner, a, pos, node, i)[p]).inner_radius == (
            #[trigger] layout_kids(e, outer, inner, a, pos, node, i)[q]).inner_radius ==> {
                let sp = layout_kids(e, outer, inner, a, pos, node, i)[p];
                let sq = layout_kids(e, outer, inner, a, pos, node, i)[q];
                sp.start_angle + sp.sweep_angle <= sq.start_angle || sq.start_angle
                    + sq.sweep_angle <= sp.start_angle
            },
    decreases e, e.children@.len() - i,
{
    let ch = e.children@;
    let t = e.size as int;
    let ll = layout_kids(e, outer, inner, a, pos, node, i);
    if i < ch.len() && e.size != 0 {
        let c = ch[i];
        let sw = sweep_of(a, c.size as int, t);
        lemma_sizes_sum_member(ch, i);
        lemma_sweep_bounds(a, c.size as int, t);
        lemma_sweep_sum_le(ch, a, t, i + 1);
        lemma_band_disjoint_kids(e, outer, inner, a, pos + sw, node, i + 1);
        lemma_layout_kids_bounds(e, outer, inner, a, pos + sw, node, i + 1);
        let rest = layout_kids(e, outer, inner, a, pos + sw, node, i + 1);
        if sw >= MIN_SWEEP_UNITS {
            assert(c.size > 0) by {
                if c.size == 0 {
                    assert(a * 0 == 0) by (nonlinear_arith);
                }
            }
            let cn = node.push(i as usize);
            let below = layout_kids(c, outer + RING_WIDTH, inner + RING_WIDTH, sw, pos, cn, 0);
            lemma_band_disjoint_kids(c, outer + RING_WIDTH, inner + RING_WIDTH, sw, pos, cn, 0);
            lemma_layout_kids_bounds(c, outer + RING_WIDTH, inner + RING_WIDTH, sw, pos, cn, 0);
            assert(entry_wf(c));
            assert(sizes_sum(c.children@) <= c.size);
            lemma_sweep_sum_le(c.children@, sw, c.size as int, 0);
            lemma_sizes_sum_from_nonneg(c.children@, 0);
            lemma_sweep_bounds(sw, sizes_sum(c.children@), c.size as int);
            assert forall|p: int, q: int|
                0 <= p < q < ll.len() && (#[trigger] ll[p]).inner_radius == (
                #[trigger] ll[q]).inner_radius implies {
                let sp = ll[p];
                let sq = ll[q];
                sp.start_angle + sp.sweep_angle <= sq.start_angle || sq.start_angle
                    + sq.sweep_angle <= sp.start_angle
            } by {
                let nb = 1 + below.len();
                if p == 0 && q < nb {
                    assert(ll[q] == below[q - 1]);
                    assert(ll[q].inner_radius >= inner + RING_WIDTH);
                } else if p == 0 {
                    assert(ll[q] == rest[q - nb]);
                } else if p < nb && q < nb {
                    assert(ll[p] == below[p - 1] && ll[q] == below[q - 1]);
                } else if p < nb {
                    assert(ll[p] == below[p - 1]);
                    assert(ll[q] == rest[q - nb]);
                    assert(ll[p].start_angle + ll[p].sweep_angle <= pos + sw);
                    assert(ll[q].start_angle >= pos + sw);
                } else {
                    assert(ll[p] == rest[p - nb] && ll[q] == rest[q - nb]);
                }
            }
        }
    }
}

/// Hit-test exclusivity by construction: in a well-formed tree's layout, two
/// segments of the same ring band never overlap in angle, so within a band
/// the hit test can match at most one of them.
pub proof fn lemma_same_band_disjoint(e: Entry, outer: int, inner: int, start: int, end: int)
    requires
        entry_wf(e),
        start <= end,
    ensures
        forall|p: int, q: int|
            0 <= p < q < layout_spec(e, outer, inner, start, end).len() && (
            #[trigger] layout_spec(e, outer, inner, start, end)[p]).inner_radius == (
            #[trigger] layout_spec(e, outer, inner, start, end)[q]).inner_radius ==> {
                let sp = layout_spec(e, outer, inner, start, end)[p];
                let sq = layout_spec(e, outer, inner, start, end)[q];
                sp.start_angle + sp.sweep_angle <= sq.start_angle || sq.start_angle
                    + sq.sweep_angle <= sp.start_angle
            },
{
    lemma_band_disjoint_kids(e, outer, inner, end - start, start, Seq::empty(), 0);
}

/// Lays out the children of `e` from index `i` on, appending to `segs`.
fn layout_rec(
    e: &Entry,
    outer: u64,
    inner: u64,
    allotted: u64,
    pos: u64,
    node: &Vec<usize>,
    segs: &mut Vec<Segment>,
)
    requires
        entry_wf(*e),
        e.size > 0,
        pos + allotted <= TAU_UNITS,
        inner <= outer,
        outer + RING_WIDTH * entry_height(*e) <= u64::MAX,
    ensures
        segs_v(final(segs)@) == segs_v(old(segs)@) + layout_kids(
            *e,
            outer as int,
            inner as int,
            allotted as int,
            pos as int,
            node@,
            0,
        ),
    decreases *e,
{
    let ghost s = e.children@;
    let ghost a = allotted as int;
    let ghost t = e.size as int;
    let n = e.children.len();
    let mut i: usize = 0;
    let mut p: u64 = pos;
    proof {
        lemma_sweep_sum_le(s, a, t, 0);
        lemma_sizes_sum_from_nonneg(s, 0);
        assert(sizes_sum(s) <= t);
        lemma_sweep_bounds(a, sizes_sum(s), t);
    }
    while i < n
        invariant
            0 <= i <= n,
            n == e.children@.len(),
            entry_wf(*e),
            e.size > 0,
            inner <= outer,
            outer + RING_WIDTH * entry_height(*e) <= u64::MAX,
            a == allotted as int,
            t == e.size as int,
            s == e.children@,
            pos + allotted <= TAU_UNITS,
            p as int + sweep_sum(s, a, t, i as int) <= pos + allotted,
            p >= pos,
            segs_v(old(segs)@) + layout_kids(
                *e,
                outer as int,
                inner as int,
                a,
                pos as int,
                node@,
                0,
            ) == segs_v(segs@) + layout_kids(*e, outer as int, inner as int, a, p as int, node@, i as int),
        decreases n - i,
    {
        let c = &e.children[i];
        proof {
            lemma_sizes_sum_member(s, i as int);
            lemma_sweep_bounds(a, c.size as int, t);
            lemma_sweep_sum_le(s, a, t, i as int);
            lemma_sweep_sum_le(s, a, t, i + 1);
            assert((allotted as int) * (c.size as int) <= 0xffff_ffff_ffff_ffff
                * 0xffff_ffff_ffff_ffff) by (nonlinear_arith)
                requires
                    allotted <= 0xffff_ffff_ffff_ffff,
                    c.size <= 0xffff_ffff_ffff_ffff,
            ;
        }
        let sw128 = (allotted as u128) * (c.size as u128) / (e.size as u128);
        let sweep = sw128 as u64;
        let ghost sw = sweep_of(a, c.size as int, t);
        proof {
            assert(sweep as int == sw);
        }
        if sweep >= MIN_SWEEP_UNITS {
            let mut child_node = node.clone();
            child_node.push(i);
            let seg = Segment {
                path: c.path.clone(),
                size: c.size,
                is_dir: c.is_dir,
                inner_radius: inner,
                outer_radius: outer,
                start_angle: p,
                sweep_angle: sweep,
                node: child_node,
            };
            let ghost segv = seg_v(seg);
            let ghost before = segs@;
            segs.push(seg);
            proof {
                lemma_segs_v_push(before, segs@.last());
            }
            if c.children.len() > 0 {
                proof {
                    assert(c.size > 0) by {
                        if c.size == 0 {
                            assert(a * 0 == 0) by (nonlinear_arith);
                        }
                    }
                    assert(entry_height(*c) <= kids_height(s, 0)) by {
                        lemma_kids_height_bound(s, 0, kids_height(s, 0) as int);
                    }
                    assert(entry_height(*e) == 1 + kids_height(s, 0));
                }
                let mut cn2 = node.clone();
                cn2.push(i);
                layout_rec(c, outer + RING_WIDTH, inner + RING_WIDTH, sweep, p, &cn2, segs);
            } else {
                proof {
                    assert(layout_kids(
                        *c,
                        outer + RING_WIDTH,
                        inner + RING_WIDTH,
                        sw,
                        p as int,
                        node@.push(i as usize),
                        0,
                    ) =~= Seq::<SegV>::empty());
                }
            }
        }
        p = p + sweep;
        i = i + 1;
    }
    proof {
        assert(layout_kids(*e, outer as int, inner as int, a, p as int, node@, n as int)
            =~= Seq::<SegV>::empty());
        assert(segs_v(old(segs)@) + layout_kids(
            *e,
            outer as int,
            inner as int,
            a,
            pos as int,
            node@,
            0,
        ) =~= segs_v(segs@));
    }
}

/// Lays out the tree rooted at `root` over the arc `[start, end)`, innermost
/// ring between `inner` and `outer`. A root of size zero has no shares to
/// give and produces no segments.
pub fn layout(root: &Entry, outer: u64, inner: u64, start: u64, end: u64) -> (segs: Vec<
    Segment,
>)
    requires
        entry_wf(*root),
        start <= end,
        end <= TAU_UNITS,
        inner <= outer,
        outer + RING_WIDTH * entry_height(*root) <= u64::MAX,
    ensures
        segs_v(segs@) == layout_spec(
            *root,
            outer as int,
            inner as int,
            start as int,
            end as int,
        ),
{
    let mut segs: Vec<Segment> = Vec::new();
    if root.size == 0 {
        proof {
            assert(layout_spec(*root, outer as int, inner as int, start as int, end as int)
                =~= Seq::<SegV>::empty());
            assert(segs_v(segs@) =~= Seq::<SegV>::empty());
        }
        return segs;
    }
    let node: Vec<usize> = Vec::new();
    layout_rec(root, outer, inner, end - start, start, &node, &mut segs);
    proof {
        assert(segs_v(Seq::<Segment>::empty()) =~= Seq::<SegV>::empty());
    }
    segs
}

} // verus!
