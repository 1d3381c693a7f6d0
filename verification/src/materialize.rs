//! The tree materializer: a pure function from the scan cache to a bounded
//! snapshot tree. For each node it sorts the cached children by size,
//! descending, ties kept in discovery order, keeps only the top
//! `max_children` of them, drops a child that names its own parent, and
//! recurses into directories until `max_depth` levels have been built.

use vstd::prelude::*;
use crate::cache::{ScanCache, ChildRec, RecV, rec_v, recs_v, lemma_recs_v};
use crate::entry::{Entry, depth_within, entry_wf, sizes_sum};

verus! {

broadcast use vstd::std_specs::vec::group_vec_axioms, vstd::seq_lib::group_to_multiset_ensures;

/// The sort key order: larger sizes first; among equal sizes, the earlier
/// discovery index first. On distinct indices this is a strict total order.
pub open spec fn key_lt(a: (RecV, int), b: (RecV, int)) -> bool {
    a.0.size > b.0.size || (a.0.size == b.0.size && a.1 < b.1)
}

/// Ordered: no later element may precede an earlier one.
pub open spec fn sorted_ok(t: Seq<(RecV, int)>) -> bool {
    forall|i: int, j: int| 0 <= i < j < t.len() ==> !key_lt(#[trigger] t[j], #[trigger] t[i])
}

/// Where insertion sort puts `x`: before the first element it precedes.
pub open spec fn insert_sorted(t: Seq<(RecV, int)>, x: (RecV, int)) -> Seq<(RecV, int)>
    decreases t.len(),
{
    if t.len() == 0 {
        seq![x]
    } else if key_lt(x, t[0]) {
        seq![x] + t
    } else {
        seq![t[0]] + insert_sorted(t.drop_first(), x)
    }
}

/// The stable, size-descending ordering of the first `n` records of `recs`,
/// each paired with its discovery index.
pub open spec fn sorted_prefix(recs: Seq<RecV>, n: int) -> Seq<(RecV, int)>
    decreases n,
{
    if n <= 0 {
        Seq::empty()
    } else {
        insert_sorted(sorted_prefix(recs, n - 1), (recs[n - 1], n - 1))
    }
}

/// The stable, size-descending ordering of a path's cached records.
pub open spec fn sorted_recs(recs: Seq<RecV>) -> Seq<(RecV, int)> {
    sorted_prefix(recs, recs.len() as int)
}

/// The records kept from the first `j` of the ordered list: all of them but
/// one that names `path` itself.
pub open spec fn chosen_prefix(sorted: Seq<(RecV, int)>, path: Seq<char>, j: int) -> Seq<
    (RecV, int),
>
    decreases j,
{
    if j <= 0 {
        Seq::empty()
    } else {
        let prev = chosen_prefix(sorted, path, j - 1);
        if sorted[j - 1].0.path == path {
            prev
        } else {
            prev.push(sorted[j - 1])
        }
    }
}

/// The children a materialized node for `path` gets, with `d` levels of
/// building budget left: the top `k` of the ordered cached records, minus a
/// self-reference; none when the budget is spent or the cache has no list.
pub open spec fn node_children(
    m: Map<Seq<char>, Seq<RecV>>,
    path: Seq<char>,
    k: int,
    d: int,
) -> Seq<(RecV, int)> {
    if d <= 0 || !m.dom().contains(path) {
        Seq::empty()
    } else {
        let srt = sorted_recs(m[path]);
        chosen_prefix(srt, path, if k < srt.len() {
            k
        } else {
            srt.len() as int
        })
    }
}

/// `kids` realizes the kept records `kept`: same length, same path, size and
/// directory flag in each place; a directory child's own children are
/// materialized with `d` levels of budget, a file child has none.
pub open spec fn kids_match(
    m: Map<Seq<char>, Seq<RecV>>,
    kept: Seq<(RecV, int)>,
    kids: Seq<Entry>,
    k: int,
    d: int,
) -> bool
    decreases kids, 0nat,
{
    &&& kids.len() == kept.len()
    &&& forall|i: int| 0 <= i < kept.len() ==> {
        let c = #[trigger] kids[i];
        &&& c.path@ == kept[i].0.path
        &&& c.size as int == kept[i].0.size
        &&& c.is_dir == kept[i].0.is_dir
        &&& (kept[i].0.is_dir ==> kids_materialized(m, kept[i].0.path, c.children@, k, d))
        &&& (!kept[i].0.is_dir ==> c.children@.len() == 0)
    }
}

/// `kids` is exactly what the materializer builds for `path` from cache `m`
/// with `d` levels of budget: the node's kept records realized, each
/// directory child one budget level down.
pub open spec fn kids_materialized(
    m: Map<Seq<char>, Seq<RecV>>,
    path: Seq<char>,
    kids: Seq<Entry>,
    k: int,
    d: int,
) -> bool
    decreases kids, 1nat,
{
    kids_match(m, node_children(m, path, k, d), kids, k, d - 1)
}

/// The kept records are never more than `j` of them.
proof fn lemma_chosen_len(sorted: Seq<(RecV, int)>, path: Seq<char>, j: int)
    ensures
        chosen_prefix(sorted, path, j).len() <= (if j >= 0 {
            j
        } else {
            0
        }),
    decreases j,
{
    if j > 0 {
        lemma_chosen_len(sorted, path, j - 1);
    }
}

/// Depth cap: materialized children descend through at most `d - 1` further
/// levels each.
pub proof fn lemma_depth_cap(
    m: Map<Seq<char>, Seq<RecV>>,
    path: Seq<char>,
    kids: Seq<Entry>,
    k: int,
    d: int,
)
    requires
        kids_materialized(m, path, kids, k, d),
    ensures
        forall|i: int| 0 <= i < kids.len() ==> depth_within(#[trigger] kids[i], d - 1),
    decreases kids,
{
    let kept = node_children(m, path, k, d);
    assert forall|i: int| 0 <= i < kids.len() implies depth_within(#[trigger] kids[i], d - 1) by {
        let c = kids[i];
        if c.children@.len() > 0 {
            assert(kept[i].0.is_dir);
            assert(kids_materialized(m, kept[i].0.path, c.children@, k, d - 1));
            assert(c.children@.len() == node_children(m, kept[i].0.path, k, d - 1).len());
            lemma_depth_cap(m, kept[i].0.path, c.children@, k, d - 1);
            assert(d - 1 >= 1);
        }
    }
}

/// Inserting into an ordered list keeps it ordered, adds exactly the new
/// element, and grows it by one.
proof fn lemma_insert_sorted_props(t: Seq<(RecV, int)>, x: (RecV, int))
    requires
        sorted_ok(t),
    ensures
        sorted_ok(insert_sorted(t, x)),
        insert_sorted(t, x).len() == t.len() + 1,
        insert_sorted(t, x).to_multiset() == t.to_multiset().insert(x),
        insert_sorted(t, x)[0] == x || (t.len() > 0 && insert_sorted(t, x)[0] == t[0]
            && !key_lt(x, t[0])),
    decreases t.len(),
{
    let r = insert_sorted(t, x);
    if t.len() == 0 {
        assert(seq![x] =~= Seq::<(RecV, int)>::empty().push(x));
        assert(r.to_multiset() =~= t.to_multiset().insert(x));
    } else if key_lt(x, t[0]) {
        vstd::seq_lib::lemma_multiset_commutative(seq![x], t);
        assert(seq![x] =~= Seq::<(RecV, int)>::empty().push(x));
        assert(r.to_multiset() =~= t.to_multiset().insert(x));
        assert forall|i: int, j: int| 0 <= i < j < r.len() implies !key_lt(r[j], r[i]) by {
            if i > 0 {
                assert(!key_lt(t[j - 1], t[i - 1]));
            } else if j > 0 {
                assert(!key_lt(t[j - 1], t[0]) || j == 1);
            }
        }
    } else {
        let rest = t.drop_first();
        assert forall|i: int, j: int| 0 <= i < j < rest.len() implies !key_lt(
            rest[j],
            rest[i],
        ) by {
            assert(!key_lt(t[j + 1], t[i + 1]));
        }
        lemma_insert_sorted_props(rest, x);
        let rr = insert_sorted(rest, x);
        assert(t =~= seq![t[0]] + rest);
        vstd::seq_lib::lemma_multiset_commutative(seq![t[0]], rest);
        vstd::seq_lib::lemma_multiset_commutative(seq![t[0]], rr);
        assert(r.to_multiset() =~= t.to_multiset().insert(x));
        assert forall|i: int, j: int| 0 <= i < j < r.len() implies !key_lt(r[j], r[i]) by {
            if i > 0 {
                assert(!key_lt(rr[j - 1], rr[i - 1]));
            } else {
                assert(r[j] == rr[j - 1]);
                assert(!key_lt(rr[j - 1], rr[0]) || j == 1);
                if rr[0] == x {
                } else {
                    assert(rr[0] == rest[0]);
                    assert(!key_lt(t[1], t[0]));
                }
            }
        }
    }
}

/// Each record of `recs` paired with its discovery index.
pub open spec fn indexed(recs: Seq<RecV>) -> Seq<(RecV, int)> {
    Seq::new(recs.len(), |i: int| (recs[i], i))
}

/// The ordering of a path's records is ordered and is a permutation of the
/// records, each carrying its discovery index: with the cap, a node's
/// children are therefore the largest records by size, ties resolved toward
/// the earlier index.
pub proof fn lemma_sorted_recs_props(recs: Seq<RecV>)
    ensures
        sorted_recs(recs).len() == recs.len(),
        sorted_ok(sorted_recs(recs)),
        sorted_recs(recs).to_multiset() == indexed(recs).to_multiset(),
{
    lemma_sorted_prefix_props(recs, recs.len() as int);
    assert(indexed(recs).take(recs.len() as int) =~= indexed(recs));
}

proof fn lemma_sorted_prefix_props(recs: Seq<RecV>, n: int)
    requires
        n <= recs.len(),
    ensures
        sorted_prefix(recs, n).len() == (if n >= 0 {
            n
        } else {
            0
        }),
        sorted_ok(sorted_prefix(recs, n)),
        n >= 0 ==> sorted_prefix(recs, n).to_multiset() == indexed(recs).take(n).to_multiset(),
    decreases n,
{
    if n <= 0 {
        if n == 0 {
            assert(indexed(recs).take(0) =~= Seq::<(RecV, int)>::empty());
        }
    } else {
        lemma_sorted_prefix_props(recs, n - 1);
        lemma_insert_sorted_props(sorted_prefix(recs, n - 1), (recs[n - 1], n - 1));
        assert(indexed(recs).take(n) =~= indexed(recs).take(n - 1).push((recs[n - 1], n - 1)));
    }
}

/// Each element of the ordering is a record of the list at its own discovery
/// index.
proof fn lemma_sorted_elems(recs: Seq<RecV>)
    ensures
        forall|q: int| 0 <= q < sorted_recs(recs).len() ==> {
            let x = #[trigger] sorted_recs(recs)[q];
            0 <= x.1 < recs.len() && x.0 == recs[x.1]
        },
{
    lemma_sorted_recs_props(recs);
    let srt = sorted_recs(recs);
    assert forall|q: int| 0 <= q < srt.len() implies {
        let x = #[trigger] srt[q];
        0 <= x.1 < recs.len() && x.0 == recs[x.1]
    } by {
        assert(srt.contains(srt[q]));
        assert(srt.to_multiset().count(srt[q]) > 0);
        assert(indexed(recs).to_multiset().count(srt[q]) > 0);
        assert(indexed(recs).contains(srt[q]));
        let i = choose|i: int| 0 <= i < indexed(recs).len() && indexed(recs)[i] == srt[q];
        assert(indexed(recs)[i] == (recs[i], i));
    }
}

/// `x` stands somewhere in the ordering's first `j` places and is not a
/// self-reference.
spec fn drawn_from(x: (RecV, int), srt: Seq<(RecV, int)>, path: Seq<char>, j: int) -> bool {
    exists|q: int| 0 <= q < j && x == (#[trigger] srt[q]) && srt[q].0.path != path
}

/// `x` is one of the kept records `c`.
spec fn kept_in(x: (RecV, int), c: Seq<(RecV, int)>) -> bool {
    exists|p: int| 0 <= p < c.len() && (#[trigger] c[p]) == x
}

/// What the chosen prefix keeps stands in the ordering's first `j` places,
/// and everything there that is not a self-reference is kept.
proof fn lemma_chosen_members(srt: Seq<(RecV, int)>, path: Seq<char>, j: int)
    requires
        0 <= j <= srt.len(),
    ensures
        forall|p: int|
            0 <= p < chosen_prefix(srt, path, j).len() ==> drawn_from(
                #[trigger] chosen_prefix(srt, path, j)[p],
                srt,
                path,
                j,
            ),
        forall|q: int|
            0 <= q < j && (#[trigger] srt[q]).0.path != path ==> kept_in(
                srt[q],
                chosen_prefix(srt, path, j),
            ),
    decreases j,
{
    if j > 0 {
        lemma_chosen_members(srt, path, j - 1);
        let prev = chosen_prefix(srt, path, j - 1);
        let cur = chosen_prefix(srt, path, j);
        assert forall|p: int| 0 <= p < cur.len() implies drawn_from(
            #[trigger] cur[p],
            srt,
            path,
            j,
        ) by {
            if p < prev.len() {
                assert(drawn_from(prev[p], srt, path, j - 1));
                let q0 = choose|q0: int|
                    0 <= q0 < j - 1 && prev[p] == (#[trigger] srt[q0]) && srt[q0].0.path != path;
                assert(cur[p] == (srt[q0]) && 0 <= q0 < j);
            } else {
                assert(srt[j - 1].0.path != path);
                assert(cur[p] == (srt[j - 1]));
            }
        }
        assert forall|q: int| 0 <= q < j && (#[trigger] srt[q]).0.path != path implies kept_in(
            srt[q],
            cur,
        ) by {
            if q < j - 1 {
                assert(kept_in(srt[q], prev));
                let p0 = choose|p0: int| 0 <= p0 < prev.len() && (#[trigger] prev[p0]) == srt[q];
                assert((cur[p0]) == srt[q]);
            } else {
                assert((cur[cur.len() - 1]) == srt[q]);
            }
        }
    }
}

/// The chosen prefix of an ordered list is ordered.
proof fn lemma_chosen_sorted(srt: Seq<(RecV, int)>, path: Seq<char>, j: int)
    requires
        sorted_ok(srt),
        0 <= j <= srt.len(),
    ensures
        sorted_ok(chosen_prefix(srt, path, j)),
    decreases j,
{
    if j > 0 {
        lemma_chosen_sorted(srt, path, j - 1);
        lemma_chosen_members(srt, path, j - 1);
        let prev = chosen_prefix(srt, path, j - 1);
        let cur = chosen_prefix(srt, path, j);
        if srt[j - 1].0.path != path {
            assert forall|a: int, b: int| 0 <= a < b < cur.len() implies !key_lt(
                cur[b],
                cur[a],
            ) by {
                if b < prev.len() {
                    assert(!key_lt(prev[b], prev[a]));
                } else {
                    assert(drawn_from(prev[a], srt, path, j - 1));
                    let q = choose|q: int|
                        0 <= q < j - 1 && prev[a] == (#[trigger] srt[q]) && srt[q].0.path
                            != path;
                    assert(!key_lt(srt[j - 1], srt[q]));
                }
            }
        }
    }
}

/// Top-`k` law: with budget left and a cached list for `path`, a materialized
/// node has at most `k` children, each one realizing a record of the list at
/// its own discovery index, in size-descending order with ties resolved
/// toward the earlier index — and no record that was left out, other than a
/// self-reference, outranks a kept one in that order.
pub proof fn lemma_top_k(
    m: Map<Seq<char>, Seq<RecV>>,
    path: Seq<char>,
    kids: Seq<Entry>,
    k: int,
    d: int,
)
    requires
        kids_materialized(m, path, kids, k, d),
        d >= 1,
        m.dom().contains(path),
        k >= 0,
    ensures
        ({
            let recs = m[path];
            let kept = node_children(m, path, k, d);
            &&& kids.len() == kept.len()
            &&& kept.len() <= k
            &&& forall|p: int|
                0 <= p < kept.len() ==> 0 <= (#[trigger] kept[p]).1 < recs.len() && kept[p].0
                    == recs[kept[p].1] && kept[p].0.path != path
            &&& forall|p: int, q: int|
                0 <= p < q < kept.len() ==> !key_lt(#[trigger] kept[q], #[trigger] kept[p])
            &&& forall|j: int|
                0 <= j < recs.len() && (#[trigger] recs[j]).path != path && (forall|p: int|
                    0 <= p < kept.len() ==> (#[trigger] kept[p]).1 != j) ==> forall|p: int|
                    0 <= p < kept.len() ==> !key_lt((recs[j], j), #[trigger] kept[p])
        }),
{
    let recs = m[path];
    let srt = sorted_recs(recs);
    let cap = if k < srt.len() {
        k
    } else {
        srt.len() as int
    };
    let kept = node_children(m, path, k, d);
    lemma_sorted_recs_props(recs);
    lemma_sorted_elems(recs);
    lemma_chosen_members(srt, path, cap);
    lemma_chosen_sorted(srt, path, cap);
    lemma_chosen_len(srt, path, cap);
    assert forall|p: int| 0 <= p < kept.len() implies 0 <= (#[trigger] kept[p]).1 < recs.len()
        && kept[p].0 == recs[kept[p].1] && kept[p].0.path != path by {
        assert(drawn_from(kept[p], srt, path, cap));
        let q = choose|q: int|
            0 <= q < cap && kept[p] == (#[trigger] srt[q]) && srt[q].0.path != path;
        assert(0 <= srt[q].1 < recs.len() && srt[q].0 == recs[srt[q].1]);
    }
    assert forall|j: int|
        0 <= j < recs.len() && (#[trigger] recs[j]).path != path && (forall|p: int|
            0 <= p < kept.len() ==> (#[trigger] kept[p]).1 != j) implies forall|p: int|
        0 <= p < kept.len() ==> !key_lt((recs[j], j), #[trigger] kept[p]) by {
        assert(indexed(recs)[j] == (recs[j], j));
        assert(indexed(recs).contains((recs[j], j)));
        assert(indexed(recs).to_multiset().count((recs[j], j)) > 0);
        assert(srt.to_multiset().count((recs[j], j)) > 0);
        assert(srt.contains((recs[j], j)));
        let qj = choose|qj: int| 0 <= qj < srt.len() && (#[trigger] srt[qj]) == (recs[j], j);
        if qj < cap {
            assert(kept_in(srt[qj], kept));
            let p0 = choose|p0: int| 0 <= p0 < kept.len() && (#[trigger] kept[p0]) == srt[qj];
            assert(kept[p0].1 == j);
            assert(false);
        }
        assert forall|p: int| 0 <= p < kept.len() implies !key_lt(
            (recs[j], j),
            #[trigger] kept[p],
        ) by {
            assert(drawn_from(kept[p], srt, path, cap));
            let qp = choose|qp: int|
                0 <= qp < cap && kept[p] == (#[trigger] srt[qp]) && srt[qp].0.path != path;
            assert(!key_lt(srt[qj], srt[qp]));
        }
    }
}

/// Sum of the sizes of the first `n` records.
pub open spec fn recs_size_sum(s: Seq<RecV>, n: int) -> int
    decreases n,
{
    if n <= 0 {
        0
    } else {
        recs_size_sum(s, n - 1) + s[n - 1].size
    }
}

/// What the records under `path` sum to; nothing when the cache has no list
/// for it.
pub open spec fn cache_list_sum(m: Map<Seq<char>, Seq<RecV>>, path: Seq<char>) -> int {
    if m.dom().contains(path) {
        recs_size_sum(m[path], m[path].len() as int)
    } else {
        0
    }
}

/// A consistent cache: no record claims a negative size, and a directory
/// record's size covers at least what its own recorded children sum to. One
/// scan pass builds only such caches: a directory's event carries its exact
/// subtree sum and is recorded only after all of its children's events.
pub open spec fn cache_consistent(m: Map<Seq<char>, Seq<RecV>>) -> bool {
    forall|p: Seq<char>, j: int|
        m.dom().contains(p) && 0 <= j < m[p].len() ==> {
            let r = #[trigger] m[p][j];
            &&& r.size >= 0
            &&& (r.is_dir && m.dom().contains(r.path) ==> r.size >= recs_size_sum(
                m[r.path],
                m[r.path].len() as int,
            ))
        }
}

/// Sum of the sizes of the first `n` record-index pairs.
pub open spec fn pairs_size_sum(t: Seq<(RecV, int)>, n: int) -> int
    decreases n,
{
    if n <= 0 {
        0
    } else {
        pairs_size_sum(t, n - 1) + t[n - 1].0.size
    }
}

/// Two lists agreeing on their first `n` places sum alike there.
proof fn lemma_pairs_sum_prefix(t1: Seq<(RecV, int)>, t2: Seq<(RecV, int)>, n: int)
    requires
        forall|q: int| 0 <= q < n ==> #[trigger] t1[q] == t2[q],
    ensures
        pairs_size_sum(t1, n) == pairs_size_sum(t2, n),
    decreases n,
{
    if n > 0 {
        lemma_pairs_sum_prefix(t1, t2, n - 1);
    }
}

/// Putting an element in front shifts a prefix sum by its size.
proof fn lemma_pairs_sum_cons(x: (RecV, int), t: Seq<(RecV, int)>, n: int)
    requires
        0 <= n <= t.len(),
    ensures
        pairs_size_sum(seq![x] + t, n + 1) == x.0.size + pairs_size_sum(t, n),
    decreases n,
{
    if n > 0 {
        lemma_pairs_sum_cons(x, t, n - 1);
        assert((seq![x] + t)[n] == t[n - 1]);
    } else {
        assert(pairs_size_sum(seq![x] + t, 0) == 0);
        assert((seq![x] + t)[0] == x);
    }
}

/// Inserting into the ordering adds exactly the new element's size.
proof fn lemma_insert_sorted_sum(t: Seq<(RecV, int)>, x: (RecV, int))
    ensures
        insert_sorted(t, x).len() == t.len() + 1,
        pairs_size_sum(insert_sorted(t, x), t.len() as int + 1) == pairs_size_sum(
            t,
            t.len() as int,
        ) + x.0.size,
    decreases t.len(),
{
    if t.len() == 0 {
        assert(pairs_size_sum(insert_sorted(t, x), 0) == 0);
        assert(insert_sorted(t, x)[0] == x);
        assert(pairs_size_sum(insert_sorted(t, x), 1) == x.0.size);
    } else if key_lt(x, t[0]) {
        lemma_pairs_sum_cons(x, t, t.len() as int);
    } else {
        let rest = t.drop_first();
        lemma_insert_sorted_sum(rest, x);
        let rr = insert_sorted(rest, x);
        lemma_pairs_sum_cons(t[0], rr, rr.len() as int);
        assert(t =~= seq![t[0]] + rest);
        lemma_pairs_sum_cons(t[0], rest, rest.len() as int);
    }
}

/// The ordering of the first `n` records sums to exactly their sizes.
proof fn lemma_sorted_prefix_sum(recs: Seq<RecV>, n: int)
    requires
        0 <= n <= recs.len(),
    ensures
        sorted_prefix(recs, n).len() == n,
        pairs_size_sum(sorted_prefix(recs, n), n) == recs_size_sum(recs, n),
    decreases n,
{
    if n > 0 {
        lemma_sorted_prefix_sum(recs, n - 1);
        lemma_insert_sorted_sum(sorted_prefix(recs, n - 1), (recs[n - 1], n - 1));
    }
}

/// With no negative sizes, a longer prefix sums to no less.
proof fn lemma_pairs_sum_mono(t: Seq<(RecV, int)>, n1: int, n2: int)
    requires
        0 <= n1 <= n2 <= t.len(),
        forall|q: int| 0 <= q < t.len() ==> (#[trigger] t[q]).0.size >= 0,
    ensures
        pairs_size_sum(t, n1) <= pairs_size_sum(t, n2),
    decreases n2 - n1,
{
    if n1 < n2 {
        lemma_pairs_sum_mono(t, n1, n2 - 1);
    }
}

/// What the chosen prefix keeps sums to no more than the places it was drawn
/// from.
proof fn lemma_chosen_sum(srt: Seq<(RecV, int)>, path: Seq<char>, j: int)
    requires
        0 <= j <= srt.len(),
        forall|q: int| 0 <= q < srt.len() ==> (#[trigger] srt[q]).0.size >= 0,
    ensures
        pairs_size_sum(chosen_prefix(srt, path, j), chosen_prefix(srt, path, j).len() as int)
            <= pairs_size_sum(srt, j),
        pairs_size_sum(chosen_prefix(srt, path, j), chosen_prefix(srt, path, j).len() as int)
            >= 0,
    decreases j,
{
    if j > 0 {
        lemma_chosen_sum(srt, path, j - 1);
        let prev = chosen_prefix(srt, path, j - 1);
        let cur = chosen_prefix(srt, path, j);
        if srt[j - 1].0.path != path {
            lemma_pairs_sum_prefix(cur, prev, prev.len() as int);
            assert(cur[cur.len() - 1] == srt[j - 1]);
        }
    }
}

/// An entry list whose places carry the same sizes as a pair list sums the
/// same.
proof fn lemma_kids_pairs_sum(kids: Seq<Entry>, kept: Seq<(RecV, int)>)
    requires
        kids.len() == kept.len(),
        forall|i: int| 0 <= i < kids.len() ==> (#[trigger] kids[i]).size as int == kept[i].0.size,
    ensures
        sizes_sum(kids) == pairs_size_sum(kept, kept.len() as int),
    decreases kids.len(),
{
    if kids.len() > 0 {
        let n = kids.len() as int;
        lemma_sizes_sum_drop_last(kids, 0);
        assert forall|i: int|
            0 <= i < kids.drop_last().len() implies (#[trigger] kids.drop_last()[i]).size as int
            == kept.drop_last()[i].0.size by {
            assert(kids.drop_last()[i] == kids[i]);
            assert(kept.drop_last()[i] == kept[i]);
        }
        lemma_kids_pairs_sum(kids.drop_last(), kept.drop_last());
        lemma_pairs_sum_prefix(kept, kept.drop_last(), n - 1);
        assert(kids.last().size as int == kept[n - 1].0.size);
        assert(pairs_size_sum(kept, n) == pairs_size_sum(kept, n - 1) + kept[n - 1].0.size);
        assert(sizes_sum(kids) == crate::entry::sizes_sum_from(kids.drop_last(), 0)
            + kids.last().size);
    }
}

/// A front-to-back sum peels off its last element.
proof fn lemma_sizes_sum_drop_last(s: Seq<Entry>, i: int)
    requires
        0 <= i < s.len(),
    ensures
        crate::entry::sizes_sum_from(s, i) == crate::entry::sizes_sum_from(s.drop_last(), i)
            + s.last().size,
    decreases s.len() - i,
{
    if i < s.len() - 1 {
        lemma_sizes_sum_drop_last(s, i + 1);
        assert(s.drop_last()[i] == s[i]);
    } else {
        assert(crate::entry::sizes_sum_from(s, i + 1) == 0);
        assert(crate::entry::sizes_sum_from(s.drop_last(), i) == 0);
        assert(s.last() == s[i]);
    }
}

/// Record sums are nonnegative in a consistent cache's list.
proof fn lemma_recs_sum_nonneg(s: Seq<RecV>, n: int)
    requires
        forall|q: int| 0 <= q < s.len() ==> (#[trigger] s[q]).size >= 0,
        n <= s.len(),
    ensures
        recs_size_sum(s, n) >= 0,
    decreases n,
{
    if n > 0 {
        lemma_recs_sum_nonneg(s, n - 1);
    }
}

/// Any snapshot children the materializer builds from a consistent cache are
/// well-formed, and they claim no more bytes than the cached records for
/// their parent sum to.
pub proof fn lemma_snapshot_wf(
    m: Map<Seq<char>, Seq<RecV>>,
    path: Seq<char>,
    kids: Seq<Entry>,
    k: int,
    d: int,
)
    requires
        cache_consistent(m),
        kids_materialized(m, path, kids, k, d),
        k >= 0,
    ensures
        forall|i: int| 0 <= i < kids.len() ==> entry_wf(#[trigger] kids[i]),
        0 <= sizes_sum(kids),
        sizes_sum(kids) <= cache_list_sum(m, path),
    decreases kids,
{
    let kept = node_children(m, path, k, d);
    if d <= 0 || !m.dom().contains(path) {
        assert(kids.len() == 0);
        if m.dom().contains(path) {
            assert forall|q: int| 0 <= q < m[path].len() implies (#[trigger] m[path][q]).size
                >= 0 by {
                let r = m[path][q];
                assert(r.size >= 0);
            }
            lemma_recs_sum_nonneg(m[path], m[path].len() as int);
        }
    } else {
        let recs = m[path];
        let srt = sorted_recs(recs);
        let cap = if k < srt.len() {
            k
        } else {
            srt.len() as int
        };
        lemma_top_k(m, path, kids, k, d);
        lemma_sorted_recs_props(recs);
        assert forall|q: int| 0 <= q < recs.len() implies (#[trigger] recs[q]).size >= 0 by {
            assert(m[path][q] == recs[q]);
        }
        lemma_sorted_elems(recs);
        assert forall|i: int| 0 <= i < kids.len() implies entry_wf(#[trigger] kids[i]) by {
            let c = kids[i];
            let rec = kept[i].0;
            let idx = kept[i].1;
            assert(m[path][idx] == rec);
            if rec.is_dir {
                assert(kids_materialized(m, rec.path, c.children@, k, d - 1));
                lemma_snapshot_wf(m, rec.path, c.children@, k, d - 1);
                assert(sizes_sum(c.children@) <= cache_list_sum(m, rec.path));
                assert(cache_list_sum(m, rec.path) <= rec.size);
            } else {
                assert(c.children@.len() == 0);
            }
        }
        assert forall|q: int| 0 <= q < srt.len() implies (#[trigger] srt[q]).0.size >= 0 by {
            assert(srt[q].0 == recs[srt[q].1]);
        }
        assert forall|i: int| 0 <= i < kids.len() implies (#[trigger] kids[i]).size as int
            == kept[i].0.size by {}
        lemma_kids_pairs_sum(kids, kept);
        lemma_chosen_sum(srt, path, cap);
        lemma_pairs_sum_mono(srt, cap, srt.len() as int);
        lemma_sorted_prefix_sum(recs, recs.len() as int);
    }
}

/// A root entry built over a consistent cache is a well-formed snapshot
/// whenever its own size covers the cached records below it, as the worker's
/// grand total is designed to: it counts every recorded file once.
pub proof fn lemma_snapshot_entry_wf(m: Map<Seq<char>, Seq<RecV>>, e: Entry, k: int, d: int)
    requires
        cache_consistent(m),
        kids_materialized(m, e.path@, e.children@, k, d),
        k >= 0,
        e.size >= cache_list_sum(m, e.path@),
    ensures
        entry_wf(e),
{
    lemma_snapshot_wf(m, e.path@, e.children@, k, d);
}

/// The view of a list of record-index pairs.
pub open spec fn pairs_v(s: Seq<(ChildRec, usize)>) -> Seq<(RecV, int)>
    decreases s.len(),
{
    if s.len() == 0 {
        Seq::empty()
    } else {
        pairs_v(s.drop_last()).push((rec_v(s.last().0), s.last().1 as int))
    }
}

proof fn lemma_pairs_v(s: Seq<(ChildRec, usize)>)
    ensures
        pairs_v(s).len() == s.len(),
        forall|i: int| 0 <= i < s.len() ==> pairs_v(s)[i] == (
            rec_v((#[trigger] s[i]).0),
            s[i].1 as int,
        ),
    decreases s.len(),
{
    if s.len() > 0 {
        lemma_pairs_v(s.drop_last());
        assert forall|i: int| 0 <= i < s.len() implies pairs_v(s)[i] == (
            rec_v((#[trigger] s[i]).0),
            s[i].1 as int,
        ) by {
            if i < s.len() - 1 {
                assert(pairs_v(s)[i] == pairs_v(s.drop_last())[i]);
                assert(s.drop_last()[i] == s[i]);
            }
        }
    }
}

/// Inserting at the first position whose element the new one precedes is the
/// insertion sort's choice of place.
proof fn lemma_insert_at(t: Seq<(RecV, int)>, x: (RecV, int), pos: int)
    requires
        0 <= pos <= t.len(),
        forall|q: int| 0 <= q < pos ==> !key_lt(x, #[trigger] t[q]),
        pos < t.len() ==> key_lt(x, t[pos]),
    ensures
        insert_sorted(t, x) == t.take(pos) + seq![x] + t.skip(pos),
    decreases pos,
{
    if pos == 0 {
        if t.len() == 0 {
            assert(insert_sorted(t, x) =~= t.take(0) + seq![x] + t.skip(0));
        } else {
            assert(insert_sorted(t, x) =~= t.take(0) + seq![x] + t.skip(0));
        }
    } else {
        let rest = t.drop_first();
        assert forall|q: int| 0 <= q < pos - 1 implies !key_lt(x, #[trigger] rest[q]) by {
            assert(rest[q] == t[q + 1]);
        }
        lemma_insert_at(rest, x, pos - 1);
        assert(insert_sorted(t, x) == seq![t[0]] + (rest.take(pos - 1) + seq![x] + rest.skip(
            pos - 1,
        )));
        assert(seq![t[0]] + (rest.take(pos - 1) + seq![x] + rest.skip(pos - 1)) =~= t.take(pos)
            + seq![x] + t.skip(pos));
    }
}

/// Finds the first position of `out` whose element the key `(size, idx)`
/// precedes, or the length when there is none.
fn find_pos(out: &Vec<(ChildRec, usize)>, size: u64, idx: usize) -> (pos: usize)
    ensures
        pos <= out@.len(),
        forall|q: int| 0 <= q < pos ==> !(size > (#[trigger] out@[q]).0.size || (size
            == out@[q].0.size && idx < out@[q].1)),
        pos < out@.len() ==> (size > out@[pos as int].0.size || (size == out@[pos as int].0.size
            && idx < out@[pos as int].1)),
{
    let n = out.len();
    let mut p: usize = 0;
    while p < n
        invariant
            0 <= p <= n,
            n == out@.len(),
            forall|q: int| 0 <= q < p ==> !(size > (#[trigger] out@[q]).0.size || (size
                == out@[q].0.size && idx < out@[q].1)),
        decreases n - p,
    {
        let s = out[p].0.size;
        let i = out[p].1;
        if size > s || (size == s && idx < i) {
            return p;
        }
        p = p + 1;
    }
    p
}

/// Sorts a cached child list by size, descending, keeping equal sizes in
/// discovery order; each record comes out paired with its discovery index.
fn sort_pairs(list: &Vec<ChildRec>) -> (out: Vec<(ChildRec, usize)>)
    ensures
        pairs_v(out@) == sorted_recs(recs_v(list@)),
        out@.len() == list@.len(),
{
    let ghost recs = recs_v(list@);
    proof {
        lemma_recs_v(list@);
    }
    let n = list.len();
    let mut out: Vec<(ChildRec, usize)> = Vec::new();
    let mut j: usize = 0;
    while j < n
        invariant
            0 <= j <= n,
            n == list@.len(),
            recs == recs_v(list@),
            recs.len() == n,
            out@.len() == j,
            pairs_v(out@) == sorted_prefix(recs, j as int),
            forall|i: int| 0 <= i < list@.len() ==> recs[i] == rec_v(#[trigger] list@[i]),
        decreases n - j,
    {
        let r = &list[j];
        let rec = ChildRec { path: r.path.clone(), size: r.size, is_dir: r.is_dir };
        let ghost t = pairs_v(out@);
        let ghost x = (rec_v(rec), j as int);
        let pos = find_pos(&out, rec.size, j);
        proof {
            lemma_pairs_v(out@);
            assert forall|q: int| 0 <= q < pos implies !key_lt(x, #[trigger] t[q]) by {
                assert(t[q] == (rec_v(out@[q].0), out@[q].1 as int));
            }
            if pos < out@.len() {
                assert(t[pos as int] == (rec_v(out@[pos as int].0), out@[pos as int].1 as int));
            }
            lemma_insert_at(t, x, pos as int);
        }
        let ghost out_old = out@;
        let ghost newpair = (rec, j);
        out.insert(pos, (rec, j));
        proof {
            assert(out@ == out_old.insert(pos as int, newpair));
            lemma_pairs_v(out@);
            lemma_pairs_v(out_old);
            assert(out@.len() == out_old.len() + 1);
            let target = t.take(pos as int) + seq![x] + t.skip(pos as int);
            assert forall|q: int| 0 <= q < out@.len() implies pairs_v(out@)[q] == target[q] by {
                if q < pos as int {
                    assert(out@[q] == out_old[q]);
                    assert(target[q] == t[q]);
                } else if q == pos as int {
                    assert(out@[q] == newpair);
                    assert(target[q] == x);
                } else {
                    assert(out@[q] == out_old[q - 1]);
                    assert(target[q] == t.skip(pos as int)[q - pos - 1]);
                }
            }
            assert(pairs_v(out@) =~= target);
            assert(x == (recs[j as int], j as int));
            assert(pairs_v(out@) == sorted_prefix(recs, j + 1));
        }
        j = j + 1;
    }
    out
}

/// Builds the child list the materializer gives the node at `path`, with
/// `depth` levels already built above it.
fn collect(cache: &ScanCache, path: &String, count: usize, depth: u64, max_depth: u64) -> (kids:
    Vec<Entry>)
    requires
        depth <= max_depth,
    ensures
        kids_materialized(
            cache@,
            path@,
            kids@,
            count as int,
            max_depth as int - depth as int,
        ),
    decreases max_depth - depth,
{
    let ghost m = cache@;
    let ghost d = max_depth as int - depth as int;
    let mut kids: Vec<Entry> = Vec::new();
    if depth >= max_depth {
        proof {
            assert(node_children(m, path@, count as int, d) =~= Seq::<(RecV, int)>::empty());
        }
        return kids;
    }
    let listopt = cache.get(path);
    match listopt {
        Option::None => {
            proof {
                assert(node_children(m, path@, count as int, d) =~= Seq::<(RecV, int)>::empty());
            }
            kids
        },
        Option::Some(list) => {
            let ghost recs = m[path@];
            let sorted = sort_pairs(list);
            let ghost srt = sorted_recs(recs);
            proof {
                lemma_recs_v(list@);
                lemma_sorted_recs_props(recs);
            }
            let n = if count < sorted.len() {
                count
            } else {
                sorted.len()
            };
            let ghost kept = node_children(m, path@, count as int, d);
            let mut j: usize = 0;
            while j < n
                invariant
                    0 <= j <= n,
                    n == (if count < srt.len() {
                        count as int
                    } else {
                        srt.len() as int
                    }),
                    depth < max_depth,
                    d == max_depth as int - depth as int,
                    m == cache@,
                    pairs_v(sorted@) == srt,
                    sorted@.len() == srt.len(),
                    kids_match(m, chosen_prefix(srt, path@, j as int), kids@, count as int, d
                        - 1),
                decreases n - j,
            {
                proof {
                    lemma_pairs_v(sorted@);
                    lemma_chosen_len(srt, path@, j as int);
                }
                let pr = &sorted[j];
                let ghost prev = chosen_prefix(srt, path@, j as int);
                let ghost cur = chosen_prefix(srt, path@, j + 1);
                if pr.0.path == *path {
                    proof {
                        assert(srt[j as int].0.path == path@);
                        assert(cur == prev);
                    }
                } else {
                    proof {
                        assert(srt[j as int] == (rec_v(pr.0), pr.1 as int));
                        assert(srt[j as int].0.path != path@);
                        assert(cur == prev.push(srt[j as int]));
                    }
                    let sub: Vec<Entry> = if pr.0.is_dir {
                        collect(cache, &pr.0.path, count, depth + 1, max_depth)
                    } else {
                        Vec::new()
                    };
                    proof {
                        if !pr.0.is_dir {
                            assert(sub@.len() == 0);
                        }
                    }
                    let kid = Entry {
                        path: pr.0.path.clone(),
                        size: pr.0.size,
                        is_dir: pr.0.is_dir,
                        children: sub,
                    };
                    let ghost kidv = kid;
                    let ghost kids_old = kids@;
                    kids.push(kid);
                    proof {
                        assert(kids@ == kids_old.push(kidv));
                        assert(kidv.path@ == cur[cur.len() - 1].0.path);
                        assert forall|i: int| 0 <= i < cur.len() implies {
                            let c = #[trigger] kids@[i];
                            &&& c.path@ == cur[i].0.path
                            &&& c.size as int == cur[i].0.size
                            &&& c.is_dir == cur[i].0.is_dir
                            &&& (cur[i].0.is_dir ==> kids_materialized(
                                m,
                                cur[i].0.path,
                                c.children@,
                                count as int,
                                d - 1,
                            ))
                            &&& (!cur[i].0.is_dir ==> c.children@.len() == 0)
                        } by {
                            if i < cur.len() - 1 {
                                assert(kids@[i] == kids_old[i]);
                                assert(cur[i] == prev[i]);
                            } else {
                                assert(kids@[i] == kidv);
                            }
                        }
                    }
                }
                j = j + 1;
            }
            proof {
                assert(kept == chosen_prefix(srt, path@, n as int));
            }
            kids
        },
    }
}

/// Materializes the snapshot tree for `root_path` from the cache: the root
/// carries the worker's exact grand total, and below it at most
/// `max_children` children per node, the largest first, down to `max_depth`
/// levels.
pub fn materialize(
    cache: &ScanCache,
    root_path: &String,
    root_size: u64,
    max_children: usize,
    max_depth: u64,
) -> (e: Entry)
    ensures
        e.path@ == root_path@,
        e.size == root_size,
        e.is_dir,
        kids_materialized(cache@, root_path@, e.children@, max_children as int, max_depth as int),
        e.children@.len() <= max_children,
        depth_within(e, max_depth as int),
{
    let kids = collect(cache, root_path, max_children, 0, max_depth);
    let e = Entry { path: root_path.clone(), size: root_size, is_dir: true, children: kids };
    proof {
        let kept = node_children(cache@, root_path@, max_children as int, max_depth as int);
        if cache@.dom().contains(root_path@) {
            lemma_sorted_recs_props(cache@[root_path@]);
            let srt = sorted_recs(cache@[root_path@]);
            let cap = if (max_children as int) < srt.len() {
                max_children as int
            } else {
                srt.len() as int
            };
            lemma_chosen_len(srt, root_path@, cap);
        }
        lemma_depth_cap(
            cache@,
            root_path@,
            e.children@,
            max_children as int,
            max_depth as int,
        );
    }
    e
}

} // verus!
