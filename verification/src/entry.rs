//! The snapshot tree: an immutable, size-weighted view of one moment of a
//! scan. A node records its path, its aggregate size in bytes, whether it is
//! a directory, and a capped, size-ordered list of children.

use vstd::prelude::*;

verus! {

broadcast use vstd::std_specs::vec::group_vec_axioms;

/// One node of a materialized snapshot. `size` aggregates the sizes of all
/// descendants that were scanned; for a plain file it is the raw length.
pub struct Entry {
    pub path: String,
    pub size: u64,
    pub is_dir: bool,
    pub children: Vec<Entry>,
}

/// Sum of the `size` fields of a sequence of entries, from index `i` on.
pub open spec fn sizes_sum_from(s: Seq<Entry>, i: int) -> int
    decreases s.len() - i,
{
    if i < 0 || i >= s.len() {
        0
    } else {
        s[i].size + sizes_sum_from(s, i + 1)
    }
}

/// Sum of the `size` fields of a whole sequence of entries.
pub open spec fn sizes_sum(s: Seq<Entry>) -> int {
    sizes_sum_from(s, 0)
}

/// Well-formed snapshot node: the direct children account for no more bytes
/// than the node itself, at every level. Snapshots built from one scan pass
/// satisfy this; the cap on children only makes the inequality looser.
pub open spec fn entry_wf(e: Entry) -> bool
    decreases e,
{
    &&& sizes_sum(e.children@) <= e.size
    &&& forall|i: int| 0 <= i < e.children@.len() ==> entry_wf(#[trigger] e.children@[i])
}

/// Height of a node: 1 for a leaf, one more than the tallest child otherwise.
pub open spec fn entry_height(e: Entry) -> nat
    decreases e, 0nat,
{
    1 + kids_height(e.children@, 0)
}

/// Height of the tallest entry of `s` from index `i` on (0 when none).
pub open spec fn kids_height(s: Seq<Entry>, i: int) -> nat
    decreases s, s.len() - i,
{
    if i < 0 || i >= s.len() {
        0
    } else {
        let h = entry_height(s[i]);
        let rest = kids_height(s, i + 1);
        if h >= rest {
            h
        } else {
            rest
        }
    }
}

/// Every path below `e` descends through at most `d` further levels.
pub open spec fn depth_within(e: Entry, d: int) -> bool
    decreases e,
{
    e.children@.len() > 0 ==> {
        &&& d >= 1
        &&& forall|i: int| 0 <= i < e.children@.len() ==> depth_within(
            #[trigger] e.children@[i],
            d - 1,
        )
    }
}

pub proof fn lemma_sizes_sum_from_nonneg(s: Seq<Entry>, i: int)
    ensures
        sizes_sum_from(s, i) >= 0,
    decreases s.len() - i,
{
    if 0 <= i < s.len() {
        lemma_sizes_sum_from_nonneg(s, i + 1);
    }
}

/// A partial sum of child sizes never exceeds the full sum.
pub proof fn lemma_sizes_sum_member(s: Seq<Entry>, i: int)
    requires
        0 <= i < s.len(),
    ensures
        s[i].size <= sizes_sum_from(s, i),
        sizes_sum_from(s, i) <= sizes_sum(s),
    decreases i,
{
    lemma_sizes_sum_from_nonneg(s, i + 1);
    if i > 0 {
        lemma_sizes_sum_member(s, i - 1);
        lemma_sizes_sum_from_nonneg(s, i);
    } else {
        assert(sizes_sum_from(s, 0) == sizes_sum(s));
    }
}

/// Decides well-formedness of a snapshot node.
pub fn check_wf(e: &Entry) -> (b: bool)
    ensures
        b == entry_wf(*e),
    decreases *e,
{
    let n = e.children.len();
    let mut sum: u128 = 0;
    let mut i: usize = 0;
    let mut ok = true;
    while i < n
        invariant
            0 <= i <= n,
            n == e.children@.len(),
            sum == sizes_sum_from(e.children@, 0) - sizes_sum_from(e.children@, i as int),
            sum <= i * 0x1_0000_0000_0000_0000,
            ok == forall|j: int| 0 <= j < i ==> entry_wf(#[trigger] e.children@[j]),
        decreases n - i,
    {
        proof {
            lemma_sizes_sum_from_nonneg(e.children@, i as int);
            lemma_sizes_sum_from_nonneg(e.children@, i + 1);
            assert(sizes_sum_from(e.children@, i as int) == e.children@[i as int].size
                + sizes_sum_from(e.children@, i + 1));
            assert((i + 1) * 0x1_0000_0000_0000_0000 == i * 0x1_0000_0000_0000_0000
                + 0x1_0000_0000_0000_0000) by (nonlinear_arith);
        }
        let c = &e.children[i];
        sum = sum + c.size as u128;
        if !check_wf(c) {
            ok = false;
        }
        i = i + 1;
    }
    proof {
        lemma_sizes_sum_from_nonneg(e.children@, n as int);
    }
    ok && sum <= e.size as u128
}

/// The tallest entry from `i` on stays within `m` exactly when every entry
/// from `i` on does.
pub proof fn lemma_kids_height_bound(s: Seq<Entry>, i: int, m: int)
    requires
        0 <= i,
        0 <= m,
    ensures
        (kids_height(s, i) <= m) == (forall|j: int| i <= j < s.len() ==> entry_height(
            #[trigger] s[j],
        ) <= m),
    decreases s.len() - i,
{
    if 0 <= i < s.len() {
        lemma_kids_height_bound(s, i + 1, m);
    }
}

/// Decides whether no path below `e` has more than `limit` levels.
pub fn check_height(e: &Entry, limit: u64) -> (b: bool)
    ensures
        b == (entry_height(*e) <= limit),
    decreases *e,
{
    if limit == 0 {
        return false;
    }
    let n = e.children.len();
    let mut i: usize = 0;
    let mut ok = true;
    while i < n
        invariant
            0 <= i <= n,
            n == e.children@.len(),
            limit >= 1,
            ok == (forall|j: int| 0 <= j < i ==> entry_height(#[trigger] e.children@[j])
                <= limit - 1),
        decreases n - i,
    {
        if !check_height(&e.children[i], limit - 1) {
            ok = false;
        }
        i = i + 1;
    }
    proof {
        lemma_kids_height_bound(e.children@, 0, limit - 1);
    }
    ok
}

} // verus!
