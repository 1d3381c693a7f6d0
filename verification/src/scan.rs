//! The scanner, verified over an in-memory model of a directory tree. It
//! walks the tree depth first, reports each entry to the worker exactly once
//! — a directory only after all of its descendants — and stops as soon as the
//! worker observes cancellation, returning the partial total accumulated at
//! each level. A front end replays the same discipline over a real
//! filesystem; this module is where its bookkeeping is proved right.

use vstd::prelude::*;
use crate::worker::{Worker, ScanEvent, EventV, WorkerV, ev_v, wv, wstep, wfold, files_total,
    worker_budget, cancel_now, lemma_wfold_prefix, lemma_wfold_concat, lemma_wfold_total};

verus! {

broadcast use vstd::std_specs::vec::group_vec_axioms;

/// One node of the modeled directory tree. Every node carries its own full
/// path, as the walk of a real tree would hand it out.
pub enum FsItem {
    File { path: String, size: u64 },
    Dir { path: String, entries: Vec<FsItem> },
}

/// The exact size of the subtree at `it`: a file's raw length, or the sum
/// over a directory's entries.
pub open spec fn item_total(it: FsItem) -> int
    decreases it, 0int,
{
    match it {
        FsItem::File { size, .. } => size as int,
        FsItem::Dir { entries, .. } => items_total(entries@, 0),
    }
}

/// The exact size of the subtrees of `s` from index `i` on.
pub open spec fn items_total(s: Seq<FsItem>, i: int) -> int
    decreases s, s.len() - i,
{
    if i < 0 || i >= s.len() {
        0
    } else {
        item_total(s[i]) + items_total(s, i + 1)
    }
}

/// How many events the subtree at `it` emits: one per descendant entry, plus
/// one for `it` itself.
pub open spec fn item_event_count(it: FsItem) -> int
    decreases it, 0int,
{
    match it {
        FsItem::File { .. } => 1,
        FsItem::Dir { entries, .. } => items_event_count(entries@, 0) + 1,
    }
}

/// How many events the subtrees of `s` from index `i` on emit.
pub open spec fn items_event_count(s: Seq<FsItem>, i: int) -> int
    decreases s, s.len() - i,
{
    if i < 0 || i >= s.len() {
        0
    } else {
        item_event_count(s[i]) + items_event_count(s, i + 1)
    }
}

/// The events the subtree at `it` emits, in order: all descendants' events
/// first, then `it`'s own, reported to `parent`.
pub open spec fn item_events(parent: Seq<char>, it: FsItem) -> Seq<EventV>
    decreases it, 0int,
{
    match it {
        FsItem::File { path, size } => seq![
            EventV { parent, path: path@, is_dir: false, size: size as int },
        ],
        FsItem::Dir { path, entries } => items_events(path@, entries@, 0).push(
            EventV { parent, path: path@, is_dir: true, size: items_total(entries@, 0) },
        ),
    }
}

/// The events the subtrees of `s` from index `i` on emit, concatenated.
pub open spec fn items_events(parent: Seq<char>, s: Seq<FsItem>, i: int) -> Seq<EventV>
    decreases s, s.len() - i,
{
    if i < 0 || i >= s.len() {
        Seq::empty()
    } else {
        item_events(parent, s[i]) + items_events(parent, s, i + 1)
    }
}

/// What a scan of the subtrees of `s` from index `i` on does when the worker
/// will record `budget` more events before observing cancellation: the
/// returned triple is the level's accumulated total, the number of events
/// recorded, and whether the scan completed. The entry at which cancellation
/// is observed has its size already accumulated at its own level, but a
/// canceled directory contributes nothing to its parent's level.
pub open spec fn scan_sp(s: Seq<FsItem>, i: int, budget: int) -> (int, int, bool)
    decreases s, s.len() - i,
{
    if i < 0 || i >= s.len() {
        (0, 0, true)
    } else {
        match s[i] {
            FsItem::File { path, size } => {
                if budget <= 0 {
                    (size as int, 0, false)
                } else {
                    let r = scan_sp(s, i + 1, budget - 1);
                    (size + r.0, 1 + r.1, r.2)
                }
            },
            FsItem::Dir { path, entries } => {
                let sub = scan_sp(entries@, 0, budget);
                if !sub.2 {
                    (0, sub.1, false)
                } else {
                    let b2 = budget - sub.1;
                    if b2 <= 0 {
                        (item_total(s[i]), sub.1, false)
                    } else {
                        let r = scan_sp(s, i + 1, b2 - 1);
                        (item_total(s[i]) + r.0, sub.1 + 1 + r.1, r.2)
                    }
                }
            },
        }
    }
}

/// Every subtree emits at least one event.
pub proof fn lemma_item_count(it: FsItem)
    ensures
        item_event_count(it) >= 1,
    decreases it, 0int,
{
    match it {
        FsItem::File { .. } => {},
        FsItem::Dir { entries, .. } => {
            lemma_items_count(entries@, 0);
        },
    }
}

/// Event counts are nonnegative, and positive while entries remain.
pub proof fn lemma_items_count(s: Seq<FsItem>, i: int)
    ensures
        items_event_count(s, i) >= 0,
        0 <= i < s.len() ==> items_event_count(s, i) >= item_event_count(s[i])
            + items_event_count(s, i + 1) && item_event_count(s[i]) >= 1,
    decreases s, s.len() - i,
{
    if 0 <= i < s.len() {
        lemma_item_count(s[i]);
        lemma_items_count(s, i + 1);
    }
}

/// The event list of a subtree has exactly its event count.
pub proof fn lemma_item_events_len(parent: Seq<char>, it: FsItem)
    ensures
        item_events(parent, it).len() == item_event_count(it),
    decreases it, 0int,
{
    match it {
        FsItem::File { .. } => {},
        FsItem::Dir { path, entries } => {
            lemma_items_events_len(path@, entries@, 0);
        },
    }
}

/// The event list of a range of subtrees has exactly its event count.
pub proof fn lemma_items_events_len(parent: Seq<char>, s: Seq<FsItem>, i: int)
    ensures
        items_events(parent, s, i).len() == items_event_count(s, i),
    decreases s, s.len() - i,
{
    if 0 <= i < s.len() {
        lemma_item_events_len(parent, s[i]);
        lemma_items_events_len(parent, s, i + 1);
    }
}

/// Subtree sizes are nonnegative.
pub proof fn lemma_item_total_nonneg(it: FsItem)
    ensures
        item_total(it) >= 0,
    decreases it, 0int,
{
    match it {
        FsItem::File { .. } => {},
        FsItem::Dir { entries, .. } => {
            lemma_items_total_nonneg(entries@, 0);
        },
    }
}

/// Sums of subtree sizes are nonnegative.
pub proof fn lemma_items_total_nonneg(s: Seq<FsItem>, i: int)
    ensures
        items_total(s, i) >= 0,
        0 <= i < s.len() ==> item_total(s[i]) >= 0 && items_total(s, i) == item_total(s[i])
            + items_total(s, i + 1),
    decreases s, s.len() - i,
{
    if 0 <= i < s.len() {
        lemma_item_total_nonneg(s[i]);
        lemma_items_total_nonneg(s, i + 1);
    }
}

/// A budget that covers every event completes the scan, records all events,
/// and reports the exact subtree sums.
pub proof fn lemma_scan_complete(s: Seq<FsItem>, i: int, b: int)
    requires
        0 <= i,
        b >= items_event_count(s, i),
    ensures
        scan_sp(s, i, b).0 == items_total(s, i),
        scan_sp(s, i, b).1 == items_event_count(s, i),
        scan_sp(s, i, b).2,
    decreases s, s.len() - i,
{
    lemma_items_count(s, i);
    if 0 <= i < s.len() {
        lemma_items_count(s, i + 1);
        match s[i] {
            FsItem::File { .. } => {
                lemma_scan_complete(s, i + 1, b - 1);
            },
            FsItem::Dir { path, entries } => {
                lemma_items_count(entries@, 0);
                lemma_scan_complete(entries@, 0, b);
                lemma_scan_complete(s, i + 1, b - items_event_count(entries@, 0) - 1);
            },
        }
    }
}

/// A budget that falls short cancels the scan after recording exactly the
/// budgeted number of events.
pub proof fn lemma_scan_partial(s: Seq<FsItem>, i: int, b: int)
    requires
        0 <= i,
        0 <= b < items_event_count(s, i),
    ensures
        !scan_sp(s, i, b).2,
        scan_sp(s, i, b).1 == b,
    decreases s, s.len() - i,
{
    lemma_items_count(s, i);
    if 0 <= i < s.len() {
        lemma_items_count(s, i + 1);
        match s[i] {
            FsItem::File { .. } => {
                if b > 0 {
                    lemma_scan_partial(s, i + 1, b - 1);
                }
            },
            FsItem::Dir { path, entries } => {
                let ce = items_event_count(entries@, 0);
                lemma_items_count(entries@, 0);
                if b < ce {
                    lemma_scan_partial(entries@, 0, b);
                } else {
                    lemma_scan_complete(entries@, 0, b);
                    if b - ce > 0 {
                        lemma_scan_partial(s, i + 1, b - ce - 1);
                    }
                }
            },
        }
    }
}

/// The level total reported by a scan never exceeds the exact sum of this
/// level's subtrees, and what was consumed stays within the budget and the
/// event count.
pub proof fn lemma_scan_bounds(s: Seq<FsItem>, i: int, b: int)
    requires
        0 <= i,
    ensures
        0 <= scan_sp(s, i, b).0,
        scan_sp(s, i, b).0 <= items_total(s, i),
        0 <= scan_sp(s, i, b).1,
        scan_sp(s, i, b).1 <= items_event_count(s, i),
        b >= 0 ==> scan_sp(s, i, b).1 <= b,
    decreases s, s.len() - i,
{
    lemma_items_count(s, i);
    lemma_items_total_nonneg(s, i);
    if 0 <= i < s.len() {
        lemma_items_count(s, i + 1);
        lemma_items_total_nonneg(s, i + 1);
        match s[i] {
            FsItem::File { .. } => {
                lemma_scan_bounds(s, i + 1, b - 1);
            },
            FsItem::Dir { path, entries } => {
                let ce = items_event_count(entries@, 0);
                lemma_items_count(entries@, 0);
                lemma_scan_bounds(entries@, 0, b);
                let sub = scan_sp(entries@, 0, b);
                if sub.2 {
                    lemma_scan_bounds(s, i + 1, b - sub.1 - 1);
                    if b >= ce {
                        lemma_scan_complete(entries@, 0, b);
                    } else if b >= 0 {
                        lemma_scan_partial(entries@, 0, b);
                    }
                }
            },
        }
    }
}

/// The sum of the file events' sizes across a concatenation splits at the
/// seam.
proof fn lemma_files_prefix(evs1: Seq<EventV>, evs2: Seq<EventV>, n: int)
    requires
        0 <= n <= evs1.len(),
        n <= evs2.len(),
        forall|j: int| 0 <= j < n ==> evs1[j] == evs2[j],
    ensures
        files_total(evs1, n) == files_total(evs2, n),
    decreases n,
{
    if n > 0 {
        lemma_files_prefix(evs1, evs2, n - 1);
    }
}

proof fn lemma_files_concat(a: Seq<EventV>, b: Seq<EventV>, k: int)
    requires
        0 <= k <= b.len(),
    ensures
        files_total(a + b, a.len() + k) == files_total(a + b, a.len() as int) + files_total(
            b,
            k,
        ),
    decreases k,
{
    if k > 0 {
        lemma_files_concat(a, b, k - 1);
        assert((a + b)[a.len() + k - 1] == b[k - 1]);
    }
}

/// Aggregation correctness: the exact subtree size of an entry equals the sum
/// of the raw sizes of the file events its scan emits — directory events add
/// nothing of their own.
pub proof fn lemma_item_total_is_file_sum(parent: Seq<char>, it: FsItem)
    ensures
        item_total(it) == files_total(item_events(parent, it), item_events(parent, it).len() as int),
    decreases it, 0int,
{
    match it {
        FsItem::File { .. } => {
            let evs = item_events(parent, it);
            assert(files_total(evs, 0) == 0);
            assert(evs.len() == 1);
        },
        FsItem::Dir { path, entries } => {
            let inner = items_events(path@, entries@, 0);
            let evs = item_events(parent, it);
            lemma_items_total_is_file_sum(path@, entries@, 0);
            lemma_items_events_len(path@, entries@, 0);
            lemma_items_count(entries@, 0);
            assert(evs == inner.push(
                EventV { parent, path: path@, is_dir: true, size: items_total(entries@, 0) },
            ));
            assert(evs[evs.len() - 1].is_dir);
            assert(files_total(evs, evs.len() as int) == files_total(evs, evs.len() - 1));
            lemma_files_prefix(evs, inner, inner.len() as int);
        },
    }
}

/// Scans the modeled entries of the directory `parent`, from index `from`
/// on, reporting each entry to `w` exactly once, a directory only after all
/// of its descendants. Returns this level's accumulated total and whether the
/// scan ran to completion; the worker ends up having folded exactly the
/// recorded prefix of the event stream.
pub fn scan_entries(w: &mut Worker, parent: &String, items: &Vec<FsItem>, from: usize) -> (r: (
    u64,
    bool,
))
    requires
        from <= items@.len(),
        old(w).total + items_total(items@, from as int) <= u64::MAX,
        old(w).events_seen + items_event_count(items@, from as int) <= u64::MAX,
        old(w).dir_events + items_event_count(items@, from as int) <= u64::MAX,
    ensures
        ({
            let cnt = items_event_count(items@, from as int);
            let evs = items_events(parent@, items@, from as int);
            let sp = scan_sp(items@, from as int, worker_budget(*old(w), cnt));
            &&& r.0 as int == sp.0
            &&& r.1 == sp.2
            &&& wv(*final(w)) == wfold(wv(*old(w)), evs, sp.1)
            &&& final(w).limit == old(w).limit
        }),
    decreases items@, items@.len() - from,
{
    let ghost s = items@;
    let ghost i0 = from as int;
    let ghost w0 = *w;
    let ghost cnt = items_event_count(s, i0);
    let ghost b = worker_budget(w0, cnt);
    let ghost evs = items_events(parent@, s, i0);
    proof {
        lemma_items_count(s, i0);
        lemma_items_events_len(parent@, s, i0);
        lemma_items_total_nonneg(s, i0);
    }
    if from == items.len() {
        return (0u64, true);
    }
    proof {
        lemma_items_count(s, i0 + 1);
        lemma_items_total_nonneg(s, i0 + 1);
        lemma_items_events_len(parent@, s, i0 + 1);
    }
    let ghost a_evs = item_events(parent@, s[i0]);
    let ghost b_evs = items_events(parent@, s, i0 + 1);
    match &items[from] {
        FsItem::File { path, size } => {
            let ghost fev = EventV {
                parent: parent@,
                path: path@,
                is_dir: false,
                size: *size as int,
            };
            let ev = ScanEvent {
                parent: parent.clone(),
                path: path.clone(),
                is_dir: false,
                size: *size,
            };
            proof {
                assert(s[i0] == FsItem::File { path: (*path), size: (*size) });
                assert(ev_v(ev) == fev);
                assert(a_evs == seq![fev]);
            }
            let cont = w.observe(&ev);
            if !cont {
                proof {
                    assert(b == 0);
                    assert(wfold(wv(w0), evs, 0) == wv(w0));
                }
                return (*size, false);
            }
            let ghost w1 = *w;
            proof {
                assert(b >= 1);
                assert(worker_budget(w1, items_event_count(s, i0 + 1)) == b - 1);
            }
            let rest = scan_entries(w, parent, items, from + 1);
            proof {
                let sp1 = scan_sp(s, i0 + 1, b - 1);
                lemma_scan_bounds(s, i0 + 1, b - 1);
                assert(evs == a_evs + b_evs);
                lemma_wfold_concat(wv(w0), a_evs, b_evs, sp1.1);
                assert((a_evs + b_evs)[0] == fev);
                assert(wfold(wv(w0), a_evs + b_evs, 0) == wv(w0));
                assert(wfold(wv(w0), a_evs + b_evs, 1) == wstep(wv(w0), fev));
                lemma_wfold_prefix(wv(w1), evs, b_evs, 0);
                assert(wfold(wv(w1), b_evs, sp1.1) == wfold(wfold(wv(w0), evs, 1), b_evs, sp1.1));
            }
            (*size + rest.0, rest.1)
        },
        FsItem::Dir { path, entries } => {
            let ghost ce = items_event_count(entries@, 0);
            let ghost inner_evs = items_events(path@, entries@, 0);
            let ghost dev = EventV {
                parent: parent@,
                path: path@,
                is_dir: true,
                size: items_total(entries@, 0),
            };
            proof {
                assert(s[i0] == FsItem::Dir { path: (*path), entries: (*entries) });
                lemma_items_count(entries@, 0);
                lemma_items_total_nonneg(entries@, 0);
                lemma_items_events_len(path@, entries@, 0);
                assert(a_evs == inner_evs.push(dev));
                assert(item_total(s[i0]) == items_total(entries@, 0));
                assert(item_event_count(s[i0]) == ce + 1);
            }
            let sub = scan_entries(w, path, entries, 0);
            let ghost w1 = *w;
            let ghost b_sub = worker_budget(w0, ce);
            let ghost sp_sub = scan_sp(entries@, 0, b_sub);
            proof {
                lemma_scan_bounds(entries@, 0, b_sub);
                lemma_scan_bounds(entries@, 0, b);
                match w0.limit {
                    Option::Some(l) => {
                        assert(b_sub == b);
                    },
                    Option::None => {
                        lemma_scan_complete(entries@, 0, b);
                        lemma_scan_complete(entries@, 0, ce);
                    },
                }
                assert(scan_sp(entries@, 0, b) == sp_sub);
                assert(wv(w1) == wfold(wv(w0), inner_evs, sp_sub.1));
                assert forall|j: int| 0 <= j < sp_sub.1 implies evs[j] == inner_evs[j] by {
                    assert(evs[j] == a_evs[j]);
                    assert(a_evs[j] == inner_evs.push(dev)[j]);
                }
                lemma_wfold_prefix(wv(w0), evs, inner_evs, sp_sub.1);
            }
            if !sub.1 {
                return (0u64, false);
            }
            proof {
                if b_sub >= ce {
                    lemma_scan_complete(entries@, 0, b_sub);
                } else {
                    lemma_scan_partial(entries@, 0, b_sub);
                }
                assert(sub.0 as int == items_total(entries@, 0));
                assert(sp_sub.1 == ce);
                lemma_wfold_total(wv(w0), inner_evs, ce);
                lemma_items_total_is_file_sum(path@, entries@, 0);
                assert(wv(w1).total == wv(w0).total + items_total(entries@, 0));
            }
            let ev = ScanEvent {
                parent: parent.clone(),
                path: path.clone(),
                is_dir: true,
                size: sub.0,
            };
            proof {
                assert(ev_v(ev) == dev);
            }
            let cont = w.observe(&ev);
            if !cont {
                proof {
                    assert(cancel_now(w1));
                    assert(b - ce <= 0);
                    assert(wfold(wv(w0), evs, ce) == wv(w1));
                }
                return (sub.0, false);
            }
            let ghost w2 = *w;
            proof {
                assert(wv(w2) == wstep(wv(w1), dev));
                assert(b - ce >= 1);
                assert(worker_budget(w2, items_event_count(s, i0 + 1)) == b - ce - 1);
                assert(evs == a_evs + b_evs);
                assert((a_evs + b_evs)[ce] == dev);
                lemma_wfold_prefix(wv(w0), a_evs + b_evs, inner_evs, ce);
                assert(wfold(wv(w0), a_evs + b_evs, ce + 1) == wstep(
                    wfold(wv(w0), a_evs + b_evs, ce),
                    dev,
                ));
                assert(wfold(wv(w0), evs, ce + 1) == wv(w2));
            }
            let rest = scan_entries(w, parent, items, from + 1);
            proof {
                let sp1 = scan_sp(s, i0 + 1, b - ce - 1);
                lemma_scan_bounds(s, i0 + 1, b - ce - 1);
                assert(a_evs.len() == ce + 1);
                lemma_wfold_concat(wv(w0), a_evs, b_evs, sp1.1);
                assert(wfold(wv(w2), b_evs, sp1.1) == wfold(
                    wfold(wv(w0), evs, ce + 1),
                    b_evs,
                    sp1.1,
                ));
            }
            (sub.0 + rest.0, rest.1)
        },
    }
}

/// Aggregation correctness, end to end: a scan that completes reports, at
/// every level, exactly the sum of the raw sizes of the file events it
/// emitted — the uncapped total, untouched by the materializer's cutoffs.
pub proof fn lemma_aggregation_correct(parent: Seq<char>, s: Seq<FsItem>, b: int)
    requires
        b >= items_event_count(s, 0),
    ensures
        scan_sp(s, 0, b).2,
        scan_sp(s, 0, b).0 == files_total(
            items_events(parent, s, 0),
            items_events(parent, s, 0).len() as int,
        ),
{
    lemma_scan_complete(s, 0, b);
    lemma_items_total_is_file_sum(parent, s, 0);
}

/// Cancellation keeps the books straight: a scan whose worker observes
/// cancellation after `k` of the events records exactly the first `k`, does
/// not complete, and the grand total grows by exactly the sizes of the file
/// events among those `k` — and by nothing after.
pub proof fn lemma_cancel_after_k(v: WorkerV, parent: Seq<char>, s: Seq<FsItem>, k: int)
    requires
        0 <= k < items_event_count(s, 0),
    ensures
        !scan_sp(s, 0, k).2,
        scan_sp(s, 0, k).1 == k,
        wfold(v, items_events(parent, s, 0), k).total == v.total + files_total(
            items_events(parent, s, 0),
            k,
        ),
{
    lemma_scan_partial(s, 0, k);
    lemma_wfold_total(v, items_events(parent, s, 0), k);
}

/// Aggregation correctness over a range of subtrees.
pub proof fn lemma_items_total_is_file_sum(parent: Seq<char>, s: Seq<FsItem>, i: int)
    ensures
        items_total(s, i) == files_total(
            items_events(parent, s, i),
            items_events(parent, s, i).len() as int,
        ),
    decreases s, s.len() - i,
{
    if 0 <= i < s.len() {
        let a = item_events(parent, s[i]);
        let b = items_events(parent, s, i + 1);
        lemma_item_total_is_file_sum(parent, s[i]);
        lemma_items_total_is_file_sum(parent, s, i + 1);
        lemma_files_concat(a, b, b.len() as int);
        lemma_files_prefix(a + b, a, a.len() as int);
    }
}

} // verus!
