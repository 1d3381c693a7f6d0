//! The worker's scan-side state: it folds scan events into the cache, keeps
//! the running grand total of raw file sizes, counts events for the progress
//! throttle, and decides when cancellation is observed. A front end drives it
//! with events from a real filesystem walk; the model scanner drives it over
//! an in-memory tree.

use vstd::prelude::*;
use crate::cache::{ScanCache, ChildRec, RecV, list_of};

verus! {

/// A progress snapshot is taken after every this many recorded directory
/// events.
pub const NOTIFY_INTERVAL: u64 = 300;

/// One scan event: `path` was found under `parent` with the given size
/// (aggregate of the subtree for a directory, raw length for a file).
pub struct ScanEvent {
    pub parent: String,
    pub path: String,
    pub is_dir: bool,
    pub size: u64,
}

/// Mathematical image of a scan event. A directory's size is the exact
/// subtree sum, which the model does not cap at the machine word.
pub ghost struct EventV {
    pub parent: Seq<char>,
    pub path: Seq<char>,
    pub is_dir: bool,
    pub size: int,
}

/// The view of one event.
pub open spec fn ev_v(e: ScanEvent) -> EventV {
    EventV { parent: e.parent@, path: e.path@, is_dir: e.is_dir, size: e.size as int }
}

/// The cache record an event leaves behind.
pub open spec fn ev_rec(ev: EventV) -> RecV {
    RecV { path: ev.path, size: ev.size, is_dir: ev.is_dir }
}

/// Mathematical image of the worker state an event fold acts on.
pub ghost struct WorkerV {
    pub cache: Map<Seq<char>, Seq<RecV>>,
    pub total: int,
    pub events_seen: int,
    pub dir_events: int,
}

/// What recording one event does: the event's record is appended under its
/// parent, a file's size enters the grand total, and the counters advance.
pub open spec fn wstep(v: WorkerV, ev: EventV) -> WorkerV {
    WorkerV {
        cache: v.cache.insert(ev.parent, list_of(v.cache, ev.parent).push(ev_rec(ev))),
        total: v.total + (if ev.is_dir {
            0
        } else {
            ev.size
        }),
        events_seen: v.events_seen + 1,
        dir_events: v.dir_events + (if ev.is_dir {
            1int
        } else {
            0
        }),
    }
}

/// The fold of the first `n` events of `evs` over `v`.
pub open spec fn wfold(v: WorkerV, evs: Seq<EventV>, n: int) -> WorkerV
    decreases n,
{
    if n <= 0 {
        v
    } else {
        wstep(wfold(v, evs, n - 1), evs[n - 1])
    }
}

/// The fold reads only the first `n` events.
pub proof fn lemma_wfold_prefix(v: WorkerV, evs1: Seq<EventV>, evs2: Seq<EventV>, n: int)
    requires
        0 <= n <= evs1.len(),
        n <= evs2.len(),
        forall|j: int| 0 <= j < n ==> evs1[j] == evs2[j],
    ensures
        wfold(v, evs1, n) == wfold(v, evs2, n),
    decreases n,
{
    if n > 0 {
        lemma_wfold_prefix(v, evs1, evs2, n - 1);
    }
}

/// Folding across a concatenation is folding the parts in turn.
pub proof fn lemma_wfold_concat(v: WorkerV, a: Seq<EventV>, b: Seq<EventV>, k: int)
    requires
        0 <= k <= b.len(),
    ensures
        wfold(v, a + b, a.len() + k) == wfold(wfold(v, a + b, a.len() as int), b, k),
    decreases k,
{
    if k > 0 {
        lemma_wfold_concat(v, a, b, k - 1);
        assert((a + b)[a.len() + k - 1] == b[k - 1]);
    }
}

/// Sum of the sizes of the file events among the first `n` of `evs`.
pub open spec fn files_total(evs: Seq<EventV>, n: int) -> int
    decreases n,
{
    if n <= 0 {
        0
    } else {
        files_total(evs, n - 1) + (if evs[n - 1].is_dir {
            0
        } else {
            evs[n - 1].size
        })
    }
}

/// The grand total after a fold grows by exactly the recorded files' sizes,
/// and the event counter by the number of recorded events.
pub proof fn lemma_wfold_total(v: WorkerV, evs: Seq<EventV>, n: int)
    requires
        0 <= n,
    ensures
        wfold(v, evs, n).total == v.total + files_total(evs, n),
        wfold(v, evs, n).events_seen == v.events_seen + n,
        v.dir_events <= wfold(v, evs, n).dir_events <= v.dir_events + n,
    decreases n,
{
    if n > 0 {
        lemma_wfold_total(v, evs, n - 1);
    }
}

/// The worker state. `limit` is the cancellation point: once `events_seen`
/// reaches it, the next event observes the cancellation and is not recorded.
/// `None` means no cancellation is ever signaled.
pub struct Worker {
    pub cache: ScanCache,
    pub total: u64,
    pub events_seen: u64,
    pub dir_events: u64,
    pub limit: Option<u64>,
}

/// The view of a worker's foldable state.
pub open spec fn wv(w: Worker) -> WorkerV {
    WorkerV {
        cache: w.cache@,
        total: w.total as int,
        events_seen: w.events_seen as int,
        dir_events: w.dir_events as int,
    }
}

/// The cancellation signal is observed now.
pub open spec fn cancel_now(w: Worker) -> bool {
    match w.limit {
        Option::Some(l) => w.events_seen >= l,
        Option::None => false,
    }
}

/// How many more events `w` will record before observing cancellation, where
/// `cnt` events are still to come. With no cancellation signaled the whole
/// remainder is within budget.
pub open spec fn worker_budget(w: Worker, cnt: int) -> int {
    match w.limit {
        Option::Some(l) => if l >= w.events_seen {
            l - w.events_seen
        } else {
            0
        },
        Option::None => cnt,
    }
}

impl Worker {
    /// A fresh worker for one scan pass, with an empty cache and, when
    /// `limit` is set, a cancellation signaled after that many events.
    pub fn new(limit: Option<u64>) -> (w: Worker)
        ensures
            wv(w).cache == Map::<Seq<char>, Seq<RecV>>::empty(),
            wv(w).total == 0,
            wv(w).events_seen == 0,
            wv(w).dir_events == 0,
            w.limit == limit,
    {
        Worker { cache: ScanCache::new(), total: 0, events_seen: 0, dir_events: 0, limit }
    }

    /// Observes one scan event. The cancellation signal is checked first: if
    /// it is set the event is not recorded and the result asks the scan to
    /// stop. Otherwise the event is folded into the state.
    pub fn observe(&mut self, ev: &ScanEvent) -> (cont: bool)
        requires
            !ev.is_dir ==> old(self).total + ev.size <= u64::MAX,
            old(self).events_seen < u64::MAX,
            old(self).dir_events < u64::MAX,
        ensures
            cont == !cancel_now(*old(self)),
            !cont ==> *final(self) == *old(self),
            cont ==> wv(*final(self)) == wstep(wv(*old(self)), ev_v(*ev)) && final(self).limit
                == old(self).limit,
    {
        match self.limit {
            Option::Some(l) => {
                if self.events_seen >= l {
                    return false;
                }
            },
            Option::None => {},
        }
        let rec = ChildRec { path: ev.path.clone(), size: ev.size, is_dir: ev.is_dir };
        self.cache.record(&ev.parent, rec);
        if !ev.is_dir {
            self.total = self.total + ev.size;
        } else {
            self.dir_events = self.dir_events + 1;
        }
        self.events_seen = self.events_seen + 1;
        true
    }

    /// Whether a progress snapshot is due: one is taken after every
    /// `NOTIFY_INTERVAL`th recorded directory event.
    pub fn should_publish(&self) -> (b: bool)
        ensures
            b == (self.dir_events > 0 && self.dir_events % NOTIFY_INTERVAL == 0),
    {
        self.dir_events > 0 && self.dir_events % NOTIFY_INTERVAL == 0
    }
}

} // verus!
