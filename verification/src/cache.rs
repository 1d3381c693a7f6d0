//! The scan cache: a mapping from a directory path to the ordered list of its
//! immediate children, in discovery order. It is grown one record at a time
//! while a scan runs and read by the materializer. Its mathematical view is a
//! `Map` from the parent path to the sequence of recorded children.

use vstd::prelude::*;

verus! {

broadcast use vstd::std_specs::vec::group_vec_axioms;

/// One recorded child of a directory: its path, the size reported for it by
/// the scanner (aggregate for directories), and whether it is a directory.
pub struct ChildRec {
    pub path: String,
    pub size: u64,
    pub is_dir: bool,
}

/// Mathematical image of a recorded child.
pub ghost struct RecV {
    pub path: Seq<char>,
    pub size: int,
    pub is_dir: bool,
}

/// The view of one record.
pub open spec fn rec_v(r: ChildRec) -> RecV {
    RecV { path: r.path@, size: r.size as int, is_dir: r.is_dir }
}

/// The view of a list of records.
pub open spec fn recs_v(s: Seq<ChildRec>) -> Seq<RecV>
    decreases s.len(),
{
    if s.len() == 0 {
        Seq::empty()
    } else {
        recs_v(s.drop_last()).push(rec_v(s.last()))
    }
}

/// The view of a list keeps its length and views each record in place.
pub proof fn lemma_recs_v(s: Seq<ChildRec>)
    ensures
        recs_v(s).len() == s.len(),
        forall|i: int| 0 <= i < s.len() ==> recs_v(s)[i] == rec_v(#[trigger] s[i]),
    decreases s.len(),
{
    if s.len() > 0 {
        lemma_recs_v(s.drop_last());
        assert forall|i: int| 0 <= i < s.len() implies recs_v(s)[i] == rec_v(#[trigger] s[i]) by {
            if i < s.len() - 1 {
                assert(recs_v(s)[i] == recs_v(s.drop_last())[i]);
                assert(s.drop_last()[i] == s[i]);
            }
        }
    }
}

/// The children recorded under `k`, or the empty sequence when `k` has none.
pub open spec fn list_of(m: Map<Seq<char>, Seq<RecV>>, k: Seq<char>) -> Seq<RecV> {
    if m.dom().contains(k) {
        m[k]
    } else {
        Seq::empty()
    }
}

/// The map described by an association list; a later pair with the same key
/// supersedes an earlier one.
pub open spec fn assoc_map(s: Seq<(String, Vec<ChildRec>)>) -> Map<Seq<char>, Seq<RecV>>
    decreases s.len(),
{
    if s.len() == 0 {
        Map::empty()
    } else {
        assoc_map(s.drop_last()).insert(s.last().0@, recs_v(s.last().1@))
    }
}

/// The cache itself. One pair per directory path; the pair for a path is
/// extended in place as its children are discovered.
pub struct ScanCache {
    entries: Vec<(String, Vec<ChildRec>)>,
}

impl View for ScanCache {
    type V = Map<Seq<char>, Seq<RecV>>;

    closed spec fn view(&self) -> Map<Seq<char>, Seq<RecV>> {
        assoc_map(self.entries@)
    }
}

/// When no pair of `s` carries key `k`, the map has no binding for `k`.
proof fn lemma_assoc_absent(s: Seq<(String, Vec<ChildRec>)>, k: Seq<char>)
    requires
        forall|j: int| 0 <= j < s.len() ==> (#[trigger] s[j]).0@ != k,
    ensures
        !assoc_map(s).dom().contains(k),
    decreases s.len(),
{
    if s.len() > 0 {
        lemma_assoc_absent(s.drop_last(), k);
    }
}

/// The binding for `k` is the list of the last pair that carries `k`.
proof fn lemma_assoc_found(s: Seq<(String, Vec<ChildRec>)>, k: Seq<char>, i: int)
    requires
        0 <= i < s.len(),
        s[i].0@ == k,
        forall|j: int| i < j < s.len() ==> (#[trigger] s[j]).0@ != k,
    ensures
        assoc_map(s).dom().contains(k),
        assoc_map(s)[k] == recs_v(s[i].1@),
    decreases s.len(),
{
    if i == s.len() - 1 {
    } else {
        lemma_assoc_found(s.drop_last(), k, i);
    }
}

/// Replacing the list of the last pair that carries `k` updates the map at
/// `k` and nothing else.
proof fn lemma_assoc_update(
    s: Seq<(String, Vec<ChildRec>)>,
    k: Seq<char>,
    i: int,
    p: (String, Vec<ChildRec>),
)
    requires
        0 <= i < s.len(),
        s[i].0@ == k,
        p.0@ == k,
        forall|j: int| i < j < s.len() ==> (#[trigger] s[j]).0@ != k,
    ensures
        assoc_map(s.update(i, p)) == assoc_map(s).insert(k, recs_v(p.1@)),
    decreases s.len(),
{
    let su = s.update(i, p);
    if i == s.len() - 1 {
        assert(su.drop_last() =~= s.drop_last());
        assert(assoc_map(su) =~= assoc_map(s).insert(k, recs_v(p.1@)));
    } else {
        assert(su.drop_last() =~= s.drop_last().update(i, p));
        lemma_assoc_update(s.drop_last(), k, i, p);
        assert(su.last() == s.last());
        assert(assoc_map(su) == assoc_map(s.drop_last().update(i, p)).insert(
            su.last().0@,
            recs_v(su.last().1@),
        ));
        assert(assoc_map(su) =~= assoc_map(s).insert(k, recs_v(p.1@)));
    }
}

impl ScanCache {
    /// An empty cache, as made when a new scan pass starts.
    pub fn new() -> (c: ScanCache)
        ensures
            c@ == Map::<Seq<char>, Seq<RecV>>::empty(),
    {
        ScanCache { entries: Vec::new() }
    }

    /// The recorded children of `path`, if any scan event named it as a
    /// parent.
    pub fn get(&self, path: &String) -> (r: Option<&Vec<ChildRec>>)
        ensures
            match r {
                Some(v) => self@.dom().contains(path@) && recs_v(v@) == self@[path@],
                None => !self@.dom().contains(path@),
            },
    {
        let n = self.entries.len();
        let mut i: usize = n;
        while i > 0
            invariant
                0 <= i <= n,
                n == self.entries@.len(),
                forall|j: int| i <= j < n ==> (#[trigger] self.entries@[j]).0@ != path@,
            decreases i,
        {
            i = i - 1;
            if self.entries[i].0 == *path {
                proof {
                    lemma_assoc_found(self.entries@, path@, i as int);
                }
                return Some(&self.entries[i].1);
            }
        }
        proof {
            lemma_assoc_absent(self.entries@, path@);
        }
        None
    }

    /// Appends one discovered child under `parent`, keeping every record
    /// already there and the discovery order.
    pub fn record(&mut self, parent: &String, rec: ChildRec)
        ensures
            final(self)@ == old(self)@.insert(
                parent@,
                list_of(old(self)@, parent@).push(rec_v(rec)),
            ),
    {
        let ghost s0 = self.entries@;
        let ghost recv = rec_v(rec);
        let n = self.entries.len();
        let mut hit: usize = n;
        let mut i: usize = n;
        while i > 0
            invariant
                0 <= i <= n,
                hit <= n,
                n == self.entries@.len(),
                self.entries@ == s0,
                hit == n ==> forall|j: int| i <= j < n ==> (#[trigger] s0[j]).0@ != parent@,
                hit < n ==> s0[hit as int].0@ == parent@ && forall|j: int|
                    hit < j < n ==> (#[trigger] s0[j]).0@ != parent@,
            decreases i,
        {
            i = i - 1;
            if hit == n && self.entries[i].0 == *parent {
                hit = i;
            }
        }
        if hit < n {
            proof {
                lemma_assoc_found(s0, parent@, hit as int);
            }
            let ghost rec0 = rec;
            let mut pair = self.entries.remove(hit);
            pair.1.push(rec);
            let ghost pairv = pair;
            self.entries.insert(hit, pair);
            proof {
                assert(self.entries@ =~= s0.update(hit as int, pairv));
                assert(pairv.1@ == s0[hit as int].1@.push(rec0));
                assert(pairv.1@.drop_last() =~= s0[hit as int].1@);
                assert(pairv.1@.last() == rec0);
                assert(recs_v(pairv.1@) == recs_v(pairv.1@.drop_last()).push(
                    rec_v(pairv.1@.last()),
                ));
                assert(recs_v(pairv.1@) == recs_v(s0[hit as int].1@).push(recv));
                lemma_assoc_update(s0, parent@, hit as int, pairv);
            }
            return ;
        }
        proof {
            lemma_assoc_absent(s0, parent@);
        }
        let ghost rec0 = rec;
        let mut lst: Vec<ChildRec> = Vec::new();
        lst.push(rec);
        let ghost lstv = lst@;
        self.entries.push((parent.clone(), lst));
        proof {
            assert(self.entries@.drop_last() =~= s0);
            assert(lstv.drop_last() =~= Seq::<ChildRec>::empty());
            assert(recs_v(Seq::<ChildRec>::empty()) == Seq::<RecV>::empty());
            assert(lstv.last() == rec0);
            assert(recs_v(lstv) == Seq::<RecV>::empty().push(recv));
            assert(list_of(old(self)@, parent@) == Seq::<RecV>::empty());
        }
    }
}

} // verus!

