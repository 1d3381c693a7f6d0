//! The navigation stack: the chain of entries drilled into, top last. The
//! displayed root is the top of the stack, or the scan root when nothing has
//! been drilled into.

use vstd::prelude::*;
use crate::entry::Entry;

verus! {

/// The drill-down chain. The last element of `stack` is the front: the entry
/// whose ring is currently displayed.
pub struct NavStack {
    pub stack: Vec<Entry>,
}

impl NavStack {
    /// An empty chain: the scan root is displayed.
    pub fn new() -> (n: NavStack)
        ensures
            n.stack@.len() == 0,
    {
        NavStack { stack: Vec::new() }
    }

    /// Descends into `entry`.
    pub fn expand(&mut self, entry: Entry)
        ensures
            final(self).stack@ == old(self).stack@.push(entry),
    {
        self.stack.push(entry);
    }

    /// Ascends one level; at the scan root nothing changes.
    pub fn collapse(&mut self)
        ensures
            old(self).stack@.len() == 0 ==> final(self).stack@ == old(self).stack@,
            old(self).stack@.len() > 0 ==> final(self).stack@ == old(self).stack@.drop_last(),
    {
        let popped = self.stack.pop();
        proof {
            if old(self).stack@.len() > 0 {
                assert(self.stack@ =~= old(self).stack@.drop_last());
            } else {
                assert(self.stack@ =~= old(self).stack@);
            }
        }
    }

    /// Empties the chain, as when a new scan starts.
    pub fn clear(&mut self)
        ensures
            final(self).stack@.len() == 0,
    {
        self.stack.clear();
    }

    /// The entry whose ring is displayed: the front of the chain, or the scan
    /// root when the chain is empty.
    pub fn current_root<'a>(&'a self, scan_root: &'a Entry) -> (e: &'a Entry)
        ensures
            self.stack@.len() == 0 ==> e == scan_root,
            self.stack@.len() > 0 ==> *e == self.stack@.last(),
    {
        if self.stack.len() > 0 {
            &self.stack[self.stack.len() - 1]
        } else {
            scan_root
        }
    }
}

} // verus!
