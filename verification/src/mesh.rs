//! What was last computed about the links to the other nodes, and of which membership.

use vstd::prelude::*;

verus! {

/// What a membership is recognised by: the number of members and the epoch of its ownership.
/// `None` is a broker on its own, which has no membership.
pub type MeshFingerprint = Option<(usize, u64)>;

/// A remembered answer to "is every node linked?". An answer that was computed for another
/// membership than the present one reads as "no".
#[derive(Debug)]
pub struct MeshCache {
    pub whole: bool,
    pub settled: bool,
    pub stamped: MeshFingerprint,
}

impl DeepView for MeshCache {
    type V = MeshCache;

    open spec fn deep_view(&self) -> MeshCache {
        *self
    }
}

impl MeshCache {
    /// Whether every member has a link.
    pub open spec fn says_whole(self, live: MeshFingerprint) -> bool {
        live is None || (self.stamped == live && self.whole)
    }

    /// Whether every member has a link and has told its interest.
    pub open spec fn says_settled(self, live: MeshFingerprint) -> bool {
        live is None || (self.stamped == live && self.settled)
    }

    /// A cache that remembers nothing.
    pub fn new() -> (r: Self)
        ensures
            r == (MeshCache { whole: false, settled: false, stamped: None }),
    {
        MeshCache { whole: false, settled: false, stamped: None }
    }

    /// Remembers an answer and the membership it was computed for.
    pub fn store(&mut self, fp: MeshFingerprint, whole: bool, settled: bool)
        ensures
            *final(self) == (MeshCache { whole, settled, stamped: fp }),
    {
        self.stamped = fp;
        self.whole = whole;
        self.settled = settled;
    }

    /// See [`MeshCache::says_whole`].
    pub fn whole(&self, live: MeshFingerprint) -> (r: bool)
        ensures
            r == self.says_whole(live),
    {
        match live {
            None => true,
            Some((n, e)) => match self.stamped {
                Some((m, f)) => n == m && e == f && self.whole,
                None => false,
            },
        }
    }

    /// See [`MeshCache::says_settled`].
    pub fn settled(&self, live: MeshFingerprint) -> (r: bool)
        ensures
            r == self.says_settled(live),
    {
        match live {
            None => true,
            Some((n, e)) => match self.stamped {
                Some((m, f)) => n == m && e == f && self.settled,
                None => false,
            },
        }
    }
}

impl Default for MeshCache {
    fn default() -> (r: Self)
        ensures
            r == (MeshCache { whole: false, settled: false, stamped: None }),
    {
        MeshCache::new()
    }
}

/// A remembered "yes" never outlives the membership it was computed for.
pub proof fn law_moved_membership_is_not_whole(cache: MeshCache, live: MeshFingerprint)
    requires
        live is Some,
        cache.stamped != live,
    ensures
        !cache.says_whole(live),
        !cache.says_settled(live),
{
}

} // verus!
