//! The connection registry: a stable-identity table from an opaque handle
//! to a connection. Handles are issued monotonically and never reused, so
//! a readiness event that still names a just-removed connection resolves
//! to nothing instead of addressing a stranger.

use vstd::prelude::*;
use crate::conn::{ConnView, Connection, Interest};

verus! {

/// The map that an entry list denotes.
pub open spec fn handle_map(s: Seq<(u64, Connection)>) -> Map<u64, ConnView>
    decreases s.len(),
{
    if s.len() == 0 {
        Map::empty()
    } else {
        handle_map(s.drop_last()).insert(s.last().0, s.last().1@)
    }
}

/// A handle is in the denoted map exactly when some entry carries it.
proof fn lemma_handle_map_domain(s: Seq<(u64, Connection)>, h: u64)
    ensures
        handle_map(s).contains_key(h) <==> exists|i: int| 0 <= i < s.len() && s[i].0 == h,
    decreases s.len(),
{
    if s.len() > 0 {
        lemma_handle_map_domain(s.drop_last(), h);
        if handle_map(s).contains_key(h) {
            if s.last().0 == h {
                assert(s[s.len() - 1].0 == h);
            } else {
                let i = choose|i: int| 0 <= i < s.drop_last().len() && s.drop_last()[i].0 == h;
                assert(s[i].0 == h);
            }
        }
        if exists|i: int| 0 <= i < s.len() && s[i].0 == h {
            let i = choose|i: int| 0 <= i < s.len() && s[i].0 == h;
            if i < s.len() - 1 {
                assert(s.drop_last()[i].0 == h);
            }
        }
    }
}

/// With unique handles, the denoted map sends each entry's handle to its
/// connection's state.
proof fn lemma_handle_map_value(s: Seq<(u64, Connection)>, i: int)
    requires
        0 <= i < s.len(),
        forall|a: int, b: int| 0 <= a < b < s.len() ==> s[a].0 != s[b].0,
    ensures
        handle_map(s).contains_key(s[i].0),
        handle_map(s)[s[i].0] == s[i].1@,
    decreases s.len(),
{
    if i == s.len() - 1 {
    } else {
        assert(forall|a: int, b: int|
            0 <= a < b < s.drop_last().len() ==> s.drop_last()[a].0 != s.drop_last()[b].0);
        lemma_handle_map_value(s.drop_last(), i);
        assert(s[i].0 != s.last().0);
    }
}

/// Removing the entry that carries a handle denotes removing it from the
/// map.
proof fn lemma_handle_map_remove(s: Seq<(u64, Connection)>, i: int)
    requires
        0 <= i < s.len(),
        forall|a: int, b: int| 0 <= a < b < s.len() ==> s[a].0 != s[b].0,
    ensures
        handle_map(s.remove(i)) == handle_map(s).remove(s[i].0),
    decreases s.len(),
{
    if i == s.len() - 1 {
        assert(s.remove(i) =~= s.drop_last());
        lemma_handle_map_domain(s.drop_last(), s[i].0);
        assert(forall|j: int| 0 <= j < s.drop_last().len() ==> s.drop_last()[j].0 != s[i].0);
        assert(!handle_map(s.drop_last()).contains_key(s[i].0));
        assert(handle_map(s.drop_last()) =~= handle_map(s).remove(s[i].0));
    } else {
        assert(forall|a: int, b: int|
            0 <= a < b < s.drop_last().len() ==> s.drop_last()[a].0 != s.drop_last()[b].0);
        lemma_handle_map_remove(s.drop_last(), i);
        assert(s.remove(i).drop_last() =~= s.drop_last().remove(i));
        assert(s.remove(i).last() == s.last());
        assert(s[i].0 != s.last().0);
        assert(handle_map(s.drop_last()).remove(s[i].0).insert(s.last().0, s.last().1@)
            =~= handle_map(s).remove(s[i].0));
    }
}

/// The connection registry.
pub struct Registry {
    entries: Vec<(u64, Connection)>,
    next_handle: u64,
}

impl View for Registry {
    type V = Map<u64, ConnView>;

    closed spec fn view(&self) -> Map<u64, ConnView> {
        handle_map(self.entries@)
    }
}

impl Registry {
    /// The next handle to be issued; every registered handle is below it,
    /// so no handle is ever issued twice.
    pub closed spec fn next(self) -> u64 {
        self.next_handle
    }

    /// Unique handles, each below the issue counter, and every registered
    /// connection well-formed.
    pub closed spec fn wf_entries(self) -> bool {
        &&& forall|a: int, b: int|
            0 <= a < b < self.entries@.len() ==> self.entries@[a].0 != self.entries@[b].0
        &&& forall|i: int| 0 <= i < self.entries@.len() ==> self.entries@[i].0 < self.next_handle
        &&& forall|i: int| 0 <= i < self.entries@.len() ==> (#[trigger] self.entries@[i].1)@.wf()
    }

    pub open spec fn wf(self) -> bool {
        self.wf_entries()
    }

    /// An empty registry.
    pub fn new() -> (r: Registry)
        ensures
            r.wf(),
            r@ == Map::<u64, ConnView>::empty(),
            r.next() == 0,
    {
        Registry { entries: Vec::new(), next_handle: 0 }
    }

    /// Whether a fresh handle can still be issued.
    pub fn can_issue(&self) -> (r: bool)
        ensures
            r == (self.next() < u64::MAX),
    {
        self.next_handle < u64::MAX
    }

    /// Registers a connection under a fresh handle, never issued before.
    pub fn insert(&mut self, conn: Connection) -> (h: u64)
        requires
            old(self).wf(),
            old(self).next() < u64::MAX,
            conn@.wf(),
        ensures
            final(self).wf(),
            h == old(self).next(),
            final(self).next() == h + 1,
            !old(self)@.contains_key(h),
            final(self)@ == old(self)@.insert(h, conn@),
    {
        let h = self.next_handle;
        proof {
            lemma_handle_map_domain(self.entries@, h);
        }
        self.entries.push((h, conn));
        self.next_handle = h + 1;
        assert(self.entries@.drop_last() =~= old(self).entries@);
        h
    }

    /// Whether a handle is currently registered.
    pub fn contains(&self, h: u64) -> (r: bool)
        requires
            self.wf(),
        ensures
            r == self@.contains_key(h),
    {
        let mut i: usize = 0;
        while i < self.entries.len()
            invariant
                self.wf(),
                0 <= i <= self.entries@.len(),
                forall|j: int| 0 <= j < i ==> self.entries@[j].0 != h,
            decreases self.entries@.len() - i,
        {
            if self.entries[i].0 == h {
                proof {
                    lemma_handle_map_value(self.entries@, i as int);
                }
                return true;
            }
            i = i + 1;
        }
        proof {
            lemma_handle_map_domain(self.entries@, h);
        }
        false
    }

    /// The readiness interest of the connection under a handle.
    pub fn interest_of(&self, h: u64) -> (r: Option<Interest>)
        requires
            self.wf(),
        ensures
            match r {
                Some(it) => self@.contains_key(h) && it == self@[h].interest,
                None => !self@.contains_key(h),
            },
    {
        let mut i: usize = 0;
        while i < self.entries.len()
            invariant
                self.wf(),
                0 <= i <= self.entries@.len(),
                forall|j: int| 0 <= j < i ==> self.entries@[j].0 != h,
            decreases self.entries@.len() - i,
        {
            if self.entries[i].0 == h {
                proof {
                    lemma_handle_map_value(self.entries@, i as int);
                }
                return Some(self.entries[i].1.interest());
            }
            i = i + 1;
        }
        proof {
            lemma_handle_map_domain(self.entries@, h);
        }
        None
    }

    /// The queued outbound bytes of the connection under a handle.
    pub fn pending_of(&self, h: u64) -> (r: Option<Vec<u8>>)
        requires
            self.wf(),
        ensures
            match r {
                Some(v) => self@.contains_key(h) && v@ == self@[h].outbound,
                None => !self@.contains_key(h),
            },
    {
        let mut i: usize = 0;
        while i < self.entries.len()
            invariant
                self.wf(),
                0 <= i <= self.entries@.len(),
                forall|j: int| 0 <= j < i ==> self.entries@[j].0 != h,
            decreases self.entries@.len() - i,
        {
            if self.entries[i].0 == h {
                proof {
                    lemma_handle_map_value(self.entries@, i as int);
                }
                return Some(self.entries[i].1.pending_output());
            }
            i = i + 1;
        }
        proof {
            lemma_handle_map_domain(self.entries@, h);
        }
        None
    }

    /// Removes and returns the connection registered under a handle; an
    /// unknown or already-removed handle yields `None`, so stale events
    /// are ignored safely.
    pub fn remove(&mut self, h: u64) -> (r: Option<Connection>)
        requires
            old(self).wf(),
        ensures
            final(self).wf(),
            final(self).next() == old(self).next(),
            match r {
                Some(c) => {
                    &&& old(self)@.contains_key(h)
                    &&& c@ == old(self)@[h]
                    &&& c@.wf()
                    &&& h < old(self).next()
                    &&& final(self)@ == old(self)@.remove(h)
                },
                None => {
                    &&& !old(self)@.contains_key(h)
                    &&& final(self)@ == old(self)@
                },
            },
    {
        let mut i: usize = 0;
        while i < self.entries.len()
            invariant
                old(self).wf(),
                self.entries@ == old(self).entries@,
                self.next_handle == old(self).next_handle,
                0 <= i <= self.entries@.len(),
                forall|j: int| 0 <= j < i ==> self.entries@[j].0 != h,
            decreases self.entries@.len() - i,
        {
            if self.entries[i].0 == h {
                proof {
                    lemma_handle_map_value(self.entries@, i as int);
                    lemma_handle_map_remove(self.entries@, i as int);
                }
                let (_, c) = self.entries.remove(i);
                return Some(c);
            }
            i = i + 1;
        }
        proof {
            lemma_handle_map_domain(self.entries@, h);
        }
        None
    }

    /// Re-registers a connection under the handle it was taken from with
    /// `remove`.
    pub(crate) fn restore(&mut self, h: u64, conn: Connection)
        requires
            old(self).wf(),
            !old(self)@.contains_key(h),
            h < old(self).next(),
            conn@.wf(),
        ensures
            final(self).wf(),
            final(self).next() == old(self).next(),
            final(self)@ == old(self)@.insert(h, conn@),
    {
        proof {
            lemma_handle_map_domain(self.entries@, h);
        }
        self.entries.push((h, conn));
        assert(self.entries@.drop_last() =~= old(self).entries@);
    }
}

} // verus!
