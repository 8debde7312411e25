//! References: the numbers by which a reply is matched to its request.
//!
//! A reference is given out once. The counter never goes back, not even when
//! the connection is made anew: a new session only forgets the references of
//! the one before, so that a late reply to one of them finds nothing to
//! match.

use vstd::prelude::*;

verus! {

/// The counter, and where the present session began.
pub struct RefsView {
    pub next: nat,
    pub session_start: nat,
}

impl RefsView {
    /// Whether `r` was given out in the present session.
    pub open spec fn is_live(self, r: nat) -> bool {
        self.session_start <= r < self.next
    }

    /// The references given out in the present session.
    pub open spec fn issued(self) -> Set<nat> {
        Set::new(|r: nat| self.is_live(r))
    }

    /// The allocator after one more reference was given out.
    pub open spec fn allocated(self) -> RefsView {
        RefsView { next: self.next + 1, ..self }
    }

    /// The allocator after `n` more references were given out.
    pub open spec fn allocated_many(self, n: nat) -> RefsView {
        RefsView { next: self.next + n, ..self }
    }

    /// The allocator at the start of a new session.
    pub open spec fn renewed(self) -> RefsView {
        RefsView { session_start: self.next, ..self }
    }
}

/// The references of one session are all different: the `i`-th and the
/// `j`-th allocation after any point give different numbers, and both are
/// live afterwards.
pub proof fn lemma_refs_unique(start: RefsView, i: nat, j: nat, n: nat)
    requires
        start.session_start <= start.next,
        i < j < n,
    ensures
        start.allocated_many(i).next != start.allocated_many(j).next,
        start.allocated_many(n).is_live(start.allocated_many(i).next),
        start.allocated_many(n).is_live(start.allocated_many(j).next),
        !start.allocated_many(i).is_live(start.allocated_many(i).next),
{
}

/// A reference of an earlier session is never live again, however many
/// references the new session gives out.
pub proof fn lemma_stale_ref_dead(before: RefsView, r: nat, n: nat)
    requires
        before.is_live(r),
    ensures
        !before.renewed().allocated_many(n).is_live(r),
        before.renewed().issued() == Set::<nat>::empty(),
{
    assert(before.renewed().issued() =~= Set::<nat>::empty());
}

/// Gives out references.
#[derive(Clone, Copy, Debug, PartialEq, Eq)]
pub struct RefAllocator {
    next: u64,
    session_start: u64,
}

impl View for RefAllocator {
    type V = RefsView;

    closed spec fn view(&self) -> RefsView {
        RefsView { next: self.next as nat, session_start: self.session_start as nat }
    }
}

impl RefAllocator {
    /// Whether the session began at or before the counter.
    pub closed spec fn wf(&self) -> bool {
        self.session_start <= self.next
    }

    /// An allocator whose first reference is 1.
    pub fn new() -> (out: RefAllocator)
        ensures
            out.wf(),
            out@ == (RefsView { next: 1, session_start: 1 }),
    {
        RefAllocator { next: 1, session_start: 1 }
    }

    /// The counter fits the numbers that a reference can be.
    pub proof fn lemma_bounded(&self)
        ensures
            self@.next <= u64::MAX,
            self@.session_start <= u64::MAX,
    {
    }

    /// The reference that the next allocation gives.
    pub fn peek(&self) -> (r: u64)
        ensures
            r as nat == self@.next,
    {
        self.next
    }

    /// Gives out a reference that was never given out before, or `None`
    /// when the counter has reached the largest number.
    pub fn allocate(&mut self) -> (r: Option<u64>)
        requires
            old(self).wf(),
        ensures
            final(self).wf(),
            match r {
                Some(x) => {
                    &&& x as nat == old(self)@.next
                    &&& old(self)@.next < u64::MAX
                    &&& final(self)@ == old(self)@.allocated()
                    &&& !old(self)@.is_live(x as nat)
                    &&& final(self)@.is_live(x as nat)
                },
                None => old(self)@.next == u64::MAX && *final(self) == *old(self),
            },
    {
        if self.next == u64::MAX {
            None
        } else {
            let r = self.next;
            self.next = self.next + 1;
            Some(r)
        }
    }

    /// Begins a new session: no reference given out so far is live any more.
    pub fn new_session(&mut self)
        requires
            old(self).wf(),
        ensures
            final(self).wf(),
            final(self)@ == old(self)@.renewed(),
    {
        self.session_start = self.next;
    }

    /// Whether `r` was given out in the present session.
    pub fn is_live(&self, r: u64) -> (live: bool)
        ensures
            live == self@.is_live(r as nat),
    {
        self.session_start <= r && r < self.next
    }
}

} // verus!
