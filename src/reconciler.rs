use vstd::prelude::*;

use crate::frontier::{
    absorb, aligned, frontier, initial, report_result, reported, wf_model, FrontierModel,
    ReportError,
};
use crate::pending::{PendingStore, Strategy};

verus! {

/// Turns batch completions, reported in any order, into the highest batch
/// start below which every batch has completed.
///
/// It is driven by a single consumer: it owns its counters and its pending
/// store, and nothing in it is shared.
pub struct Reconciler {
    start: u128,
    batch: u128,
    next: u128,
    pending: PendingStore,
}

impl View for Reconciler {
    type V = FrontierModel;

    closed spec fn view(&self) -> FrontierModel {
        FrontierModel {
            start: self.start,
            batch: self.batch,
            next: self.next,
            pending: self.pending@,
        }
    }
}

impl Reconciler {
    /// The abstract state is well formed and the store holds it.
    pub closed spec fn wf(&self) -> bool {
        &&& wf_model(self@)
        &&& self.pending.wf()
    }

    /// The pending store's strategy.
    pub closed spec fn strategy(&self) -> Strategy {
        self.pending.strategy()
    }

    /// A reconciler with nothing proven yet: the first batch it waits for
    /// starts at `start_boundary`. `slots` sizes a fixed slot array (the
    /// worker count); the other strategies ignore it.
    pub fn new(strategy: Strategy, start_boundary: u128, batch_size: u128, slots: usize) -> (r:
        Reconciler)
        requires
            batch_size > 0,
        ensures
            r.wf(),
            r@ == initial(start_boundary, batch_size),
            r.strategy() == strategy,
    {
        let pending = PendingStore::new(strategy, slots);
        let r = Reconciler { start: start_boundary, batch: batch_size, next: start_boundary, pending };
        proof {
            vstd::arithmetic::div_mod::lemma_small_mod(0, batch_size as nat);
            assert(r@.pending =~= Set::<u128>::empty());
        }
        r
    }

    /// Records that the batch starting at `s` completed. When it is the batch
    /// right after the frontier, the frontier moves onto it and then over every
    /// pending batch that follows without a gap; when it lies further on, it
    /// waits in the pending store. A stray, repeated or already proven batch is
    /// refused and leaves the state as it was.
    pub fn report(&mut self, s: u128) -> (r: Result<(), ReportError>)
        requires
            old(self).wf(),
        ensures
            final(self).wf(),
            r == report_result(old(self)@, s),
            final(self)@ == reported(old(self)@, s),
            frontier(final(self)@) >= frontier(old(self)@),
            final(self).strategy() == old(self).strategy(),
    {
        proof {
            crate::frontier::lemma_reported_wf(self@, s);
        }
        if s < self.start || (s - self.start) % self.batch != 0 {
            return Err(ReportError::Misaligned);
        }
        if s > u128::MAX - self.batch {
            return Err(ReportError::Overflow);
        }
        if s < self.next {
            return Err(ReportError::AlreadyProven);
        }
        if s != self.next {
            if self.pending.contains(s) {
                return Err(ReportError::AlreadyPending);
            }
            self.pending.insert(s);
            return Ok(());
        }
        let ghost before = self@;
        let ghost target = absorb(FrontierModel { next: (s + self.batch) as u128, ..before });
        self.next = s + self.batch;
        proof {
            assert forall|p: u128| #[trigger] self.pending@.contains(p) implies p >= self.next by {
                if p < self.next {
                    crate::frontier::lemma_aligned_gap(self.start, self.batch, s, p);
                }
            }
            crate::frontier::lemma_aligned_next(self.start, self.batch, s);
        }
        let mut more = self.pending.try_remove(self.next);
        proof {
            if more {
                assert(self.pending@.insert(self.next) =~= before.pending);
            } else {
                assert(self.pending@ =~= before.pending);
                assert(absorb(self@) == self@);
            }
        }
        while more
            invariant
                self.pending.wf(),
                self.start == before.start,
                self.batch == before.batch,
                self.batch > 0,
                self.pending@.finite(),
                aligned(self.start, self.batch, self.next),
                !self.pending@.contains(self.next),
                forall|p: u128| #[trigger]
                    self.pending@.contains(p) ==> aligned(self.start, self.batch, p) && p
                        >= self.next && p + self.batch <= u128::MAX,
                more ==> self.next + self.batch <= u128::MAX,
                more ==> absorb(
                    FrontierModel { pending: self.pending@.insert(self.next), ..self@ },
                ) == target,
                !more ==> absorb(self@) == target,
                self.pending.strategy() == old(self).strategy(),
            decreases self.pending@.len() + if more {
                1int
            } else {
                0int
            },
        {
            let ghost prev = self@;
            proof {
                let m = FrontierModel { pending: self.pending@.insert(self.next), ..self@ };
                assert(m.pending.remove(m.next) =~= self.pending@);
                crate::frontier::lemma_aligned_next(self.start, self.batch, self.next);
            }
            self.next = self.next + self.batch;
            proof {
                assert forall|p: u128| #[trigger] self.pending@.contains(p) implies p
                    >= self.next by {
                    if p < self.next {
                        crate::frontier::lemma_aligned_gap(
                            self.start,
                            self.batch,
                            prev.next,
                            p,
                        );
                    }
                }
            }
            more = self.pending.try_remove(self.next);
            proof {
                if more {
                    assert(self.pending@.insert(self.next) =~= prev.pending);
                } else {
                    assert(self.pending@ =~= prev.pending);
                    assert(absorb(self@) == self@);
                }
            }
        }
        Ok(())
    }

    /// The highest batch start below which every batch has completed, or
    /// `None` while the first batch is still missing.
    pub fn highest_contiguous_proven(&self) -> (r: Option<u128>)
        requires
            self.wf(),
        ensures
            r == (if self@.next == self@.start {
                None
            } else {
                Some((self@.next - self@.batch) as u128)
            }),
            r matches Some(v) ==> v == frontier(self@),
    {
        if self.next == self.start {
            None
        } else {
            proof {
                if self.next < self.start + self.batch {
                    crate::frontier::lemma_start_aligned(self.start, self.batch);
                    crate::frontier::lemma_aligned_gap(self.start, self.batch, self.start, self.next);
                }
            }
            Some(self.next - self.batch)
        }
    }

    /// The start of the first batch not yet proven.
    pub fn next_expected(&self) -> (r: u128)
        ensures
            r == self@.next,
    {
        self.next
    }

    /// How many batches wait behind a gap.
    pub fn pending_size(&self) -> (r: usize)
        requires
            self.wf(),
        ensures
            r == self@.pending.len(),
    {
        self.pending.size()
    }

    /// Whether the batch starting at `s` waits behind a gap.
    pub fn is_pending(&self, s: u128) -> (r: bool)
        requires
            self.wf(),
        ensures
            r == self@.pending.contains(s),
    {
        self.pending.contains(s)
    }

    /// The first batch start.
    pub fn start_boundary(&self) -> (r: u128)
        ensures
            r == self@.start,
    {
        self.start
    }

    /// The batch size.
    pub fn batch_size(&self) -> (r: u128)
        ensures
            r == self@.batch,
    {
        self.batch
    }
}

} // verus!
