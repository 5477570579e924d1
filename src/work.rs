use atomic::{Atomic, Ordering};
use vstd::prelude::*;

use crate::frontier::aligned;

verus! {

#[verifier::external_type_specification]
#[verifier::external_body]
#[verifier::reject_recursive_types(T)]
pub struct ExAtomic<T>(Atomic<T>);

/// Relies on `atomic::Atomic::new`: a fresh counter holding `v`.
#[verifier::external_body]
fn new_counter(v: u128) -> (r: Atomic<u128>) {
    Atomic::new(v)
}

/// Relies on `atomic::Atomic::<u128>::fetch_add`: adds one to the counter in a
/// single atomic step and returns the value it held before. Other threads may
/// take values in between, so nothing is known of the value returned.
#[verifier::external_body]
fn take_ticket(counter: &Atomic<u128>) -> (r: u128) {
    counter.fetch_add(1, Ordering::Relaxed)
}

/// The start of batch number `index`, if that whole batch is representable.
pub open spec fn claim_at(start: u128, batch: u128, index: u128) -> Option<u128> {
    if start + index * batch + batch <= u128::MAX {
        Some((start + index * batch) as u128)
    } else {
        None
    }
}

/// Hands out batch starts to any number of threads: each call takes the next
/// ticket from one shared atomic counter, so no two calls receive the same
/// batch and no call ever waits.
pub struct WorkSource {
    tickets: Atomic<u128>,
    start: u128,
    batch: u128,
}

/// The start of batch number `index` counted from `start`, or `None` when that
/// batch would run past `u128::MAX`.
pub fn batch_start(start: u128, batch: u128, index: u128) -> (r: Option<u128>)
    ensures
        r == claim_at(start, batch, index),
        r matches Some(v) ==> batch > 0 ==> aligned(start, batch, v) && v + batch <= u128::MAX,
{
    proof {
        if start + index * batch + batch <= u128::MAX && batch > 0 {
            vstd::arithmetic::div_mod::lemma_mod_multiples_basic(index as int, batch as int);
            assert((start + index * batch) as u128 - start == index * batch);
        }
    }
    match index.checked_mul(batch) {
        None => {
            proof {
                assert(index * batch > u128::MAX);
                assert(start + index * batch + batch > u128::MAX) by (nonlinear_arith)
                    requires
                        index * batch > u128::MAX,
                ;
            }
            None
        },
        Some(offset) => match start.checked_add(offset) {
            None => None,
            Some(v) => match v.checked_add(batch) {
                None => None,
                Some(_) => Some(v),
            },
        },
    }
}

impl WorkSource {
    /// The first batch start handed out.
    pub closed spec fn start(&self) -> u128 {
        self.start
    }

    /// The batch size.
    pub closed spec fn batch(&self) -> u128 {
        self.batch
    }

    /// A source whose first batch starts at `start_boundary`.
    pub fn new(start_boundary: u128, batch_size: u128) -> (r: WorkSource)
        requires
            batch_size > 0,
        ensures
            r.start() == start_boundary,
            r.batch() == batch_size,
    {
        WorkSource { tickets: new_counter(0), start: start_boundary, batch: batch_size }
    }

    /// Claims the next unclaimed batch and returns its start, or `None` once
    /// the batches run past `u128::MAX`. Safe to call from many threads at once.
    pub fn claim_batch(&self) -> (r: Option<u128>)
        requires
            self.batch() > 0,
        ensures
            exists|index: u128| r == claim_at(self.start(), self.batch(), index),
            r matches Some(v) ==> aligned(self.start(), self.batch(), v) && v + self.batch()
                <= u128::MAX,
    {
        let index = take_ticket(&self.tickets);
        batch_start(self.start, self.batch, index)
    }
}

} // verus!
