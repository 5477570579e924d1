use vstd::prelude::*;

verus! {

/// Why a completion report was turned down. Every one of them is a broken
/// protocol (a double send, a stray value, a counter about to wrap): the
/// consumer is expected to stop rather than carry on.
#[derive(Clone, Copy, Debug, PartialEq, Eq, Structural)]
pub enum ReportError {
    /// The value is below the start boundary or not a whole number of
    /// batches away from it.
    Misaligned,
    /// The batch ends past the largest value the counter can hold.
    Overflow,
    /// The batch lies at or below the proven frontier: it was already absorbed.
    AlreadyProven,
    /// The batch was already reported and is still waiting behind a gap.
    AlreadyPending,
}

/// The abstract state of a reconciler.
///
/// `next` is the start of the first batch that is not yet proven, that is the
/// proven frontier plus one batch; it equals `start` while nothing is proven.
/// `pending` holds the batches that completed early, behind a gap.
pub struct FrontierModel {
    pub start: u128,
    pub batch: u128,
    pub next: u128,
    pub pending: Set<u128>,
}

/// `x` is the start of some batch: at or above `start`, a whole number of
/// batches away from it.
pub open spec fn aligned(start: u128, batch: u128, x: u128) -> bool {
    start <= x && (x - start) % (batch as int) == 0
}

/// The highest proven batch start (one batch below the boundary while nothing
/// is proven).
pub open spec fn frontier(m: FrontierModel) -> int {
    m.next - m.batch
}

/// The state in which nothing has been reported yet.
pub open spec fn initial(start: u128, batch: u128) -> FrontierModel {
    FrontierModel { start, batch, next: start, pending: Set::empty() }
}

/// The shape every reachable state has: the frontier sits on a batch start,
/// pending batches lie strictly beyond it, and no batch end passes `u128::MAX`.
pub open spec fn wf_model(m: FrontierModel) -> bool {
    &&& m.batch > 0
    &&& aligned(m.start, m.batch, m.next)
    &&& m.pending.finite()
    &&& forall|p: u128| #[trigger]
        m.pending.contains(p) ==> aligned(m.start, m.batch, p) && p > m.next && p + m.batch
            <= u128::MAX
}

/// Folds into the frontier every pending batch that now follows it directly.
pub open spec fn absorb(m: FrontierModel) -> FrontierModel
    decreases m.pending.len(),
    when m.pending.finite()
{
    if m.pending.contains(m.next) {
        absorb(
            FrontierModel {
                next: (m.next + m.batch) as u128,
                pending: m.pending.remove(m.next),
                ..m
            },
        )
    } else {
        m
    }
}

/// Whether a report of the batch at `s` is accepted, and if not, why.
pub open spec fn report_result(m: FrontierModel, s: u128) -> Result<(), ReportError> {
    if !aligned(m.start, m.batch, s) {
        Err(ReportError::Misaligned)
    } else if s + m.batch > u128::MAX {
        Err(ReportError::Overflow)
    } else if s < m.next {
        Err(ReportError::AlreadyProven)
    } else if m.pending.contains(s) {
        Err(ReportError::AlreadyPending)
    } else {
        Ok(())
    }
}

/// The state after a report of the batch at `s`. A refused report leaves the
/// state as it was.
pub open spec fn reported(m: FrontierModel, s: u128) -> FrontierModel {
    if report_result(m, s).is_err() {
        m
    } else if s == m.next {
        absorb(FrontierModel { next: (s + m.batch) as u128, ..m })
    } else {
        FrontierModel { pending: m.pending.insert(s), ..m }
    }
}

/// The state after the reports in `events`, in order.
pub open spec fn run(m: FrontierModel, events: Seq<u128>) -> FrontierModel
    decreases events.len(),
{
    if events.len() == 0 {
        m
    } else {
        reported(run(m, events.drop_last()), events.last())
    }
}

/// Two batch starts less than a batch apart are the same.
pub proof fn lemma_aligned_gap(start: u128, batch: u128, a: u128, b: u128)
    requires
        batch > 0,
        aligned(start, batch, a),
        aligned(start, batch, b),
        a <= b < a + batch,
    ensures
        a == b,
{
    let da = (a - start) as int;
    let db = (b - start) as int;
    let bt = batch as int;
    vstd::arithmetic::div_mod::lemma_fundamental_div_mod(da, bt);
    vstd::arithmetic::div_mod::lemma_fundamental_div_mod(db, bt);
    let qa = da / bt;
    let qb = db / bt;
    assert(bt * qb - bt * qa == db - da);
    assert(0 <= bt * (qb - qa) < bt) by (nonlinear_arith)
        requires
            bt * qb - bt * qa == db - da,
            0 <= db - da < bt,
    ;
    assert(qb - qa == 0) by (nonlinear_arith)
        requires
            0 <= bt * (qb - qa) < bt,
            bt > 0,
    ;
}

/// The start boundary is itself a batch start.
pub proof fn lemma_start_aligned(start: u128, batch: u128)
    requires
        batch > 0,
    ensures
        aligned(start, batch, start),
{
    vstd::arithmetic::div_mod::lemma_small_mod(0, batch as nat);
}

/// The batch after a batch start is a batch start too.
pub proof fn lemma_aligned_next(start: u128, batch: u128, a: u128)
    requires
        batch > 0,
        aligned(start, batch, a),
        a + batch <= u128::MAX,
    ensures
        aligned(start, batch, (a + batch) as u128),
{
    let da = (a - start) as int;
    let bt = batch as int;
    vstd::arithmetic::div_mod::lemma_mod_add_multiples_vanish(da, bt);
}

/// Absorbing keeps a state well formed, never lowers the frontier, and only
/// takes batches out of the pending set.
proof fn lemma_absorb_wf(m: FrontierModel)
    requires
        m.batch > 0,
        aligned(m.start, m.batch, m.next),
        m.pending.finite(),
        forall|p: u128| #[trigger]
            m.pending.contains(p) ==> aligned(m.start, m.batch, p) && p >= m.next && p + m.batch
                <= u128::MAX,
    ensures
        wf_model(absorb(m)),
        absorb(m).next >= m.next,
        absorb(m).start == m.start,
        absorb(m).batch == m.batch,
        absorb(m).pending.subset_of(m.pending),
    decreases m.pending.len(),
{
    if m.pending.contains(m.next) {
        let m2 = FrontierModel {
            next: (m.next + m.batch) as u128,
            pending: m.pending.remove(m.next),
            ..m
        };
        lemma_aligned_next(m.start, m.batch, m.next);
        assert forall|p: u128| #[trigger] m2.pending.contains(p) implies aligned(
            m2.start,
            m2.batch,
            p,
        ) && p >= m2.next && p + m2.batch <= u128::MAX by {
            if p < m2.next {
                lemma_aligned_gap(m.start, m.batch, m.next, p);
            }
        }
        lemma_absorb_wf(m2);
    }
}

/// A report keeps a state well formed and never lowers the frontier.
pub proof fn lemma_reported_wf(m: FrontierModel, s: u128)
    requires
        wf_model(m),
    ensures
        wf_model(reported(m, s)),
        reported(m, s).next >= m.next,
        reported(m, s).start == m.start,
        reported(m, s).batch == m.batch,
{
    if report_result(m, s).is_ok() {
        if s == m.next {
            let m2 = FrontierModel { next: (s + m.batch) as u128, ..m };
            lemma_aligned_next(m.start, m.batch, s);
            assert forall|p: u128| #[trigger] m2.pending.contains(p) implies p >= m2.next by {
                if p < m2.next {
                    lemma_aligned_gap(m.start, m.batch, s, p);
                }
            }
            lemma_absorb_wf(m2);
        }
    }
}

/// Once the frontier has reached a value, no later report, nor any sequence of
/// reports, moves it back.
pub proof fn lemma_frontier_never_decreases(m: FrontierModel, events: Seq<u128>)
    requires
        wf_model(m),
    ensures
        wf_model(run(m, events)),
        frontier(run(m, events)) >= frontier(m),
        run(m, events).start == m.start,
        run(m, events).batch == m.batch,
    decreases events.len(),
{
    if events.len() > 0 {
        lemma_frontier_never_decreases(m, events.drop_last());
        lemma_reported_wf(run(m, events.drop_last()), events.last());
    }
}

/// `m` is the state reached after exactly the batches in `done` completed,
/// each once.
pub open spec fn reached_from(m: FrontierModel, done: Set<u128>) -> bool {
    &&& wf_model(m)
    &&& forall|x: u128| #[trigger]
        done.contains(x) ==> aligned(m.start, m.batch, x) && x + m.batch <= u128::MAX
    &&& forall|x: u128| #[trigger]
        aligned(m.start, m.batch, x) && x < m.next ==> done.contains(x)
    &&& !done.contains(m.next)
    &&& forall|x: u128| #[trigger] m.pending.contains(x) <==> done.contains(x) && x > m.next
}

proof fn lemma_absorb_reached(m: FrontierModel, done: Set<u128>)
    requires
        m.batch > 0,
        aligned(m.start, m.batch, m.next),
        m.pending.finite(),
        forall|x: u128| #[trigger]
            done.contains(x) ==> aligned(m.start, m.batch, x) && x + m.batch <= u128::MAX,
        forall|x: u128| #[trigger]
            aligned(m.start, m.batch, x) && x < m.next ==> done.contains(x),
        forall|x: u128| #[trigger] m.pending.contains(x) <==> done.contains(x) && x >= m.next,
    ensures
        reached_from(absorb(m), done),
        absorb(m).start == m.start,
        absorb(m).batch == m.batch,
    decreases m.pending.len(),
{
    lemma_absorb_wf(m);
    if m.pending.contains(m.next) {
        let m2 = FrontierModel {
            next: (m.next + m.batch) as u128,
            pending: m.pending.remove(m.next),
            ..m
        };
        lemma_aligned_next(m.start, m.batch, m.next);
        assert forall|x: u128| #[trigger]
            aligned(m2.start, m2.batch, x) && x < m2.next implies done.contains(x) by {
            if x >= m.next {
                lemma_aligned_gap(m.start, m.batch, m.next, x);
            }
        }
        assert forall|x: u128| #[trigger]
            m2.pending.contains(x) <==> done.contains(x) && x >= m2.next by {
            if done.contains(x) && m.next < x < m2.next {
                lemma_aligned_gap(m.start, m.batch, m.next, x);
            }
        }
        lemma_absorb_reached(m2, done);
    }
}

/// A first report of a batch start is accepted and leads to the state of the
/// completed set with that batch added.
proof fn lemma_reported_reached(m: FrontierModel, done: Set<u128>, s: u128)
    requires
        reached_from(m, done),
        aligned(m.start, m.batch, s),
        s + m.batch <= u128::MAX,
        !done.contains(s),
    ensures
        report_result(m, s) == Ok::<(), ReportError>(()),
        reached_from(reported(m, s), done.insert(s)),
        reported(m, s).start == m.start,
        reported(m, s).batch == m.batch,
{
    let d2 = done.insert(s);
    if s == m.next {
        let m2 = FrontierModel { next: (s + m.batch) as u128, ..m };
        lemma_aligned_next(m.start, m.batch, s);
        assert forall|x: u128| #[trigger]
            aligned(m2.start, m2.batch, x) && x < m2.next implies d2.contains(x) by {
            if x >= s {
                lemma_aligned_gap(m.start, m.batch, s, x);
            }
        }
        assert forall|x: u128| #[trigger]
            m2.pending.contains(x) <==> d2.contains(x) && x >= m2.next by {
            if d2.contains(x) && s < x < m2.next {
                lemma_aligned_gap(m.start, m.batch, s, x);
            }
        }
        lemma_absorb_reached(m2, d2);
    } else {
        let m2 = reported(m, s);
        assert forall|x: u128| #[trigger]
            m2.pending.contains(x) <==> d2.contains(x) && x > m2.next by {}
    }
}

proof fn lemma_run_reached(start: u128, batch: u128, events: Seq<u128>)
    requires
        batch > 0,
        events.no_duplicates(),
        forall|i: int|
            0 <= i < events.len() ==> aligned(start, batch, #[trigger] events[i]) && events[i]
                + batch <= u128::MAX,
    ensures
        reached_from(run(initial(start, batch), events), events.to_set()),
        run(initial(start, batch), events).start == start,
        run(initial(start, batch), events).batch == batch,
    decreases events.len(),
{
    if events.len() == 0 {
        assert(events.to_set() =~= Set::empty());
        lemma_start_aligned(start, batch);
    } else {
        let prefix = events.drop_last();
        let last = events.last();
        assert forall|i: int| 0 <= i < prefix.len() implies aligned(
            start,
            batch,
            #[trigger] prefix[i],
        ) && prefix[i] + batch <= u128::MAX by {
            assert(prefix[i] == events[i]);
        }
        lemma_run_reached(start, batch, prefix);
        assert(!prefix.to_set().contains(last)) by {
            if prefix.contains(last) {
                let j = choose|j: int| 0 <= j < prefix.len() && prefix[j] == last;
                assert(events[j] == events[events.len() - 1]);
            }
        }
        assert(prefix.to_set().insert(last) =~= events.to_set()) by {
            assert forall|x: u128| events.contains(x) implies #[trigger] prefix.to_set().insert(
                last,
            ).contains(x) by {
                let j = choose|j: int| 0 <= j < events.len() && events[j] == x;
                if j < events.len() - 1 {
                    assert(prefix[j] == x);
                }
            }
            assert forall|x: u128| #[trigger] prefix.contains(x) implies events.contains(x) by {
                let j = choose|j: int| 0 <= j < prefix.len() && prefix[j] == x;
                assert(events[j] == x);
            }
        }
        assert(aligned(start, batch, events[events.len() - 1]));
        lemma_reported_reached(run(initial(start, batch), prefix), prefix.to_set(), last);
    }
}

/// Reporting every batch from `start` up to and including `last`, each once
/// and in any order, leaves the frontier at `last` with nothing pending.
pub proof fn lemma_any_order_reaches_last(
    start: u128,
    batch: u128,
    last: u128,
    events: Seq<u128>,
)
    requires
        batch > 0,
        aligned(start, batch, last),
        last + batch <= u128::MAX,
        events.no_duplicates(),
        forall|x: u128| #[trigger] events.contains(x) <==> aligned(start, batch, x) && x <= last,
    ensures
        frontier(run(initial(start, batch), events)) == last,
        run(initial(start, batch), events).pending.is_empty(),
        forall|i: int|
            0 <= i < events.len() ==> report_result(
                run(initial(start, batch), events.take(i)),
                #[trigger] events[i],
            ) == Ok::<(), ReportError>(()),
{
    assert forall|i: int| 0 <= i < events.len() implies aligned(
        start,
        batch,
        #[trigger] events[i],
    ) && events[i] + batch <= u128::MAX by {
        assert(events.contains(events[i]));
    }
    lemma_run_reached(start, batch, events);
    let m = run(initial(start, batch), events);
    let done = events.to_set();
    if m.next <= last {
        assert(done.contains(m.next));
    }
    if m.next < last + batch {
        lemma_aligned_gap(start, batch, last, m.next);
    }
    if m.next > last + batch {
        lemma_aligned_next(start, batch, last);
        assert(done.contains((last + batch) as u128));
    }
    if !m.pending.is_empty() {
        let p = m.pending.choose();
        assert(m.pending.contains(p));
    }
    assert forall|i: int| 0 <= i < events.len() implies report_result(
        run(initial(start, batch), events.take(i)),
        #[trigger] events[i],
    ) == Ok::<(), ReportError>(()) by {
        let pre = events.take(i);
        assert(pre.no_duplicates());
        assert forall|j: int| 0 <= j < pre.len() implies aligned(
            start,
            batch,
            #[trigger] pre[j],
        ) && pre[j] + batch <= u128::MAX by {
            assert(pre[j] == events[j]);
        }
        lemma_run_reached(start, batch, pre);
        assert(!pre.to_set().contains(events[i])) by {
            if pre.contains(events[i]) {
                let j = choose|j: int| 0 <= j < pre.len() && pre[j] == events[i];
                assert(events[j] == events[i]);
            }
        }
        lemma_reported_reached(run(initial(start, batch), pre), pre.to_set(), events[i]);
    }
}

/// The very first batch, reported first, is proven at once and leaves nothing
/// pending.
pub proof fn lemma_first_batch_advances(start: u128, batch: u128)
    requires
        batch > 0,
        start + batch <= u128::MAX,
    ensures
        report_result(initial(start, batch), start) == Ok::<(), ReportError>(()),
        frontier(reported(initial(start, batch), start)) == start,
        reported(initial(start, batch), start).pending.is_empty(),
{
    lemma_start_aligned(start, batch);
    let m2 = FrontierModel { next: (start + batch) as u128, ..initial(start, batch) };
    assert(!m2.pending.contains(m2.next));
    assert(absorb(m2) == m2);
}

/// The pending set never holds more batches than are in flight: those claimed
/// below `claimed_end` and not yet proven, the first of which (the frontier's
/// successor) is never pending.
pub proof fn lemma_pending_within_in_flight(m: FrontierModel, claimed_end: u128)
    requires
        wf_model(m),
        aligned(m.start, m.batch, claimed_end),
        m.next <= claimed_end,
        forall|p: u128| #[trigger] m.pending.contains(p) ==> p < claimed_end,
    ensures
        claimed_end == m.next ==> m.pending.is_empty(),
        claimed_end > m.next ==> (m.pending.len() + 1) * m.batch <= claimed_end - m.next,
{
    let b = m.batch as int;
    let qn = (m.next - m.start) as int / b;
    let qc = (claimed_end - m.start) as int / b;
    vstd::arithmetic::div_mod::lemma_fundamental_div_mod((m.next - m.start) as int, b);
    vstd::arithmetic::div_mod::lemma_fundamental_div_mod((claimed_end - m.start) as int, b);
    let f = |x: u128| (x - m.start) as int / b;
    let image = m.pending.map(f);
    assert forall|x: u128| #[trigger] m.pending.contains(x) implies qn < f(x) < qc by {
        vstd::arithmetic::div_mod::lemma_fundamental_div_mod((x - m.start) as int, b);
        let qx = f(x);
        assert(b * qn < b * qx < b * qc);
        assert(qn < qx < qc) by (nonlinear_arith)
            requires
                b * qn < b * qx < b * qc,
                b > 0,
        ;
    }
    assert(vstd::relations::injective_on(f, m.pending)) by {
        assert forall|x: u128, y: u128|
            m.pending.contains(x) && m.pending.contains(y) && #[trigger] f(x) == #[trigger] f(
                y,
            ) implies x == y by {
            vstd::arithmetic::div_mod::lemma_fundamental_div_mod((x - m.start) as int, b);
            vstd::arithmetic::div_mod::lemma_fundamental_div_mod((y - m.start) as int, b);
        }
    }
    vstd::set_lib::lemma_map_size(m.pending, image, f);
    assert(image.subset_of(vstd::set_lib::set_int_range(qn + 1, qc))) by {
        assert forall|i: int| #[trigger] image.contains(i) implies qn + 1 <= i < qc by {
            let x = choose|x: u128| m.pending.contains(x) && f(x) == i;
        }
    }
    if claimed_end == m.next {
        if !m.pending.is_empty() {
            let p = m.pending.choose();
            assert(m.pending.contains(p));
        }
    } else {
        assert(qn < qc) by (nonlinear_arith)
            requires
                b * qn < b * qc,
                b > 0,
        ;
        vstd::set_lib::lemma_int_range(qn + 1, qc);
        vstd::set_lib::lemma_len_subset(image, vstd::set_lib::set_int_range(qn + 1, qc));
        let len = m.pending.len() as int;
        assert((len + 1) * b <= b * qc - b * qn) by (nonlinear_arith)
            requires
                len <= qc - qn - 1,
                b > 0,
        ;
    }
}

} // verus!
