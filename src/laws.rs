//! Laws of the multiplexer, stated over its model and proved.

use vstd::prelude::*;

use crate::model::{least_from, lemma_least_from, lemma_least_from_unique, AdvanceStep, FarmIndex, MuxView, KEY_SPAN};

verus! {

/// How one pass of an advance ends.
pub enum PassOutcome {
    /// The multiplexer was idle: the sequence of results has ended for now.
    End,
    /// The operation of this farm finished; its result is the one this advance yields.
    Ready(FarmIndex),
    /// No polled operation finished.
    Suspended,
}

/// The pass that a driver makes from `step` on, when the operations of the farms in
/// `ready` finish as soon as they are polled and the others do not.
pub open spec fn pass<F>(m: MuxView<F>, ready: Set<FarmIndex>, step: AdvanceStep, fuel: nat) -> PassOutcome
    decreases fuel,
{
    match step {
        AdvanceStep::Terminated => PassOutcome::End,
        AdvanceStep::Pending => PassOutcome::Suspended,
        AdvanceStep::Poll(k) => if ready.contains(k) {
            PassOutcome::Ready(k)
        } else if fuel == 0 {
            PassOutcome::Suspended
        } else {
            pass(m, ready, m.step_after(k), (fuel - 1) as nat)
        },
    }
}

/// One advance with the farms in `ready` ready: the state after it, and the one
/// result it yields, if any.
pub open spec fn advance<F>(m: MuxView<F>, ready: Set<FarmIndex>) -> (MuxView<F>, Option<(FarmIndex, F)>) {
    match pass(m, ready, m.first_step(), KEY_SPAN as nat) {
        PassOutcome::Ready(k) => (m.complete(k), Some((k, m.active[k]))),
        _ => (m, None),
    }
}

proof fn lemma_pass_from<F>(m: MuxView<F>, ready: Set<FarmIndex>, lo: nat, fuel: nat)
    requires
        fuel + lo >= KEY_SPAN,
    ensures
        pass(
            m,
            ready,
            match least_from(m.active.dom(), lo) {
                Some(k) => AdvanceStep::Poll(k),
                None => AdvanceStep::Pending,
            },
            fuel,
        ) == match least_from(m.active.dom().intersect(ready), lo) {
            Some(k) => PassOutcome::Ready(k),
            None => PassOutcome::Suspended,
        },
    decreases fuel,
{
    let act = m.active.dom();
    let both = act.intersect(ready);
    lemma_least_from(act, lo);
    match least_from(act, lo) {
        None => {
            lemma_least_from_unique(both, lo, None);
        },
        Some(k) => {
            if ready.contains(k) {
                lemma_least_from_unique(both, lo, Some(k));
            } else {
                lemma_pass_from(m, ready, (k + 1) as nat, (fuel - 1) as nat);
                lemma_least_from(both, (k + 1) as nat);
                lemma_least_from_unique(both, lo, least_from(both, (k + 1) as nat));
            }
        },
    }
}

/// An advance polls the active farms in ascending order and stops at the first
/// whose operation is ready: it yields the result of the lowest active farm that
/// is ready and no other, ends the sequence when the multiplexer is idle, and
/// suspends when no active farm is ready.
pub proof fn lemma_one_per_advance<F>(m: MuxView<F>, ready: Set<FarmIndex>)
    requires
        m.wf(),
    ensures
        pass(m, ready, m.first_step(), KEY_SPAN as nat) == if m.is_idle() {
            PassOutcome::End
        } else {
            match least_from(m.active.dom().intersect(ready), 0) {
                Some(k) => PassOutcome::Ready(k),
                None => PassOutcome::Suspended,
            }
        },
        match least_from(m.active.dom().intersect(ready), 0) {
            Some(k) => advance(m, ready) == (m.complete(k), Some((k, m.active[k]))),
            None => advance(m, ready) == (m, None::<(FarmIndex, F)>),
        },
{
    if !m.is_idle() {
        lemma_pass_from(m, ready, 0, KEY_SPAN as nat);
    } else {
        lemma_least_from(m.active.dom().intersect(ready), 0);
        lemma_least_from_unique(m.active.dom().intersect(ready), 0, None);
    }
}

/// One thing that happens to a multiplexer.
pub enum MuxEvent<F> {
    /// An operation is pushed under a farm.
    Push(FarmIndex, F),
    /// The active operation of a farm finishes (nothing happens when it has none).
    Complete(FarmIndex),
}

/// The state after `events`, in order, starting from `m`, and the finished
/// operations, each with its farm, in the order they finished.
pub open spec fn run<F>(m: MuxView<F>, events: Seq<MuxEvent<F>>) -> (MuxView<F>, Seq<(FarmIndex, F)>)
    decreases events.len(),
{
    if events.len() == 0 {
        (m, Seq::empty())
    } else {
        let (s, out) = run(m, events.drop_last());
        match events.last() {
            MuxEvent::Push(k, op) => (s.push(k, op), out),
            MuxEvent::Complete(k) => if s.active.contains_key(k) {
                (s.complete(k), out.push((k, s.active[k])))
            } else {
                (s, out)
            },
        }
    }
}

/// The operations pushed under `k` in `events`, in order.
pub open spec fn pushed_under<F>(events: Seq<MuxEvent<F>>, k: FarmIndex) -> Seq<F>
    decreases events.len(),
{
    if events.len() == 0 {
        Seq::empty()
    } else {
        let before = pushed_under(events.drop_last(), k);
        match events.last() {
            MuxEvent::Push(j, op) => if j == k {
                before.push(op)
            } else {
                before
            },
            MuxEvent::Complete(_) => before,
        }
    }
}

/// The operations of `k` among `out`, in order.
pub open spec fn finished_under<F>(out: Seq<(FarmIndex, F)>, k: FarmIndex) -> Seq<F>
    decreases out.len(),
{
    if out.len() == 0 {
        Seq::empty()
    } else {
        let before = finished_under(out.drop_last(), k);
        if out.last().0 == k {
            before.push(out.last().1)
        } else {
            before
        }
    }
}

/// Pushing under `j` appends to the queue of `j` and leaves every other queue as it was.
pub proof fn lemma_push_queue<F>(m: MuxView<F>, j: FarmIndex, op: F, k: FarmIndex)
    requires
        m.wf(),
    ensures
        m.push(j, op).queue(k) == if j == k {
            m.queue(k).push(op)
        } else {
            m.queue(k)
        },
{
    let n = m.push(j, op);
    if j == k {
        if m.active.contains_key(k) {
            assert(n.queue(k) =~= m.queue(k).push(op));
        } else {
            assert(!m.pending.contains_key(k));
            assert(n.queue(k) =~= m.queue(k).push(op));
        }
    } else {
        assert(n.queue(k) =~= m.queue(k));
    }
}

/// Completing `j` takes the head off the queue of `j` and leaves every other queue as it was.
pub proof fn lemma_complete_queue<F>(m: MuxView<F>, j: FarmIndex, k: FarmIndex)
    requires
        m.wf(),
        m.active.contains_key(j),
    ensures
        m.queue(j)[0] == m.active[j],
        m.queue(j).len() > 0,
        m.complete(j).queue(k) == if j == k {
            m.queue(k).drop_first()
        } else {
            m.queue(k)
        },
{
    let n = m.complete(j);
    if j == k {
        if m.pending.contains_key(k) {
            assert(n.queue(k) =~= m.queue(k).drop_first());
        } else {
            assert(n.queue(k) =~= m.queue(k).drop_first());
        }
    } else {
        assert(n.queue(k) =~= m.queue(k));
    }
}

/// Operations under one farm finish in the order they were pushed, after those
/// already held, and one at a time: for every sequence of pushes and completions,
/// what a farm held, followed by what was pushed under it, is what finished under
/// it followed by what it holds now. The state stays well formed throughout.
pub proof fn lemma_fifo_per_key<F>(m: MuxView<F>, events: Seq<MuxEvent<F>>, k: FarmIndex)
    requires
        m.wf(),
    ensures
        run(m, events).0.wf(),
        m.queue(k) + pushed_under(events, k) == finished_under(run(m, events).1, k) + run(m, events).0.queue(k),
    decreases events.len(),
{
    if events.len() > 0 {
        let prev = events.drop_last();
        lemma_fifo_per_key(m, prev, k);
        let (s, out) = run(m, prev);
        match events.last() {
            MuxEvent::Push(j, op) => {
                s.lemma_push_wf(j, op);
                lemma_push_queue(s, j, op, k);
                if j == k {
                    assert(m.queue(k) + pushed_under(events, k) =~= (m.queue(k) + pushed_under(prev, k)).push(op));
                    assert(finished_under(out, k) + s.queue(k).push(op) =~= (finished_under(out, k) + s.queue(k)).push(op));
                }
            },
            MuxEvent::Complete(j) => {
                if s.active.contains_key(j) {
                    s.lemma_complete_wf(j);
                    lemma_complete_queue(s, j, k);
                    let out2 = out.push((j, s.active[j]));
                    assert(out2.drop_last() =~= out);
                    if j == k {
                        assert(finished_under(out2, k) + s.complete(j).queue(k) =~= finished_under(out, k) + s.queue(k));
                    }
                }
            },
        }
    }
}

/// Every operation held by farms at or above `lo`, each with its farm: farm by
/// farm in ascending order, and under each farm in the order they will run.
pub open spec fn held_from<F>(m: MuxView<F>, lo: nat) -> Seq<(FarmIndex, F)>
    decreases KEY_SPAN - lo,
{
    if lo >= KEY_SPAN {
        Seq::empty()
    } else {
        m.queue(lo as FarmIndex).map_values(|op: F| (lo as FarmIndex, op)) + held_from(m, lo + 1)
    }
}

/// Advancing `n` times with every operation ready as soon as it is polled: the
/// state after, and the results in the order they came.
pub open spec fn drain<F>(m: MuxView<F>, n: nat) -> (MuxView<F>, Seq<(FarmIndex, F)>)
    decreases n,
{
    if n == 0 {
        (m, Seq::empty())
    } else {
        let (s, r) = advance(m, Set::full());
        let (t, rest) = drain(s, (n - 1) as nat);
        match r {
            Some(x) => (t, seq![x] + rest),
            None => (t, rest),
        }
    }
}

proof fn lemma_held_from_same<F>(m: MuxView<F>, n: MuxView<F>, lo: nat)
    requires
        forall|j: FarmIndex| lo <= j ==> #[trigger] m.queue(j) == n.queue(j),
    ensures
        held_from(m, lo) == held_from(n, lo),
    decreases KEY_SPAN - lo,
{
    if lo < KEY_SPAN {
        lemma_held_from_same(m, n, lo + 1);
        assert(m.queue(lo as FarmIndex) == n.queue(lo as FarmIndex));
    }
}

proof fn lemma_held_from_complete<F>(m: MuxView<F>, k: FarmIndex, lo: nat)
    requires
        m.wf(),
        m.active.contains_key(k),
        lo <= k,
        forall|j: FarmIndex| lo <= j < k ==> !#[trigger] m.active.contains_key(j),
    ensures
        held_from(m, lo) == seq![(k, m.active[k])] + held_from(m.complete(k), lo),
    decreases k - lo,
{
    let n = m.complete(k);
    assert forall|j: FarmIndex| lo <= j && j != k implies #[trigger] m.queue(j) == n.queue(j) by {
        lemma_complete_queue(m, k, j);
    }
    lemma_complete_queue(m, k, k);
    if lo == k {
        lemma_held_from_same(m, n, (k + 1) as nat);
        let x = (k, m.active[k]);
        let f = |op: F| (k, op);
        assert(m.queue(k).map_values(f) =~= seq![x] + n.queue(k).map_values(f));
        assert(held_from(m, lo) =~= seq![x] + held_from(n, lo));
    } else {
        lemma_held_from_complete(m, k, lo + 1);
        assert(!m.active.contains_key(lo as FarmIndex));
        assert(!n.active.contains_key(lo as FarmIndex));
        assert(m.queue(lo as FarmIndex).map_values(|op: F| (lo as FarmIndex, op)) =~= Seq::empty());
        assert(n.queue(lo as FarmIndex).map_values(|op: F| (lo as FarmIndex, op)) =~= Seq::empty());
        assert(held_from(m, lo) =~= held_from(m, lo + 1));
        assert(held_from(n, lo) =~= held_from(n, lo + 1));
    }
}

proof fn lemma_held_from_empty<F>(m: MuxView<F>, lo: nat)
    requires
        m.wf(),
        held_from(m, lo).len() == 0,
    ensures
        forall|j: FarmIndex| lo <= j ==> !#[trigger] m.active.contains_key(j),
    decreases KEY_SPAN - lo,
{
    if lo < KEY_SPAN {
        lemma_held_from_empty(m, lo + 1);
        if m.active.contains_key(lo as FarmIndex) {
            assert(m.queue(lo as FarmIndex).len() > 0);
            assert(held_from(m, lo).len() > 0);
        }
    }
}

/// Draining returns to idle: when every operation finishes once polled, as many
/// advances as there are operations yield each operation exactly once (farm by
/// farm in ascending order, in pushed order within a farm) and leave the
/// multiplexer idle.
pub proof fn lemma_full_drain<F>(m: MuxView<F>)
    requires
        m.wf(),
    ensures
        drain(m, held_from(m, 0).len()).1 == held_from(m, 0),
        drain(m, held_from(m, 0).len()).0.is_idle(),
    decreases held_from(m, 0).len(),
{
    let n = held_from(m, 0).len();
    if n == 0 {
        lemma_held_from_empty(m, 0);
        assert(m.active.dom() =~= Set::empty());
        assert(m.pending.dom() =~= Set::empty());
    } else {
        if m.active.dom().is_empty() {
            lemma_held_from_idle(m, 0);
        }
        lemma_one_per_advance(m, Set::full());
        let act = m.active.dom();
        assert(act.intersect(Set::full()) =~= act);
        lemma_least_from(act, 0);
        let k = least_from(act, 0).unwrap();
        m.lemma_complete_wf(k);
        lemma_held_from_complete(m, k, 0);
        let s = m.complete(k);
        lemma_full_drain(s);
        assert(held_from(s, 0).len() == n - 1);
    }
}

proof fn lemma_held_from_idle<F>(m: MuxView<F>, lo: nat)
    requires
        m.active.dom().is_empty(),
    ensures
        held_from(m, lo) == Seq::<(FarmIndex, F)>::empty(),
    decreases KEY_SPAN - lo,
{
    if lo < KEY_SPAN {
        lemma_held_from_idle(m, lo + 1);
        assert(!m.active.contains_key(lo as FarmIndex));
        assert(m.queue(lo as FarmIndex).map_values(|op: F| (lo as FarmIndex, op)) =~= Seq::empty());
    }
}

/// Idle is not permanent: after a push into an idle multiplexer, an advance in
/// which the pushed operation is ready yields it and leaves the multiplexer idle again.
pub proof fn lemma_idle_not_permanent<F>(m: MuxView<F>, k: FarmIndex, op: F, ready: Set<FarmIndex>)
    requires
        m.wf(),
        m.is_idle(),
        ready.contains(k),
    ensures
        m.push(k, op).first_step() == AdvanceStep::Poll(k),
        advance(m.push(k, op), ready).1 == Some((k, op)),
        advance(m.push(k, op), ready).0.is_idle(),
{
    let p = m.push(k, op);
    m.lemma_push_wf(k, op);
    assert(!m.active.contains_key(k));
    assert(p.active.dom() =~= set![k]);
    lemma_least_from_unique(p.active.dom(), 0, Some(k));
    assert(p.active.dom().intersect(ready) =~= set![k]);
    lemma_least_from_unique(p.active.dom().intersect(ready), 0, Some(k));
    lemma_one_per_advance(p, ready);
    assert(!p.pending.contains_key(k));
    assert(p.complete(k).active.dom() =~= Set::empty());
}

} // verus!
