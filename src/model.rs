//! The mathematical model of the multiplexer: what is active and what waits,
//! per key, and the transitions that `push` and a completion make on it.

use vstd::prelude::*;

verus! {

/// Identifier of a farm; operations are keyed by it.
pub type FarmIndex = u16;

/// Key ranges are scanned up to this bound: one past the largest key.
pub const KEY_SPAN: u32 = 0x10000;

/// What a driver does next while it advances the multiplexer.
#[derive(PartialEq, Eq, Structural, Clone, Copy, Debug)]
pub enum AdvanceStep {
    /// Nothing is active or queued: the sequence of results has ended for now.
    Terminated,
    /// Poll the active operation of this farm.
    Poll(FarmIndex),
    /// Every active operation was polled and none finished: wait to be woken.
    Pending,
}

/// The least key of `keys` that is at least `lo`.
pub open spec fn least_from(keys: Set<FarmIndex>, lo: nat) -> Option<FarmIndex>
    decreases KEY_SPAN - lo,
{
    if lo >= KEY_SPAN {
        None
    } else if keys.contains(lo as FarmIndex) {
        Some(lo as FarmIndex)
    } else {
        least_from(keys, lo + 1)
    }
}

/// `least_from` finds the least key at or above `lo`, and finds none only when
/// every key lies below `lo`.
pub proof fn lemma_least_from(keys: Set<FarmIndex>, lo: nat)
    ensures
        match least_from(keys, lo) {
            Some(k) => {
                &&& keys.contains(k)
                &&& lo <= k
                &&& forall|j: FarmIndex| #[trigger] keys.contains(j) && lo <= j ==> k <= j
            },
            None => forall|j: FarmIndex| #[trigger] keys.contains(j) ==> j < lo,
        },
    decreases KEY_SPAN - lo,
{
    if lo < KEY_SPAN && !keys.contains(lo as FarmIndex) {
        lemma_least_from(keys, lo + 1);
    }
}

/// Whatever satisfies the description of `least_from` is what it returns.
pub proof fn lemma_least_from_unique(keys: Set<FarmIndex>, lo: nat, r: Option<FarmIndex>)
    requires
        match r {
            Some(k) => {
                &&& keys.contains(k)
                &&& lo <= k
                &&& forall|j: FarmIndex| #[trigger] keys.contains(j) && lo <= j ==> k <= j
            },
            None => forall|j: FarmIndex| #[trigger] keys.contains(j) ==> j < lo,
        },
    ensures
        least_from(keys, lo) == r,
{
    lemma_least_from(keys, lo);
}

/// The abstract state of a multiplexer.
pub struct MuxView<F> {
    /// The operation in flight for each key that has one.
    pub active: Map<FarmIndex, F>,
    /// The operations waiting behind the active one, oldest first.
    pub pending: Map<FarmIndex, Seq<F>>,
}

impl<F> MuxView<F> {
    /// No key waits without an active operation, and no key maps to an empty queue.
    pub open spec fn wf(self) -> bool {
        &&& forall|k: FarmIndex| #[trigger] self.pending.contains_key(k) ==> self.active.contains_key(k)
        &&& forall|k: FarmIndex| #[trigger] self.pending.contains_key(k) ==> self.pending[k].len() > 0
    }

    /// Neither map holds anything.
    pub open spec fn is_idle(self) -> bool {
        &&& self.active.dom().is_empty()
        &&& self.pending.dom().is_empty()
    }

    /// The operations that wait behind the active one under `k` (empty when none do).
    pub open spec fn waiting(self, k: FarmIndex) -> Seq<F> {
        if self.pending.contains_key(k) {
            self.pending[k]
        } else {
            Seq::empty()
        }
    }

    /// Every operation held under `k`, in the order they will run: the active one first.
    pub open spec fn queue(self, k: FarmIndex) -> Seq<F> {
        if self.active.contains_key(k) {
            seq![self.active[k]] + self.waiting(k)
        } else {
            Seq::empty()
        }
    }

    /// The state after `op` is pushed under `k`.
    pub open spec fn push(self, k: FarmIndex, op: F) -> MuxView<F> {
        if self.active.contains_key(k) {
            MuxView { active: self.active, pending: self.pending.insert(k, self.waiting(k).push(op)) }
        } else {
            MuxView { active: self.active.insert(k, op), pending: self.pending }
        }
    }

    /// The state after the active operation under `k` has finished: the oldest
    /// waiting operation takes its place, or the key is dropped.
    pub open spec fn complete(self, k: FarmIndex) -> MuxView<F> {
        if !self.active.contains_key(k) {
            self
        } else if self.pending.contains_key(k) {
            let q = self.pending[k];
            MuxView {
                active: self.active.insert(k, q[0]),
                pending: if q.len() == 1 {
                    self.pending.remove(k)
                } else {
                    self.pending.insert(k, q.drop_first())
                },
            }
        } else {
            MuxView { active: self.active.remove(k), pending: self.pending }
        }
    }

    /// The first step of an advance: the end of the sequence when idle, else a poll
    /// of the lowest active farm.
    pub open spec fn first_step(self) -> AdvanceStep {
        if self.is_idle() {
            AdvanceStep::Terminated
        } else {
            match least_from(self.active.dom(), 0) {
                Some(k) => AdvanceStep::Poll(k),
                None => AdvanceStep::Pending,
            }
        }
    }

    /// The step after the operation of `k` was polled and has not finished: a poll
    /// of the next active farm above `k`, or a wait when there is none.
    pub open spec fn step_after(self, k: FarmIndex) -> AdvanceStep {
        match least_from(self.active.dom(), (k + 1) as nat) {
            Some(j) => AdvanceStep::Poll(j),
            None => AdvanceStep::Pending,
        }
    }

    /// A well-formed state that is not idle has an active operation.
    pub proof fn lemma_busy_has_active(self)
        requires
            self.wf(),
            !self.is_idle(),
        ensures
            exists|k: FarmIndex| self.active.contains_key(k),
    {
        if self.active.dom().is_empty() {
            let k = self.pending.dom().choose();
            assert(self.pending.contains_key(k));
        } else {
            let k = self.active.dom().choose();
            assert(self.active.contains_key(k));
        }
    }

    /// Pushing keeps the state well formed.
    pub proof fn lemma_push_wf(self, k: FarmIndex, op: F)
        requires
            self.wf(),
        ensures
            self.push(k, op).wf(),
    {
        let n = self.push(k, op);
        assert forall|j: FarmIndex| #[trigger] n.pending.contains_key(j) implies n.active.contains_key(j)
            && n.pending[j].len() > 0 by {
            if j != k {
                assert(self.pending.contains_key(j));
            }
        }
    }

    /// A completion keeps the state well formed.
    pub proof fn lemma_complete_wf(self, k: FarmIndex)
        requires
            self.wf(),
        ensures
            self.complete(k).wf(),
    {
        let n = self.complete(k);
        assert forall|j: FarmIndex| #[trigger] n.pending.contains_key(j) implies n.active.contains_key(j)
            && n.pending[j].len() > 0 by {
            if j != k {
                assert(self.pending.contains_key(j));
            }
        }
    }
}

} // verus!
