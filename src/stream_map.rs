//! The multiplexer itself.

use std::collections::BTreeMap;
use std::collections::VecDeque;
use vstd::prelude::*;

use crate::model::{least_from, lemma_least_from, AdvanceStep, FarmIndex, MuxView};

verus! {

broadcast use vstd::std_specs::btree::group_btree_axioms, vstd::laws_cmp::group_laws_cmp;

/// Relies on `BTreeMap::get_mut`: a mutable borrow of the value stored under `k`,
/// through which only that value can change.
#[verifier::external_body]
fn map_get_mut<'a, V>(m: &'a mut BTreeMap<FarmIndex, V>, k: FarmIndex) -> (r: Option<&'a mut V>)
    ensures
        match r {
            Some(v) => {
                &&& old(m)@.contains_key(k)
                &&& *v == old(m)@[k]
                &&& final(m)@ == old(m)@.insert(k, *final(v))
            },
            None => {
                &&& !old(m)@.contains_key(k)
                &&& final(m)@ == old(m)@
            },
        },
{
    m.get_mut(&k)
}

/// Operations keyed by farm: one in flight per farm, the rest queued behind it.
pub struct FarmsAddRemoveStreamMap<F> {
    /// The operation in flight for each farm that has one.
    pub in_progress: BTreeMap<FarmIndex, F>,
    /// Operations waiting for the farm's current one to finish, oldest first.
    pub farms_to_add_remove: BTreeMap<FarmIndex, VecDeque<F>>,
}

impl<F> View for FarmsAddRemoveStreamMap<F> {
    type V = MuxView<F>;

    open spec fn view(&self) -> MuxView<F> {
        MuxView {
            active: self.in_progress@,
            pending: self.farms_to_add_remove@.map_values(|q: VecDeque<F>| q@),
        }
    }
}

impl<F> FarmsAddRemoveStreamMap<F> {
    /// The maps are consistent: every farm with queued operations has an active
    /// one, and no farm keeps an empty queue.
    pub open spec fn wf(&self) -> bool {
        self@.wf()
    }

    /// An empty multiplexer.
    pub fn new() -> (r: Self)
        ensures
            r.wf(),
            r@.is_idle(),
            r@.active == Map::<FarmIndex, F>::empty(),
            r@.pending == Map::<FarmIndex, Seq<F>>::empty(),
    {
        let r = FarmsAddRemoveStreamMap { in_progress: BTreeMap::new(), farms_to_add_remove: BTreeMap::new() };
        assert(r@.pending =~= Map::<FarmIndex, Seq<F>>::empty());
        r
    }

    /// Whether no farm has an active or a queued operation. This is a live status:
    /// pushing again makes it false.
    pub fn is_terminated(&self) -> (r: bool)
        requires
            self.wf(),
        ensures
            r == self@.is_idle(),
    {
        self.in_progress.is_empty() && self.farms_to_add_remove.is_empty()
    }

    /// Enqueues `fut` under `farm_index`: it becomes the farm's active operation at
    /// once when the farm has none, and otherwise waits at the tail of its queue.
    pub fn push(&mut self, farm_index: FarmIndex, fut: F)
        requires
            old(self).wf(),
        ensures
            final(self).wf(),
            final(self)@ == old(self)@.push(farm_index, fut),
            !final(self)@.is_idle(),
    {
        if self.in_progress.contains_key(&farm_index) {
            let mut queue = match self.farms_to_add_remove.remove(&farm_index) {
                Some(queue) => queue,
                None => VecDeque::new(),
            };
            queue.push_back(fut);
            self.farms_to_add_remove.insert(farm_index, queue);
            assert(self@.pending =~= old(self)@.pending.insert(farm_index, old(self)@.waiting(farm_index).push(fut)));
        } else {
            self.in_progress.insert(farm_index, fut);
        }
        proof {
            old(self)@.lemma_push_wf(farm_index, fut);
        }
        assert(self@ == old(self)@.push(farm_index, fut));
    }

    /// The least active farm at or above `lo`.
    fn least_active_from(&self, lo: u32) -> (r: Option<FarmIndex>)
        ensures
            r == least_from(self@.active.dom(), lo as nat),
    {
        let mut best: Option<FarmIndex> = None;
        for k in it: self.in_progress.keys()
            invariant
                match best {
                    Some(b) => {
                        &&& self@.active.contains_key(b)
                        &&& lo <= b
                        &&& forall|i: int| 0 <= i < it.index() && lo <= *it.seq()[i] ==> b <= *it.seq()[i]
                    },
                    None => forall|i: int| 0 <= i < it.index() ==> *it.seq()[i] < lo,
                },
        {
            if lo <= *k as u32 {
                match best {
                    Some(b) => {
                        if *k < b {
                            best = Some(*k);
                        }
                    },
                    None => {
                        best = Some(*k);
                    },
                }
            }
        }
        proof {
            lemma_least_from(self@.active.dom(), lo as nat);
        }
        best
    }

    /// Where an advance starts: `Terminated` when the multiplexer is idle, else a
    /// poll of the lowest active farm.
    pub fn first_step(&self) -> (r: AdvanceStep)
        requires
            self.wf(),
        ensures
            r == self@.first_step(),
            self@.is_idle() <==> r == AdvanceStep::Terminated,
            r != AdvanceStep::Pending,
    {
        if self.is_terminated() {
            return AdvanceStep::Terminated;
        }
        proof {
            self@.lemma_busy_has_active();
            lemma_least_from(self@.active.dom(), 0);
        }
        match self.least_active_from(0) {
            Some(k) => AdvanceStep::Poll(k),
            None => AdvanceStep::Pending,
        }
    }

    /// Where an advance goes after the operation of `farm_index` was polled and has
    /// not finished: a poll of the next active farm above it, or `Pending` when the
    /// pass has reached the top.
    pub fn step_after_pending(&self, farm_index: FarmIndex) -> (r: AdvanceStep)
        requires
            self.wf(),
        ensures
            r == self@.step_after(farm_index),
            r != AdvanceStep::Terminated,
    {
        match self.least_active_from(farm_index as u32 + 1) {
            Some(k) => AdvanceStep::Poll(k),
            None => AdvanceStep::Pending,
        }
    }

    /// The active operation of `farm_index`, to be polled in place. Only that
    /// operation can change through the borrow; which operations are active or
    /// queued stays as it is.
    pub fn active_op_mut(&mut self, farm_index: FarmIndex) -> (op: &mut F)
        requires
            old(self).wf(),
            old(self)@.active.contains_key(farm_index),
        ensures
            *op == old(self)@.active[farm_index],
            final(self)@.active == old(self)@.active.insert(farm_index, *final(op)),
            final(self)@.pending == old(self)@.pending,
            final(self).wf(),
    {
        map_get_mut(&mut self.in_progress, farm_index).unwrap()
    }

    /// Records that the active operation under `farm_index` has finished and hands
    /// it back. The oldest operation waiting under that farm becomes active in its
    /// place; when none waits, the farm leaves the multiplexer.
    pub fn complete(&mut self, farm_index: FarmIndex) -> (done: F)
        requires
            old(self).wf(),
            old(self)@.active.contains_key(farm_index),
        ensures
            final(self).wf(),
            done == old(self)@.active[farm_index],
            final(self)@ == old(self)@.complete(farm_index),
    {
        let done = self.in_progress.remove(&farm_index).unwrap();
        assert(old(self)@.pending.contains_key(farm_index) ==> old(self)@.pending[farm_index].len() > 0);
        self.process_farm_queue(farm_index);
        proof {
            old(self)@.lemma_complete_wf(farm_index);
            assert(self@.active =~= old(self)@.complete(farm_index).active);
        }
        done
    }

    /// Moves the oldest operation waiting under `farm_index`, which has no active
    /// operation, into the active map, and drops the farm's queue once it is empty.
    fn process_farm_queue(&mut self, farm_index: FarmIndex)
        requires
            !old(self)@.active.contains_key(farm_index),
            old(self)@.pending.contains_key(farm_index) ==> old(self)@.pending[farm_index].len() > 0,
        ensures
            old(self)@.pending.contains_key(farm_index) ==> {
                let q = old(self)@.pending[farm_index];
                &&& final(self)@.active == old(self)@.active.insert(farm_index, q[0])
                &&& final(self)@.pending == if q.len() == 1 {
                    old(self)@.pending.remove(farm_index)
                } else {
                    old(self)@.pending.insert(farm_index, q.drop_first())
                }
            },
            !old(self)@.pending.contains_key(farm_index) ==> final(self)@ == old(self)@,
    {
        if let Some(mut queue) = self.farms_to_add_remove.remove(&farm_index) {
            if let Some(fut) = queue.pop_front() {
                self.in_progress.insert(farm_index, fut);
            }
            if queue.len() > 0 {
                self.farms_to_add_remove.insert(farm_index, queue);
                assert(self@.pending =~= old(self)@.pending.insert(farm_index, old(self)@.pending[farm_index].drop_first()));
            } else {
                assert(self@.pending =~= old(self)@.pending.remove(farm_index));
            }
        } else {
            assert(self.farms_to_add_remove@ =~= old(self).farms_to_add_remove@);
        }
    }
}

impl<F> Default for FarmsAddRemoveStreamMap<F> {
    fn default() -> (r: Self)
        ensures
            r.wf(),
            r@.is_idle(),
    {
        Self::new()
    }
}

/// Whether `stream_map` is terminated in every sense at once: no operation is
/// active, none is queued, and `is_terminated` says so.
pub fn assert_is_terminated<F>(stream_map: &FarmsAddRemoveStreamMap<F>) -> (r: bool)
    requires
        stream_map.wf(),
    ensures
        r == stream_map@.is_idle(),
{
    stream_map.in_progress.is_empty() && stream_map.farms_to_add_remove.is_empty()
        && stream_map.is_terminated()
}

} // verus!
