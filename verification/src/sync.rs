//! The synchronization layer: a timeline counter and a small state machine
//! per buffered frame slot, so the processor never rewrites a slot's
//! resources while device work that reads them may still be in flight, plus
//! a deferred-reclamation queue for transient resources.
//!
//! The device signals a monotonically increasing timeline counter as
//! submissions complete; the state machine compares observed counter values
//! against the value each slot's last submission will signal.

use vstd::prelude::*;

verus! {

/// How many timeline-counter steps one frame advances.
pub const TIMELINE_STAGES: u64 = 16;

/// The step within a frame at which its rendering is complete.
pub const RENDER_COMPLETE_STAGE: u64 = 15;

/// The lifecycle of one buffered frame slot.
#[derive(Debug, Clone, Copy, PartialEq, Eq, Structural)]
pub enum SlotState {
    /// The slot's last submission was observed complete; the slot may be
    /// recorded into.
    Idle,
    /// The slot's resources were submitted to the device and completion has
    /// not been observed yet.
    Submitted,
}

/// Gates the reuse of `N`-buffered frame resources: slot `k` serves frame
/// numbers congruent to `k`, and a slot is recordable only once the
/// timeline counter was observed at or beyond the value its last
/// submission signals.
pub struct FrameSync {
    slots: Vec<SlotState>,
    expected: Vec<u64>,
    timeline: u64,
    observed: u64,
}

impl FrameSync {
    /// How many frame slots rotate.
    pub closed spec fn spec_slot_count(self) -> int {
        self.slots@.len() as int
    }

    pub closed spec fn spec_state(self, k: int) -> SlotState {
        self.slots@[k]
    }

    /// The timeline value slot `k`'s last submission signals on
    /// completion; zero when the slot was never submitted.
    pub closed spec fn spec_expected(self, k: int) -> u64 {
        self.expected@[k]
    }

    /// The two per-slot tables cover the same slots.
    pub closed spec fn spec_counts_ok(self) -> bool {
        self.expected@.len() == self.slots@.len()
    }

    /// The highest timeline value handed out to a submission.
    pub closed spec fn spec_timeline(self) -> u64 {
        self.timeline
    }

    /// The highest timeline value observed complete.
    pub closed spec fn spec_observed(self) -> u64 {
        self.observed
    }

    /// The slot invariant: an idle slot's last submission has been
    /// observed complete, and nothing beyond the handed-out timeline has
    /// been promised or observed.
    pub open spec fn wf(self) -> bool {
        &&& self.spec_slot_count() >= 1
        &&& self.spec_counts_ok()
        &&& self.spec_observed() <= self.spec_timeline()
        &&& forall|k: int|
            0 <= k < self.spec_slot_count() ==> self.spec_expected(k) <= self.spec_timeline()
        &&& forall|k: int|
            0 <= k < self.spec_slot_count() && self.spec_state(k) is Idle ==> self.spec_expected(
                k,
            ) <= self.spec_observed()
    }

    /// Starts with every slot idle and the timeline at zero.
    #[verifier::loop_isolation(false)]
    pub fn new(slot_count: usize) -> (r: FrameSync)
        requires
            slot_count >= 1,
        ensures
            r.wf(),
            r.spec_slot_count() == slot_count,
            r.spec_timeline() == 0,
            r.spec_observed() == 0,
            forall|k: int| 0 <= k < slot_count ==> r.spec_state(k) is Idle,
            forall|k: int| 0 <= k < slot_count ==> r.spec_expected(k) == 0,
    {
        let mut slots: Vec<SlotState> = Vec::new();
        let mut expected: Vec<u64> = Vec::new();
        let mut i: usize = 0;
        while i < slot_count
            invariant
                i <= slot_count,
                slots@.len() == i as int,
                expected@.len() == i as int,
                forall|k: int| 0 <= k < i ==> (#[trigger] slots@[k]) is Idle,
                forall|k: int| 0 <= k < i ==> (#[trigger] expected@[k]) == 0,
            decreases slot_count - i,
        {
            slots.push(SlotState::Idle);
            expected.push(0);
            i = i + 1;
        }
        FrameSync { slots, expected, timeline: 0, observed: 0 }
    }

    pub fn slot_count(&self) -> (r: usize)
        ensures
            r == self.spec_slot_count(),
    {
        self.slots.len()
    }

    /// The slot that serves this frame number: frames rotate through the
    /// slots modulo the slot count.
    pub fn slot_of_frame(&self, frame_number: u64) -> (r: usize)
        requires
            self.wf(),
        ensures
            r == frame_number as int % self.spec_slot_count(),
            r < self.spec_slot_count(),
    {
        (frame_number % (self.slots.len() as u64)) as usize
    }

    /// Whether slot `k` may be recorded into now: exactly when it is idle,
    /// that is, when its prior device work was observed complete.
    pub fn can_record(&self, k: usize) -> (r: bool)
        requires
            self.wf(),
            k < self.spec_slot_count(),
        ensures
            r == (self.spec_state(k as int) is Idle),
    {
        match self.slots[k] {
            SlotState::Idle => true,
            SlotState::Submitted => false,
        }
    }

    /// Marks slot `k` as submitted and returns the timeline value the
    /// submission must signal on completion.
    pub fn submit(&mut self, k: usize) -> (signal: u64)
        requires
            old(self).wf(),
            k < old(self).spec_slot_count(),
            old(self).spec_state(k as int) is Idle,
            old(self).spec_timeline() < u64::MAX,
        ensures
            final(self).wf(),
            signal == old(self).spec_timeline() + 1,
            final(self).spec_timeline() == signal,
            final(self).spec_observed() == old(self).spec_observed(),
            final(self).spec_slot_count() == old(self).spec_slot_count(),
            final(self).spec_state(k as int) is Submitted,
            final(self).spec_expected(k as int) == signal,
            forall|j: int|
                0 <= j < old(self).spec_slot_count() && j != k ==> final(self).spec_state(j)
                    == old(self).spec_state(j) && final(self).spec_expected(j) == old(self).spec_expected(j),
    {
        let signal = self.timeline + 1;
        self.timeline = signal;
        self.slots[k] = SlotState::Submitted;
        self.expected[k] = signal;
        proof {
            assert forall|j: int|
                0 <= j < self.spec_slot_count() implies self.spec_expected(j)
                <= self.spec_timeline() by {
                if j != k {
                    assert(old(self).spec_expected(j) <= old(self).spec_timeline());
                }
            }
            assert forall|j: int|
                0 <= j < self.spec_slot_count() && self.spec_state(j) is Idle implies self
                .spec_expected(j) <= self.spec_observed() by {
                if j != k {
                    assert(old(self).spec_state(j) is Idle ==> old(self).spec_expected(j) <= old(
                        self,
                    ).spec_observed());
                }
            }
        }
        signal
    }

    /// Records that the device was observed to have completed every
    /// submission up to `completed`; every slot whose expected value is
    /// covered becomes idle.
    #[verifier::loop_isolation(false)]
    pub fn observe(&mut self, completed: u64)
        requires
            old(self).wf(),
            completed <= old(self).spec_timeline(),
        ensures
            final(self).wf(),
            final(self).spec_slot_count() == old(self).spec_slot_count(),
            final(self).spec_timeline() == old(self).spec_timeline(),
            final(self).spec_observed() == (if completed > old(self).spec_observed() {
                completed
            } else {
                old(self).spec_observed()
            }),
            forall|j: int|
                0 <= j < old(self).spec_slot_count() ==> final(self).spec_expected(j) == old(self).spec_expected(j),
            forall|j: int|
                0 <= j < old(self).spec_slot_count() ==> final(self).spec_state(j) == (if old(self).spec_state(j) is Idle || old(self).spec_expected(j) <= final(self).spec_observed() {
                    SlotState::Idle
                } else {
                    SlotState::Submitted
                }),
    {
        if completed > self.observed {
            self.observed = completed;
        }
        let n = self.slots.len();
        let mut k: usize = 0;
        while k < n
            invariant
                k <= n,
                self.slots@.len() == n,
                self.expected@ == old(self).expected@,
                self.timeline == old(self).timeline,
                self.observed == (if completed > old(self).observed {
                    completed
                } else {
                    old(self).observed
                }),
                forall|j: int|
                    0 <= j < k ==> (#[trigger] self.slots@[j]) == (if old(self).slots@[j] is Idle
                        || old(self).expected@[j] <= self.observed {
                        SlotState::Idle
                    } else {
                        SlotState::Submitted
                    }),
                forall|j: int| k <= j < n ==> (#[trigger] self.slots@[j]) == old(self).slots@[j],
            decreases n - k,
        {
            let covered = self.expected[k] <= self.observed;
            if covered {
                self.slots[k] = SlotState::Idle;
            }
            k = k + 1;
        }
        proof {
            assert forall|j: int|
                0 <= j < self.spec_slot_count() implies self.spec_expected(j)
                <= self.spec_timeline() by {
                assert(old(self).spec_expected(j) <= old(self).spec_timeline());
            }
            assert forall|j: int|
                0 <= j < self.spec_slot_count() && self.spec_state(j) is Idle implies self
                .spec_expected(j) <= self.spec_observed() by {
                assert(old(self).spec_state(j) is Idle ==> old(self).spec_expected(j) <= old(
                    self,
                ).spec_observed());
            }
        }
    }

    /// The highest timeline value handed out so far; the caller tests it
    /// against [`u64::MAX`] before submitting, since each submission takes
    /// a fresh value.
    pub fn timeline(&self) -> (r: u64)
        ensures
            r == self.spec_timeline(),
    {
        self.timeline
    }

    /// The timeline value to wait for before reusing slot `k`.
    pub fn wait_target(&self, k: usize) -> (r: u64)
        requires
            self.wf(),
            k < self.spec_slot_count(),
        ensures
            r == self.spec_expected(k as int),
    {
        self.expected[k]
    }
}

/// Double-buffering safety: whenever a slot is recordable (idle), the
/// timeline counter has been observed at or beyond the value its last
/// submission signals — a slot's command buffer is never recorded into
/// before its prior device work observably completed.
pub proof fn lemma_no_premature_reuse(s: FrameSync, k: int)
    requires
        s.wf(),
        0 <= k < s.spec_slot_count(),
        s.spec_state(k) is Idle,
    ensures
        s.spec_expected(k) <= s.spec_observed(),
{
}

/// Retains the pairs whose readiness value is still in the future.
pub open spec fn spec_reclaim_keep(pending: Seq<(u64, u64)>, completed: u64, k: int) -> Seq<
    (u64, u64),
>
    decreases k,
{
    if k <= 0 {
        Seq::empty()
    } else {
        let p = spec_reclaim_keep(pending, completed, k - 1);
        if pending[k - 1].0 <= completed {
            p
        } else {
            p.push(pending[k - 1])
        }
    }
}

/// The handles whose readiness value is covered, in deferral order.
pub open spec fn spec_reclaim_free(pending: Seq<(u64, u64)>, completed: u64, k: int) -> Seq<u64>
    decreases k,
{
    if k <= 0 {
        Seq::empty()
    } else {
        let p = spec_reclaim_free(pending, completed, k - 1);
        if pending[k - 1].0 <= completed {
            p.push(pending[k - 1].1)
        } else {
            p
        }
    }
}

/// Deferred reclamation of transient resources: instead of a waiter thread
/// per fence, a resource is deferred with the timeline value whose
/// completion frees it, and the queue is drained once per frame against
/// the observed counter.
pub struct ReclaimQueue {
    pending: Vec<(u64, u64)>,
}

impl View for ReclaimQueue {
    type V = Seq<(u64, u64)>;

    closed spec fn view(&self) -> Seq<(u64, u64)> {
        self.pending@
    }
}

impl ReclaimQueue {
    pub fn new() -> (r: ReclaimQueue)
        ensures
            r@ == Seq::<(u64, u64)>::empty(),
    {
        ReclaimQueue { pending: Vec::new() }
    }

    /// Defers the resource `handle` until the timeline reaches `ready_at`.
    pub fn defer(&mut self, ready_at: u64, handle: u64)
        ensures
            final(self)@ == old(self)@.push((ready_at, handle)),
    {
        self.pending.push((ready_at, handle));
    }

    /// Frees everything whose readiness value was observed complete:
    /// returns exactly the handles deferred with a value at or below
    /// `completed`, in deferral order, and keeps the rest.
    #[verifier::loop_isolation(false)]
    pub fn drain(&mut self, completed: u64) -> (freed: Vec<u64>)
        ensures
            freed@ == spec_reclaim_free(old(self)@, completed, old(self)@.len() as int),
            final(self)@ == spec_reclaim_keep(old(self)@, completed, old(self)@.len() as int),
    {
        let mut kept: Vec<(u64, u64)> = Vec::new();
        let mut freed: Vec<u64> = Vec::new();
        let mut k: usize = 0;
        let n = self.pending.len();
        while k < n
            invariant
                k <= n,
                n == self.pending@.len(),
                self.pending@ == old(self)@,
                freed@ == spec_reclaim_free(old(self)@, completed, k as int),
                kept@ == spec_reclaim_keep(old(self)@, completed, k as int),
            decreases n - k,
        {
            let e = self.pending[k];
            if e.0 <= completed {
                freed.push(e.1);
            } else {
                kept.push(e);
            }
            k = k + 1;
        }
        self.pending = kept;
        freed
    }
}

} // verus!
