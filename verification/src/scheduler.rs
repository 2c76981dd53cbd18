//! Frame pacing: a fixed ring of frame slots, each tagged with the
//! completion marker the GPU must reach before the slot's resources may
//! be reused.
//!
//! The scheduler is the pure protocol state.  The blocking wait on the
//! GPU fence, command submission, the completion signal and presentation
//! are backend actions performed by the driver; the driver feeds the
//! observed completed-marker value into [`FrameScheduler::begin_frame`]
//! and the presentation outcome into [`FrameScheduler::end_frame`].

use vstd::prelude::*;

verus! {

/// What can go wrong while pacing frames.  A completion wait that never
/// finishes (device lost) is fatal and never surfaces as a result: the
/// driver tears the backend down instead.
#[derive(Clone, Copy, Debug, PartialEq, Eq, Structural)]
pub enum SchedulerError {
    /// The backend rejected presentation; the driver decides whether to
    /// retry the tick or terminate.
    PresentationFailure,
}

/// The mathematical content of a [`FrameScheduler`]: the target marker
/// recorded for each slot, the slot the next frame will use, the last
/// marker value handed to the GPU for signaling, and whether a frame is
/// currently between `begin_frame` and `end_frame`.
#[verifier::ext_equal]
pub struct SchedView {
    pub slots: Seq<int>,
    pub frame: int,
    pub marker: int,
    pub in_frame: bool,
}

impl SchedView {
    /// The ring is nonempty and the frame index stays inside it.
    pub open spec fn wf(self) -> bool {
        &&& 0 < self.slots.len()
        &&& 0 <= self.frame < self.slots.len()
    }

    /// The marker the GPU must have completed before the current slot
    /// may be reused.
    pub open spec fn wait_target(self) -> int {
        self.slots[self.frame]
    }

    /// State change of `begin_frame`: the frame is now being recorded.
    pub open spec fn after_begin(self) -> SchedView {
        SchedView { in_frame: true, ..self }
    }

    /// State change of a successful `end_frame`: the marker counter
    /// advances, the new value becomes the used slot's target, and the
    /// ring moves to the next slot.
    pub open spec fn after_end(self) -> SchedView {
        SchedView {
            slots: self.slots.update(self.frame, self.marker + 1),
            frame: (self.frame + 1) % (self.slots.len() as int),
            marker: self.marker + 1,
            in_frame: false,
        }
    }

    /// `count` whole frames (`begin_frame` then successful `end_frame`)
    /// from this state.
    pub open spec fn after_frames(self, count: nat) -> SchedView
        decreases count,
    {
        if count == 0 {
            self
        } else {
            self.after_frames((count - 1) as nat).after_begin().after_end()
        }
    }
}

/// One whole frame advances the ring by one slot, signals a fresh
/// marker, and leaves every other slot's target untouched.
proof fn lemma_frames_advance(s: SchedView, j: int)
    requires
        s.wf(),
        !s.in_frame,
        1 <= j <= s.slots.len(),
    ensures
        s.after_frames(j as nat).slots.len() == s.slots.len(),
        s.after_frames(j as nat).frame == (s.frame + j) % (s.slots.len() as int),
        s.after_frames(j as nat).marker == s.marker + j,
        s.after_frames(j as nat).slots[s.frame] == s.marker + 1,
        !s.after_frames(j as nat).in_frame,
    decreases j,
{
    let count = s.slots.len() as int;
    vstd::arithmetic::div_mod::lemma_mod_bound(s.frame + j, count);
    if j == 1 {
        assert(s.after_frames(0) == s);
        assert(s.after_frames(1) == s.after_begin().after_end());
        assert(s.after_begin().after_end().slots[s.frame] == s.marker + 1);
    } else {
        lemma_frames_advance(s, j - 1);
        let t = s.after_frames((j - 1) as nat);
        assert(s.after_frames(j as nat) == t.after_begin().after_end());
        vstd::arithmetic::div_mod::lemma_add_mod_noop_right(1, s.frame + j - 1, count);
        assert((t.frame + 1) % count == (s.frame + j) % count);
        assert(t.frame != s.frame) by {
            lemma_partial_cycle_misses(s.frame, j - 1, count);
        }
        assert(t.after_begin().after_end().slots[s.frame] == t.slots[s.frame]);
    }
}

/// Fewer than a whole lap around a ring of `count` slots never returns
/// to the starting slot.
proof fn lemma_partial_cycle_misses(k: int, j: int, count: int)
    requires
        0 <= k < count,
        0 < j < count,
    ensures
        (k + j) % count != k,
{
    if k + j < count {
        vstd::arithmetic::div_mod::lemma_small_mod((k + j) as nat, count as nat);
    } else {
        vstd::arithmetic::div_mod::lemma_mod_sub_multiples_vanish(k + j, count);
        vstd::arithmetic::div_mod::lemma_small_mod((k + j - count) as nat, count as nat);
    }
}

/// The slot-reuse guard: starting between frames at slot `k`, the first
/// frame signals marker `s.marker + 1` and records it as slot `k`'s
/// target; none of the following `N - 1` frames runs on slot `k`; and
/// when the ring returns to `k` after `N` whole frames, the target it
/// must wait for is exactly that marker.  Since `begin_frame` demands
/// that the observed completed marker has reached the slot's recorded
/// target, no two `begin_frame` calls can return the same slot without
/// an intervening `end_frame` whose completion marker has been observed
/// reached.
pub proof fn lemma_slot_reuse_guarded(s: SchedView, j: int)
    requires
        s.wf(),
        !s.in_frame,
        1 <= j <= s.slots.len(),
    ensures
        s.after_frames(1).marker == s.marker + 1,
        s.after_frames(1).slots[s.frame] == s.marker + 1,
        j < s.slots.len() ==> s.after_frames(j as nat).frame != s.frame,
        j == s.slots.len() ==> s.after_frames(j as nat).frame == s.frame && s.after_frames(
            j as nat,
        ).wait_target() == s.marker + 1,
{
    let count = s.slots.len() as int;
    lemma_frames_advance(s, 1);
    lemma_frames_advance(s, j);
    if j < count {
        lemma_partial_cycle_misses(s.frame, j, count);
    } else {
        assert((s.frame + count) % count == s.frame) by {
            vstd::arithmetic::div_mod::lemma_mod_sub_multiples_vanish(s.frame + count, count);
            vstd::arithmetic::div_mod::lemma_small_mod(s.frame as nat, count as nat);
        }
    }
}

/// The frame-pacing state: one target marker per slot in a fixed ring.
pub struct FrameScheduler {
    slot_markers: Vec<u64>,
    frame_index: usize,
    marker: u64,
    in_frame: bool,
}

impl View for FrameScheduler {
    type V = SchedView;

    closed spec fn view(&self) -> SchedView {
        SchedView {
            slots: self.slot_markers@.map_values(|m: u64| m as int),
            frame: self.frame_index as int,
            marker: self.marker as int,
            in_frame: self.in_frame,
        }
    }
}

impl FrameScheduler {
    /// Every slot's target has already been handed to the GPU, so it is
    /// at most the marker counter; and the counter fits the exec type.
    pub open spec fn wf(&self) -> bool {
        &&& self@.wf()
        &&& forall|i: int| 0 <= i < self@.slots.len() ==> 0 <= #[trigger] self@.slots[i] <= self@.marker
        &&& 0 <= self@.marker <= u64::MAX
    }

    /// A scheduler over `slot_count` frame slots, none of them pending:
    /// every target marker is zero, the ring starts at slot zero.
    pub fn new(slot_count: usize) -> (r: FrameScheduler)
        requires
            0 < slot_count,
        ensures
            r.wf(),
            r@.slots == Seq::new(slot_count as nat, |i: int| 0int),
            r@.frame == 0,
            r@.marker == 0,
            !r@.in_frame,
    {
        let mut slot_markers: Vec<u64> = Vec::new();
        let mut i: usize = 0;
        while i < slot_count
            invariant
                i <= slot_count,
                slot_markers@.len() == i,
                forall|j: int| 0 <= j < i ==> #[trigger] slot_markers@[j] == 0u64,
            decreases slot_count - i,
        {
            slot_markers.push(0);
            i += 1;
        }
        let r = FrameScheduler { slot_markers, frame_index: 0, marker: 0, in_frame: false };
        proof {
            assert(r@.slots =~= Seq::new(slot_count as nat, |i: int| 0int));
        }
        r
    }

    /// The number of slots in the ring: how many frames may be in
    /// flight at once.
    pub fn slot_count(&self) -> (r: usize)
        ensures
            r == self@.slots.len(),
    {
        self.slot_markers.len()
    }

    /// The slot the ring is at: the slot an open frame runs on, or the
    /// one the next `begin_frame` will claim.
    pub fn current_slot(&self) -> (r: usize)
        ensures
            r == self@.frame,
    {
        self.frame_index
    }

    /// Whether a frame is currently open: begun and not yet ended.
    pub fn frame_open(&self) -> (r: bool)
        ensures
            r == self@.in_frame,
    {
        self.in_frame
    }

    /// The last marker value handed out for the GPU to signal.
    pub fn last_marker(&self) -> (r: u64)
        ensures
            r == self@.marker,
    {
        self.marker
    }

    /// The marker the GPU must have completed before the next
    /// `begin_frame` may reuse its slot.
    pub fn wait_target(&self) -> (r: u64)
        requires
            self.wf(),
        ensures
            r == self@.wait_target(),
    {
        self.slot_markers[self.frame_index]
    }

    /// Whether a `begin_frame` would be allowed once the GPU's completed
    /// marker reads `completed`: true exactly when the current slot's
    /// previous work has been observed finished.
    pub fn ready(&self, completed: u64) -> (r: bool)
        requires
            self.wf(),
        ensures
            r == (completed >= self@.wait_target()),
    {
        completed >= self.slot_markers[self.frame_index]
    }

    /// Claims the current slot for recording.  `completed` is the
    /// GPU's completed-marker value the driver observed after its
    /// blocking wait; it must have reached the slot's recorded target,
    /// so the slot's previous frame is finished and its resources are
    /// safe to rewrite.
    pub fn begin_frame(&mut self, completed: u64) -> (slot: usize)
        requires
            old(self).wf(),
            !old(self)@.in_frame,
            completed >= old(self)@.wait_target(),
        ensures
            final(self).wf(),
            final(self)@ == old(self)@.after_begin(),
            slot == old(self)@.frame,
    {
        self.in_frame = true;
        self.frame_index
    }

    /// Finishes the frame begun on `slot`, which must be the slot that
    /// `begin_frame` returned.  `presented` reports whether the backend
    /// accepted the presentation request.  On success the marker counter
    /// advances, the new value is returned for the driver to signal on
    /// the queue and recorded as the slot's target, and the ring moves
    /// on; on failure nothing changes and the error is surfaced for the
    /// driver to decide.
    pub fn end_frame(&mut self, slot: usize, presented: bool) -> (r: Result<u64, SchedulerError>)
        requires
            old(self).wf(),
            old(self)@.in_frame,
            slot == old(self)@.frame,
            old(self)@.marker < u64::MAX,
        ensures
            final(self).wf(),
            match r {
                Ok(signal) => {
                    &&& presented
                    &&& signal == old(self)@.marker + 1
                    &&& final(self)@ == old(self)@.after_end()
                },
                Err(e) => {
                    &&& !presented
                    &&& e == SchedulerError::PresentationFailure
                    &&& final(self)@ == old(self)@
                },
            },
    {
        if !presented {
            return Err(SchedulerError::PresentationFailure);
        }
        let count = self.slot_markers.len();
        let signal = self.marker + 1;
        self.marker = signal;
        self.slot_markers[slot] = signal;
        self.frame_index = if self.frame_index + 1 == count {
            0
        } else {
            self.frame_index + 1
        };
        self.in_frame = false;
        proof {
            if old(self)@.frame + 1 == count {
                vstd::arithmetic::div_mod::lemma_mod_self_0(count as int);
            } else {
                vstd::arithmetic::div_mod::lemma_small_mod(
                    (old(self)@.frame + 1) as nat,
                    count as nat,
                );
            }
            assert(self@ =~= old(self)@.after_end());
        }
        Ok(signal)
    }
}

} // verus!
