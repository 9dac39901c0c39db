//! The ring of screen buffers behind one object screen. One buffer is
//! visible; the next frame is painted on a hidden one, left to settle, then
//! swapped in, so players never watch a frame being painted.

use vstd::prelude::*;
use std::collections::VecDeque;
use crate::animation::Animation;
use crate::frame3d::{Frame3DMaterial, Frame3DMaterialLayer};
use crate::screen_buffer::{ScreenBuffer, staged, any_pending, took};

verus! {

/// How long a freshly painted hidden buffer waits before it may be swapped
/// in, so that paints still in flight land first (nanoseconds).
pub const SETTLE_NANOS: u64 = 30_000_000;

/// How long after a swap the next paint may start, so the frame just
/// swapped in gets a moment on screen first (nanoseconds).
pub const POST_SWAP_GRACE_NANOS: u64 = 80_000_000;

/// The least time a frame stays visible before the next swap, whatever
/// its own duration (nanoseconds).
pub const MIN_SWAP_INTERVAL_NANOS: u64 = 40_000_000;

/// The hidden buffer the next paint goes to: the one after the last
/// painted, in ring order, skipping the visible one.
pub open spec fn allocated(next_hidden: int, visible: int, count: int) -> int {
    if next_hidden % count != visible {
        next_hidden % count
    } else {
        (visible + 1) % count
    }
}

/// Time from `since` to `now`, or 0 for a clock reading before `since`.
pub open spec fn elapsed_since(since: u64, now: u64) -> int {
    if now >= since {
        now - since
    } else {
        0
    }
}

/// The buffers of one screen and where each stands: the visible one, the
/// one being painted, and the painted ones waiting to be swapped in (each
/// with the clock reading from which it may be, and how long its frame
/// lasts).
pub struct PaintRing {
    buffers: Vec<ScreenBuffer>,
    animation: Animation<Vec<Frame3DMaterial>>,
    painting_target: Option<usize>,
    painting_frame_duration: u64,
    ready_queue: VecDeque<(usize, u64, u64)>,
    next_hidden_index: usize,
    visible_index: usize,
}

impl PaintRing {
    /// What the screen shows over time.
    pub closed spec fn animation(&self) -> Animation<Vec<Frame3DMaterial>> {
        self.animation
    }

    pub closed spec fn buffers(&self) -> Seq<ScreenBuffer> {
        self.buffers@
    }

    pub closed spec fn painting(&self) -> Option<usize> {
        self.painting_target
    }

    pub closed spec fn painting_duration(&self) -> u64 {
        self.painting_frame_duration
    }

    pub closed spec fn ready(&self) -> Seq<(usize, u64, u64)> {
        self.ready_queue@
    }

    pub closed spec fn next_hidden(&self) -> usize {
        self.next_hidden_index
    }

    pub closed spec fn visible(&self) -> usize {
        self.visible_index
    }

    /// There are at least two buffers; neither the buffer being painted nor
    /// one waiting to be swapped in is the visible one.
    pub open spec fn wf(&self) -> bool {
        &&& self.buffers().len() >= 2
        &&& self.visible() < self.buffers().len()
        &&& self.painting() matches Some(t) ==> t < self.buffers().len() && t != self.visible()
        &&& forall|k: int|
            0 <= k < self.ready().len() ==> (#[trigger] self.ready()[k]).0 < self.buffers().len() && self.ready()[k].0
                != self.visible()
        &&& self.animation().wf()
    }

    /// A ring over `buffers`, the first visible, nothing painted yet, with
    /// no playback; the visible frame counts as put up at `now` for
    /// `frame_duration`.
    pub fn new(buffers: Vec<ScreenBuffer>, frame_duration: u64, now: u64) -> (ring: Self)
        requires
            buffers@.len() >= 2,
        ensures
            ring.wf(),
            ring.buffers() == buffers@,
            ring.painting() is None,
            ring.painting_duration() == frame_duration,
            ring.ready().len() == 0,
            ring.next_hidden() == 1,
            ring.visible() == 0,
            ring.animation().screen_animation is None,
            ring.animation().frame_duration == frame_duration,
            ring.animation().since == now,
    {
        PaintRing {
            buffers,
            animation: Animation::new(frame_duration, now),
            painting_target: None,
            painting_frame_duration: frame_duration,
            ready_queue: VecDeque::new(),
            next_hidden_index: 1,
            visible_index: 0,
        }
    }

    pub fn buffer(&self, index: usize) -> (buffer: &ScreenBuffer)
        requires
            index < self.buffers().len(),
        ensures
            *buffer == self.buffers()[index as int],
    {
        &self.buffers[index]
    }

    pub fn buffer_count(&self) -> (count: usize)
        ensures
            count == self.buffers().len(),
    {
        self.buffers.len()
    }

    pub fn painting_target(&self) -> (target: Option<usize>)
        ensures
            target == self.painting(),
    {
        self.painting_target
    }

    pub fn visible_index(&self) -> (index: usize)
        ensures
            index == self.visible(),
    {
        self.visible_index
    }

    /// Whether buffer `target` still has paints waiting.
    pub fn has_pending_paint(&self, target: usize) -> (pending: bool)
        requires
            target < self.buffers().len(),
        ensures
            pending == any_pending(self.buffers()[target as int]),
    {
        self.buffers[target].has_pending()
    }

    /// Takes up to `budget` paints off buffer `target`'s queues to be sent;
    /// see `ScreenBuffer::take_pending`.
    pub fn take_pending(&mut self, target: usize, budget: usize) -> (taken: Vec<Vec<Frame3DMaterialLayer>>)
        requires
            old(self).wf(),
            target < old(self).buffers().len(),
        ensures
            final(self).wf(),
            final(self).buffers().len() == old(self).buffers().len(),
            took(old(self).buffers()[target as int], final(self).buffers()[target as int], taken@, budget as int),
            forall|i: int|
                0 <= i < old(self).buffers().len() && i != target ==> #[trigger] final(self).buffers()[i]
                    == old(self).buffers()[i],
            final(self).painting() == old(self).painting(),
            final(self).ready() == old(self).ready(),
            final(self).visible() == old(self).visible(),
            final(self).next_hidden() == old(self).next_hidden(),
            final(self).animation() == old(self).animation(),
    {
        let taken = self.buffers[target].take_pending(budget);
        assert(self.ready() == old(self).ready());
        taken
    }

    /// Picks the hidden buffer to paint next and moves the cursor past it.
    pub fn allocate_paint_target(&mut self) -> (target: usize)
        requires
            old(self).wf(),
        ensures
            target == allocated(old(self).next_hidden() as int, old(self).visible() as int, old(self).buffers().len() as int),
            target < old(self).buffers().len(),
            target != old(self).visible(),
            final(self).next_hidden() == target + 1,
            final(self).buffers() == old(self).buffers(),
            final(self).painting() == old(self).painting(),
            final(self).painting_duration() == old(self).painting_duration(),
            final(self).ready() == old(self).ready(),
            final(self).visible() == old(self).visible(),
            final(self).animation() == old(self).animation(),
            final(self).wf(),
    {
        let count = self.buffers.len();
        let index = self.next_hidden_index % count;
        self.next_hidden_index = index + 1;
        if index != self.visible_index {
            assert(self.ready() == old(self).ready());
            return index;
        }
        let index = self.next_hidden_index % count;
        self.next_hidden_index = index + 1;
        proof {
            let v = self.visible_index as int;
            if v + 1 < count {
                vstd::arithmetic::div_mod::lemma_small_mod((v + 1) as nat, count as nat);
            } else {
                vstd::arithmetic::div_mod::lemma_mod_self_0(count as int);
            }
        }
        assert(self.ready() == old(self).ready());
        index
    }

    /// Ends the paint in progress, if any: its buffer waits `SETTLE_NANOS`
    /// from `now` before it may be swapped in.
    pub fn finish_paint(&mut self, now: u64)
        requires
            old(self).wf(),
            now + SETTLE_NANOS <= u64::MAX,
        ensures
            final(self).wf(),
            final(self).painting() is None,
            final(self).ready() == match old(self).painting() {
                Some(t) => old(self).ready().push((t, (now + SETTLE_NANOS) as u64, old(self).painting_duration())),
                None => old(self).ready(),
            },
            final(self).buffers() == old(self).buffers(),
            final(self).visible() == old(self).visible(),
            final(self).next_hidden() == old(self).next_hidden(),
            final(self).painting_duration() == old(self).painting_duration(),
            final(self).animation() == old(self).animation(),
    {
        if let Some(target) = self.painting_target.take() {
            let duration = self.painting_frame_duration;
            self.ready_queue.push_back((target, now + SETTLE_NANOS, duration));
            assert(self.ready() == old(self).ready().push((target, (now + SETTLE_NANOS) as u64, duration)));
        }
        assert(forall|k: int| 0 <= k < old(self).ready().len() ==> #[trigger] self.ready()[k] == old(self).ready()[k]);
    }

    /// Keeps only the freshest buffer waiting to be swapped in, and names it
    /// when it may be swapped in at `now`: it has settled, and the visible
    /// frame has been up for its duration and for `MIN_SWAP_INTERVAL_NANOS`.
    pub fn swap_candidate(&mut self, now: u64) -> (candidate: Option<usize>)
        requires
            old(self).wf(),
        ensures
            final(self).wf(),
            final(self).ready() == if old(self).ready().len() > 1 {
                seq![old(self).ready().last()]
            } else {
                old(self).ready()
            },
            candidate is Some <==> {
                &&& final(self).ready().len() == 1
                &&& now >= final(self).ready()[0].1
                &&& elapsed_since(old(self).animation().since, now) >= old(self).animation().frame_duration
                &&& elapsed_since(old(self).animation().since, now) >= MIN_SWAP_INTERVAL_NANOS
            },
            candidate matches Some(t) ==> t == final(self).ready()[0].0,
            final(self).buffers() == old(self).buffers(),
            final(self).painting() == old(self).painting(),
            final(self).painting_duration() == old(self).painting_duration(),
            final(self).visible() == old(self).visible(),
            final(self).next_hidden() == old(self).next_hidden(),
            final(self).animation() == old(self).animation(),
    {
        let ghost start = self.ready_queue@;
        while self.ready_queue.len() > 1
            invariant
                self.wf(),
                self.ready_queue@.len() >= 1 ==> self.ready_queue@.last() == start.last(),
                start.len() > 1 ==> self.ready_queue@.len() >= 1,
                start.len() <= 1 ==> self.ready_queue@ == start,
                self.buffers@ == old(self).buffers(),
                self.painting_target == old(self).painting(),
                self.painting_frame_duration == old(self).painting_duration(),
                self.visible_index == old(self).visible(),
                self.next_hidden_index == old(self).next_hidden(),
                self.animation == old(self).animation(),
            decreases self.ready_queue@.len(),
        {
            let ghost before = self.ready();
            let _ = self.ready_queue.pop_front();
            assert(self.ready() =~= before.subrange(1, before.len() as int));
            assert(forall|k: int| 0 <= k < self.ready().len() ==> #[trigger] self.ready()[k] == before[k + 1]);
        }
        proof {
            if start.len() > 1 {
                assert(self.ready_queue@ =~= seq![start.last()]);
            }
        }
        if self.ready_queue.len() == 0 {
            return None;
        }
        let front = self.ready_queue[0];
        let (target, ready_at, _) = front;
        let since = self.animation.since;
        let frame_elapsed = if now >= since { now - since } else { 0 };
        let min_visible = if self.animation.frame_duration > MIN_SWAP_INTERVAL_NANOS {
            self.animation.frame_duration
        } else {
            MIN_SWAP_INTERVAL_NANOS
        };
        if now < ready_at || frame_elapsed < min_visible {
            return None;
        }
        Some(target)
    }

    /// Swaps in the buffer waiting at the front of the queue, at `now`.
    /// When the buffers were `moved` into place it becomes the visible one;
    /// either way its frame counts as put up at `now` for its duration.
    pub fn complete_swap(&mut self, now: u64, moved: bool)
        requires
            old(self).wf(),
            old(self).ready().len() == 1,
            old(self).painting() is None,
        ensures
            final(self).wf(),
            final(self).ready().len() == 0,
            final(self).visible() == if moved { old(self).ready()[0].0 } else { old(self).visible() },
            final(self).animation().since == now,
            final(self).animation().frame_duration == old(self).ready()[0].2,
            final(self).animation().screen_animation == old(self).animation().screen_animation,
            final(self).buffers() == old(self).buffers(),
            final(self).painting() is None,
            final(self).painting_duration() == old(self).painting_duration(),
            final(self).next_hidden() == old(self).next_hidden(),
    {
        let front = self.ready_queue.pop_front();
        match front {
            Some((target, _, duration)) => {
                if moved {
                    self.visible_index = target;
                }
                self.animation.since = now;
                self.animation.frame_duration = duration;
            },
            None => {},
        }
    }

    /// Whether a new paint may start at `now`: nothing is being painted or
    /// waiting to be swapped in, and the last swap is `POST_SWAP_GRACE_NANOS`
    /// old.
    pub fn may_start_paint(&self, now: u64) -> (may: bool)
        ensures
            may == (self.ready().len() == 0 && self.painting() is None && elapsed_since(self.animation().since, now)
                >= POST_SWAP_GRACE_NANOS),
    {
        if self.ready_queue.len() > 0 || self.painting_target.is_some() {
            return false;
        }
        let since = self.animation.since;
        let frame_elapsed = if now >= since { now - since } else { 0 };
        frame_elapsed >= POST_SWAP_GRACE_NANOS
    }

    /// Starts painting `frame` on the next hidden buffer. A frame with
    /// nothing to paint is ready at once and waits `SETTLE_NANOS` from `now`
    /// like any other.
    pub fn start_frame(&mut self, frame: Vec<Frame3DMaterial>, duration: u64, now: u64)
        requires
            old(self).wf(),
            now + SETTLE_NANOS <= u64::MAX,
        ensures
            final(self).wf(),
            ({
                let t = allocated(old(self).next_hidden() as int, old(self).visible() as int, old(self).buffers().len() as int);
                &&& final(self).next_hidden() == t + 1
                &&& final(self).buffers().len() == old(self).buffers().len()
                &&& staged(old(self).buffers()[t], final(self).buffers()[t], frame@)
                &&& forall|i: int|
                    0 <= i < old(self).buffers().len() && i != t ==> #[trigger] final(self).buffers()[i]
                        == old(self).buffers()[i]
                &&& if any_pending(final(self).buffers()[t]) {
                    &&& final(self).painting() == Some(t as usize)
                    &&& final(self).painting_duration() == duration
                    &&& final(self).ready() == old(self).ready()
                } else {
                    &&& final(self).painting() is None
                    &&& final(self).ready() == old(self).ready().push((t as usize, (now + SETTLE_NANOS) as u64, duration))
                }
            }),
            final(self).visible() == old(self).visible(),
            final(self).animation() == old(self).animation(),
    {
        let target = self.allocate_paint_target();
        self.painting_target = Some(target);
        self.painting_frame_duration = duration;
        self.buffers[target].stage_paint(&frame);
        if !self.buffers[target].has_pending() {
            self.painting_target = None;
            self.ready_queue.push_back((target, now + SETTLE_NANOS, duration));
            assert(self.ready() == old(self).ready().push((target, (now + SETTLE_NANOS) as u64, duration)));
        }
        assert(forall|k: int| 0 <= k < old(self).ready().len() ==> #[trigger] self.ready()[k] == old(self).ready()[k]);
    }

    /// When a paint may start at `now` and playback has moved onto a new
    /// frame, starts painting a copy of that frame; says whether it did.
    pub fn start_next_paint(&mut self, now: u64) -> (started: bool)
        requires
            old(self).wf(),
            now + SETTLE_NANOS <= u64::MAX,
        ensures
            final(self).wf(),
            started == (old(self).ready().len() == 0 && old(self).painting() is None && elapsed_since(
                old(self).animation().since,
                now,
            ) >= POST_SWAP_GRACE_NANOS && (old(self).animation().screen_animation matches Some(a) && a.advances_at(now))),
            !started ==> final(self).buffers() == old(self).buffers() && final(self).ready() == old(self).ready()
                && final(self).painting() == old(self).painting(),
            started ==> ({
                let t = allocated(old(self).next_hidden() as int, old(self).visible() as int, old(self).buffers().len() as int);
                let a = old(self).animation().screen_animation->0;
                let index = a.playing_index(now);
                &&& 0 <= index < a.frames().len()
                &&& exists|frame: Vec<Frame3DMaterial>|
                    cloned(a.frames()[index].0, frame) && staged(old(self).buffers()[t], final(self).buffers()[t], frame@)
                &&& forall|i: int|
                    0 <= i < old(self).buffers().len() && i != t ==> #[trigger] final(self).buffers()[i]
                        == old(self).buffers()[i]
                &&& final(self).next_hidden() == t + 1
                &&& if any_pending(final(self).buffers()[t]) {
                    &&& final(self).painting() == Some(t as usize)
                    &&& final(self).painting_duration() == a.frames()[index].1
                    &&& final(self).ready() == old(self).ready()
                } else {
                    &&& final(self).painting() is None
                    &&& final(self).ready() == old(self).ready().push((t as usize, (now + SETTLE_NANOS) as u64, a.frames()[index].1))
                }
            }),
            final(self).visible() == old(self).visible(),
            final(self).animation().since == old(self).animation().since,
            final(self).animation().frame_duration == old(self).animation().frame_duration,
    {
        if !self.may_start_paint(now) {
            return false;
        }
        if !self.animation.should_build_next_frame(now) {
            return false;
        }
        let ghost a = old(self).animation().screen_animation->0;
        let built = self.animation.build_animation_frame(now);
        match built {
            Some((frame, duration)) => {
                let ghost f = frame;
                self.start_frame(frame, duration, now);
                assert(cloned(a.frames()[a.playing_index(now)].0, f));
                true
            },
            None => {
                assert(false);
                false
            },
        }
    }
}


impl PaintRing {
    /// Makes `screen_animation` the playback the frames come from.
    pub fn set_animation(&mut self, screen_animation: crate::animation::ScreenAnimation<Vec<Frame3DMaterial>>)
        requires
            old(self).wf(),
            screen_animation.wf(),
        ensures
            final(self).wf(),
            final(self).animation().screen_animation == Some(screen_animation),
            final(self).animation().since == old(self).animation().since,
            final(self).animation().frame_duration == old(self).animation().frame_duration,
            final(self).buffers() == old(self).buffers(),
            final(self).painting() == old(self).painting(),
            final(self).ready() == old(self).ready(),
            final(self).visible() == old(self).visible(),
            final(self).next_hidden() == old(self).next_hidden(),
    {
        self.animation.set_animation(screen_animation);
        assert(self.ready() == old(self).ready());
    }

    /// Appends a decoded frame to the playback, if there is one; says
    /// whether there was.
    pub fn ingest_frame(&mut self, frame: Vec<Frame3DMaterial>, delay: u64) -> (ingested: bool)
        requires
            old(self).wf(),
            old(self).animation().screen_animation matches Some(a) ==> a.total() + delay <= u64::MAX
                && !a.source_done(),
        ensures
            final(self).wf(),
            ingested == old(self).animation().screen_animation is Some,
            match (old(self).animation().screen_animation, final(self).animation().screen_animation) {
                (Some(a), Some(b)) => b.frames() == a.frames().push((frame, delay)) && b.total() == a.total() + delay
                    && b.loops() == a.loops() && b.source_done() == a.source_done(),
                (None, None) => true,
                _ => false,
            },
            final(self).animation().since == old(self).animation().since,
            final(self).animation().frame_duration == old(self).animation().frame_duration,
            final(self).buffers() == old(self).buffers(),
            final(self).painting() == old(self).painting(),
            final(self).ready() == old(self).ready(),
            final(self).visible() == old(self).visible(),
    {
        match self.animation.screen_animation.as_mut() {
            Some(animation) => {
                animation.ingest_frame(frame, delay);
                assert(self.ready() == old(self).ready());
                true
            },
            None => false,
        }
    }

    /// The total duration of the frames received so far, if there is a
    /// playback.
    pub fn received_duration(&self) -> (total: Option<u64>)
        ensures
            match self.animation().screen_animation {
                Some(a) => total == Some(a.total() as u64) && a.total() <= u64::MAX,
                None => total is None,
            },
    {
        match self.animation.screen_animation.as_ref() {
            Some(animation) => Some(animation.total_duration()),
            None => None,
        }
    }

    /// Whether the playback's decoder has finished sending frames (`false`
    /// without a playback).
    pub fn stream_finished(&self) -> (done: bool)
        ensures
            done == match self.animation().screen_animation {
                Some(a) => a.source_done(),
                None => false,
            },
    {
        match self.animation.screen_animation.as_ref() {
            Some(animation) => animation.stream_finished(),
            None => false,
        }
    }

    /// Marks the playback's decoder as finished, if there is a playback.
    pub fn finish_stream(&mut self)
        requires
            old(self).wf(),
        ensures
            final(self).wf(),
            match (old(self).animation().screen_animation, final(self).animation().screen_animation) {
                (Some(a), Some(b)) => b.frames() == a.frames() && b.total() == a.total() && b.source_done()
                    && b.loops() == a.loops(),
                (None, None) => true,
                _ => false,
            },
            final(self).animation().since == old(self).animation().since,
            final(self).animation().frame_duration == old(self).animation().frame_duration,
            final(self).buffers() == old(self).buffers(),
            final(self).painting() == old(self).painting(),
            final(self).ready() == old(self).ready(),
            final(self).visible() == old(self).visible(),
    {
        match self.animation.screen_animation.as_mut() {
            Some(animation) => {
                animation.finish_stream();
                assert(self.ready() == old(self).ready());
            },
            None => {},
        }
    }
}

} // verus!
