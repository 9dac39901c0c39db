//! Playback state of decoded media: which frame is current at a given time
//! and for how long. Times and durations are nanoseconds; the clock is
//! whatever monotonic time the caller reads (`now`), so the decisions here
//! do not depend on reading a clock themselves.

use vstd::prelude::*;

verus! {

/// Sum of the first `n` durations.
pub open spec fn prefix_sum(delays: Seq<u64>, n: int) -> int
    decreases n,
{
    if n <= 0 {
        0
    } else {
        prefix_sum(delays, n - 1) + delays[n - 1]
    }
}

/// Non-decreasing order.
pub open spec fn ascending(s: Seq<u64>) -> bool {
    forall|i: int, j: int| 0 <= i <= j < s.len() ==> #[trigger] s[i] <= #[trigger] s[j]
}

/// The first index from `i` on whose start lies after `elapsed` (the
/// length when there is none).
pub open spec fn first_after(starts: Seq<u64>, elapsed: int, i: int) -> int
    decreases starts.len() - i,
{
    if i >= starts.len() {
        starts.len() as int
    } else if starts[i] > elapsed {
        i
    } else {
        first_after(starts, elapsed, i + 1)
    }
}

/// The point of the timeline that `elapsed` maps to: wrapped around the
/// total when looping, held just before the end otherwise.
pub open spec fn elapsed_in_range(total: int, elapsed: int, loops: bool) -> int {
    if loops {
        elapsed % total
    } else if elapsed < total - 1 {
        elapsed
    } else {
        total - 1
    }
}

/// The frame playing at `elapsed`: the last frame that has started by then
/// (frame 0 when the timeline is empty).
pub open spec fn frame_index_spec(starts: Seq<u64>, total: int, elapsed: int, loops: bool) -> int {
    if total == 0 || starts.len() == 0 {
        0
    } else {
        let p = first_after(starts, elapsed_in_range(total, elapsed, loops), 0);
        if p == 0 { 0 } else { p - 1 }
    }
}

proof fn lemma_first_after_is(starts: Seq<u64>, elapsed: int, p: int, i: int)
    requires
        0 <= i <= p <= starts.len(),
        forall|k: int| 0 <= k < p ==> #[trigger] starts[k] <= elapsed,
        p < starts.len() ==> starts[p] > elapsed,
    ensures
        first_after(starts, elapsed, i) == p,
    decreases starts.len() - i,
{
    if i < p {
        lemma_first_after_is(starts, elapsed, p, i + 1);
    }
}

/// Index of the frame that is playing `elapsed` nanoseconds into a timeline
/// whose frames start at `cumulative_start` and which lasts
/// `total_duration`.
pub fn frame_index_for_elapsed(cumulative_start: &[u64], total_duration: u64, elapsed: u64, loops: bool) -> (index: usize)
    requires
        ascending(cumulative_start@),
    ensures
        index == frame_index_spec(cumulative_start@, total_duration as int, elapsed as int, loops),
        cumulative_start@.len() > 0 ==> index < cumulative_start@.len(),
{
    if total_duration == 0 || cumulative_start.len() == 0 {
        return 0;
    }
    let in_range = if loops {
        elapsed % total_duration
    } else if elapsed < total_duration - 1 {
        elapsed
    } else {
        total_duration - 1
    };
    let ghost e = in_range as int;
    assert(e == elapsed_in_range(total_duration as int, elapsed as int, loops));
    let mut lo: usize = 0;
    let mut hi: usize = cumulative_start.len();
    while lo < hi
        invariant
            e == in_range,
            ascending(cumulative_start@),
            0 <= lo <= hi <= cumulative_start@.len(),
            forall|k: int| 0 <= k < lo ==> #[trigger] cumulative_start@[k] <= e,
            forall|k: int| hi <= k < cumulative_start@.len() ==> #[trigger] cumulative_start@[k] > e,
        decreases hi - lo,
    {
        let mid = lo + (hi - lo) / 2;
        if cumulative_start[mid] <= in_range {
            proof {
                assert forall|k: int| 0 <= k < mid + 1 implies #[trigger] cumulative_start@[k] <= e by {
                    assert(cumulative_start@[k] <= cumulative_start@[mid as int]);
                }
            }
            lo = mid + 1;
        } else {
            proof {
                assert forall|k: int| mid <= k < cumulative_start@.len() implies #[trigger] cumulative_start@[k] > e by {
                    assert(cumulative_start@[mid as int] <= cumulative_start@[k]);
                }
            }
            hi = mid;
        }
    }
    proof {
        lemma_first_after_is(cumulative_start@, e, lo as int, 0);
    }
    if lo == 0 { 0 } else { lo - 1 }
}

/// Later moments of a timeline that does not loop never show an earlier
/// frame.
pub proof fn lemma_frame_index_monotonic(starts: Seq<u64>, total: int, e1: int, e2: int)
    requires
        ascending(starts),
        0 <= e1 <= e2,
    ensures
        frame_index_spec(starts, total, e1, false) <= frame_index_spec(starts, total, e2, false),
{
    if total != 0 && starts.len() != 0 {
        let a = elapsed_in_range(total, e1, false);
        let b = elapsed_in_range(total, e2, false);
        assert(a <= b);
        lemma_first_after_mono(starts, a, b, 0);
    }
}

proof fn lemma_first_after_mono(starts: Seq<u64>, a: int, b: int, i: int)
    requires
        a <= b,
        0 <= i <= starts.len(),
    ensures
        first_after(starts, a, i) <= first_after(starts, b, i),
    decreases starts.len() - i,
{
    if i < starts.len() {
        lemma_first_after_mono(starts, a, b, i + 1);
        if starts[i] > a {
            lemma_first_after_ge(starts, b, i);
        }
    }
}

proof fn lemma_first_after_ge(starts: Seq<u64>, e: int, i: int)
    requires
        0 <= i <= starts.len(),
    ensures
        i <= first_after(starts, e, i) <= starts.len(),
    decreases starts.len() - i,
{
    if i < starts.len() {
        lemma_first_after_ge(starts, e, i + 1);
    }
}

/// A looping timeline shows the same frame one full loop later.
pub proof fn lemma_frame_index_periodic(starts: Seq<u64>, total: int, elapsed: int)
    requires
        total > 0,
        elapsed >= 0,
    ensures
        frame_index_spec(starts, total, elapsed + total, true) == frame_index_spec(starts, total, elapsed, true),
{
    vstd::arithmetic::div_mod::lemma_mod_add_multiples_vanish(elapsed, total);
}

/// Decoded media's playback state: the frames received so far with their
/// durations, where each starts on the timeline, and whether and when
/// playback started. It does not know what kind of screen consumes it.
pub struct ScreenAnimation<Frame> {
    frames: Vec<(Frame, u64)>,
    cumulative_start: Vec<u64>,
    total_duration: u64,
    started_at: u64,
    last_scheduled_frame_index: Option<usize>,
    loops: bool,
    source_done: bool,
    playback_started: bool,
}

impl<Frame: Clone> ScreenAnimation<Frame> {
    /// The frames received so far.
    pub closed spec fn frames(&self) -> Seq<(Frame, u64)> {
        self.frames@
    }

    /// Their durations.
    pub closed spec fn delays(&self) -> Seq<u64> {
        self.frames@.map_values(|f: (Frame, u64)| f.1)
    }

    /// Where each frame starts on the timeline.
    pub closed spec fn starts(&self) -> Seq<u64> {
        self.cumulative_start@
    }

    pub closed spec fn total(&self) -> int {
        self.total_duration as int
    }

    pub closed spec fn loops(&self) -> bool {
        self.loops
    }

    pub closed spec fn source_done(&self) -> bool {
        self.source_done
    }

    pub closed spec fn playback_started(&self) -> bool {
        self.playback_started
    }

    pub closed spec fn started_at(&self) -> int {
        self.started_at as int
    }

    pub closed spec fn last_scheduled(&self) -> Option<usize> {
        self.last_scheduled_frame_index
    }

    /// Every frame starts where the frames before it end, and the total is
    /// the sum of all durations.
    pub closed spec fn wf(&self) -> bool {
        &&& self.cumulative_start@.len() == self.frames@.len()
        &&& forall|i: int|
            0 <= i < self.frames@.len() ==> #[trigger] self.cumulative_start@[i] == prefix_sum(self.delays(), i)
        &&& self.total_duration == prefix_sum(self.delays(), self.frames@.len() as int)
    }

    /// Whether a frame is playable now: something has arrived, and a
    /// looping clip has been received whole.
    pub open spec fn ready_spec(&self) -> bool {
        self.frames().len() > 0 && (!self.loops() || self.source_done())
    }

    /// Time since playback started, at clock reading `now` (0 for a clock
    /// reading before it).
    pub open spec fn elapsed_at(&self, now: u64) -> int {
        if now >= self.started_at() { now - self.started_at() } else { 0 }
    }

    /// The frame playing at clock reading `now`.
    pub open spec fn index_at(&self, now: u64) -> int {
        frame_index_spec(self.starts(), self.total(), self.elapsed_at(now), self.loops())
    }

    /// When playback counts as started for a tick at `now`: when it did
    /// start, or `now` if it has not started yet.
    pub open spec fn start_time_for(&self, now: u64) -> int {
        if self.playback_started() {
            self.started_at()
        } else {
            now as int
        }
    }

    /// The frame that a tick at `now` plays.
    pub open spec fn playing_index(&self, now: u64) -> int {
        frame_index_spec(
            self.starts(),
            self.total(),
            if now >= self.start_time_for(now) { now - self.start_time_for(now) } else { 0 },
            self.loops(),
        )
    }

    /// A tick at `now` moves playback onto a frame not scheduled yet.
    pub open spec fn advances_at(&self, now: u64) -> bool {
        &&& self.ready_spec()
        &&& (if self.playback_started() { self.last_scheduled() } else { None }) != Some(self.playing_index(now) as usize)
    }

    pub fn from_frame_stream(loops: bool) -> (animation: Self)
        ensures
            animation.wf(),
            animation.frames().len() == 0,
            animation.starts().len() == 0,
            animation.total() == 0,
            animation.loops() == loops,
            !animation.source_done(),
            !animation.playback_started(),
            animation.last_scheduled() is None,
    {
        ScreenAnimation {
            frames: Vec::new(),
            cumulative_start: Vec::new(),
            total_duration: 0,
            started_at: 0,
            last_scheduled_frame_index: None,
            loops,
            source_done: false,
            playback_started: false,
        }
    }

    proof fn lemma_prefix_sum_push(delays: Seq<u64>, d: u64, i: int)
        requires
            0 <= i <= delays.len(),
        ensures
            prefix_sum(delays.push(d), i) == prefix_sum(delays, i),
        decreases i,
    {
        if i > 0 {
            Self::lemma_prefix_sum_push(delays, d, i - 1);
        }
    }

    /// Appends a frame received from the decoder; once the decoder has
    /// finished, no frame arrives any more and the frames stay as they are.
    pub fn ingest_frame(&mut self, frame: Frame, delay: u64)
        requires
            old(self).wf(),
            !old(self).source_done(),
            old(self).total() + delay <= u64::MAX,
        ensures
            final(self).wf(),
            final(self).frames() == old(self).frames().push((frame, delay)),
            final(self).starts() == old(self).starts().push(old(self).total() as u64),
            final(self).total() == old(self).total() + delay,
            final(self).loops() == old(self).loops(),
            final(self).source_done() == old(self).source_done(),
            final(self).playback_started() == old(self).playback_started(),
            final(self).started_at() == old(self).started_at(),
            final(self).last_scheduled() == old(self).last_scheduled(),
    {
        let ghost old_delays = self.delays();
        self.cumulative_start.push(self.total_duration);
        self.total_duration = self.total_duration + delay;
        self.frames.push((frame, delay));
        proof {
            assert(self.delays() =~= old_delays.push(delay));
            assert forall|i: int| 0 <= i < self.frames@.len() implies #[trigger] self.cumulative_start@[i] == prefix_sum(
                self.delays(),
                i,
            ) by {
                Self::lemma_prefix_sum_push(old_delays, delay, i);
            }
            Self::lemma_prefix_sum_push(old_delays, delay, old_delays.len() as int);
        }
    }

    /// Marks the decoder as finished: no more frames will arrive.
    pub fn finish_stream(&mut self)
        ensures
            final(self).frames() == old(self).frames(),
            final(self).starts() == old(self).starts(),
            final(self).total() == old(self).total(),
            final(self).wf() == old(self).wf(),
            final(self).source_done(),
            final(self).loops() == old(self).loops(),
            final(self).playback_started() == old(self).playback_started(),
            final(self).started_at() == old(self).started_at(),
            final(self).last_scheduled() == old(self).last_scheduled(),
    {
        self.source_done = true;
    }

    /// Whether the decoder has finished sending frames.
    pub fn stream_finished(&self) -> (done: bool)
        ensures
            done == self.source_done(),
    {
        self.source_done
    }

    pub fn ready_to_play(&self) -> (ready: bool)
        ensures
            ready == self.ready_spec(),
    {
        !self.frames.is_empty() && (!self.loops || self.source_done)
    }

    /// Starts the playback clock at `now`, unless it is already running.
    pub fn ensure_playback_started(&mut self, now: u64)
        ensures
            final(self).frames() == old(self).frames(),
            final(self).starts() == old(self).starts(),
            final(self).total() == old(self).total(),
            final(self).wf() == old(self).wf(),
            final(self).loops() == old(self).loops(),
            final(self).source_done() == old(self).source_done(),
            final(self).playback_started(),
            old(self).playback_started() ==> final(self).started_at() == old(self).started_at()
                && final(self).last_scheduled() == old(self).last_scheduled(),
            !old(self).playback_started() ==> final(self).started_at() == now && final(self).last_scheduled() is None,
    {
        if self.playback_started {
            return;
        }
        self.started_at = now;
        self.last_scheduled_frame_index = None;
        self.playback_started = true;
    }

    proof fn lemma_starts_ascending(&self)
        requires
            self.wf(),
        ensures
            ascending(self.starts()),
    {
        assert forall|i: int, j: int| 0 <= i <= j < self.starts().len() implies #[trigger] self.starts()[i]
            <= #[trigger] self.starts()[j] by {
            lemma_prefix_sum_mono(self.delays(), i, j);
        }
    }

    /// The frame playing at clock reading `now`.
    pub fn frame_index_at(&self, now: u64) -> (index: usize)
        requires
            self.wf(),
        ensures
            index == self.index_at(now),
            self.frames().len() > 0 ==> index < self.frames().len(),
    {
        proof {
            self.lemma_starts_ascending();
        }
        let elapsed = now.saturating_sub(self.started_at);
        frame_index_for_elapsed(self.cumulative_start.as_slice(), self.total_duration, elapsed, self.loops)
    }

    /// Starts playback if it is due and reports whether the timeline has
    /// moved onto a frame not yet scheduled, so the same still-current
    /// frame is not painted again every tick.
    pub fn should_build_next_frame(&mut self, now: u64) -> (advanced: bool)
        requires
            old(self).wf(),
        ensures
            final(self).wf(),
            final(self).frames() == old(self).frames(),
            final(self).starts() == old(self).starts(),
            final(self).total() == old(self).total(),
            final(self).loops() == old(self).loops(),
            final(self).source_done() == old(self).source_done(),
            advanced == old(self).advances_at(now),
            !old(self).ready_spec() ==> !advanced && *final(self) == *old(self),
            old(self).ready_spec() ==> {
                let started = if old(self).playback_started() { old(self).started_at() } else { now as int };
                let previous = if old(self).playback_started() { old(self).last_scheduled() } else { None };
                let index = frame_index_spec(
                    old(self).starts(),
                    old(self).total(),
                    if now >= started { now - started } else { 0 },
                    old(self).loops(),
                );
                &&& final(self).playback_started()
                &&& final(self).started_at() == started
                &&& advanced == (previous != Some(index as usize))
                &&& final(self).last_scheduled() == Some(index as usize)
            },
    {
        if !self.ready_to_play() {
            return false;
        }
        self.ensure_playback_started(now);
        let current_frame_index = self.frame_index_at(now);
        let frame_advanced = Some(current_frame_index) != self.last_scheduled_frame_index;
        if frame_advanced {
            self.last_scheduled_frame_index = Some(current_frame_index);
        }
        frame_advanced
    }

    /// Starts playback if it is due and hands out a copy of the frame
    /// playing at `now`, with how long it lasts.
    pub fn build_frame(&mut self, now: u64) -> (result: Option<(Frame, u64)>)
        requires
            old(self).wf(),
        ensures
            final(self).wf(),
            final(self).frames() == old(self).frames(),
            final(self).starts() == old(self).starts(),
            final(self).total() == old(self).total(),
            final(self).loops() == old(self).loops(),
            final(self).source_done() == old(self).source_done(),
            old(self).ready_spec() ==> final(self).playback_started() && final(self).started_at() == old(self).start_time_for(now),
            !old(self).ready_spec() ==> *final(self) == *old(self),
            final(self).last_scheduled() == (if old(self).ready_spec() && !old(self).playback_started() {
                None
            } else {
                old(self).last_scheduled()
            }),
            result is Some <==> old(self).ready_spec(),
            result matches Some((frame, duration)) ==> {
                let started = if old(self).playback_started() { old(self).started_at() } else { now as int };
                let index = frame_index_spec(
                    old(self).starts(),
                    old(self).total(),
                    if now >= started { now - started } else { 0 },
                    old(self).loops(),
                );
                &&& final(self).playback_started()
                &&& final(self).started_at() == started
                &&& 0 <= index < old(self).frames().len()
                &&& cloned(old(self).frames()[index].0, frame)
                &&& duration == old(self).frames()[index].1
            },
    {
        if !self.ready_to_play() {
            return None;
        }
        self.ensure_playback_started(now);
        let frame_index = self.frame_index_at(now);
        let count = self.cumulative_start.len();
        let (frame, delay) = &self.frames[frame_index];
        let duration = if frame_index + 1 < count {
            proof {
                assert(self.cumulative_start@[frame_index + 1] == prefix_sum(self.delays(), frame_index + 1));
                assert(self.delays()[frame_index as int] == *delay);
                lemma_prefix_sum_mono(self.delays(), frame_index + 1, self.frames@.len() as int);
            }
            self.cumulative_start[frame_index + 1] - self.cumulative_start[frame_index]
        } else {
            *delay
        };
        Some((frame.clone(), duration))
    }
}

/// Sums of non-negative durations grow with the number of terms.
proof fn lemma_prefix_sum_mono(delays: Seq<u64>, i: int, j: int)
    requires
        0 <= i <= j <= delays.len(),
    ensures
        prefix_sum(delays, i) <= prefix_sum(delays, j),
    decreases j - i,
{
    if i < j {
        lemma_prefix_sum_mono(delays, i, j - 1);
    }
}


/// What a screen shows over time: the playback it draws its frames from,
/// if any yet, the clock reading at which the frame on screen was put up
/// and how long that frame lasts.
pub struct Animation<Frame> {
    pub frame_duration: u64,
    pub screen_animation: Option<ScreenAnimation<Frame>>,
    pub since: u64,
}

impl<Frame: Clone> Animation<Frame> {
    pub open spec fn wf(&self) -> bool {
        self.screen_animation matches Some(a) ==> a.wf()
    }

    /// No playback yet; the first frame counts as put up at `now`.
    pub fn new(frame_duration: u64, now: u64) -> (animation: Self)
        ensures
            animation.wf(),
            animation.frame_duration == frame_duration,
            animation.screen_animation is None,
            animation.since == now,
    {
        Animation { frame_duration, screen_animation: None, since: now }
    }

    /// Makes `screen_animation` the playback the frames come from.
    pub fn set_animation(&mut self, screen_animation: ScreenAnimation<Frame>)
        ensures
            final(self).screen_animation == Some(screen_animation),
            final(self).frame_duration == old(self).frame_duration,
            final(self).since == old(self).since,
    {
        self.screen_animation = Some(screen_animation);
    }

    /// Whether a tick at `now` moves playback onto a new frame; false
    /// without a playback.
    pub fn should_build_next_frame(&mut self, now: u64) -> (advanced: bool)
        requires
            old(self).wf(),
        ensures
            final(self).wf(),
            final(self).frame_duration == old(self).frame_duration,
            final(self).since == old(self).since,
            advanced == (match old(self).screen_animation {
                Some(a) => a.advances_at(now),
                None => false,
            }),
            match (old(self).screen_animation, final(self).screen_animation) {
                (Some(a), Some(b)) => {
                    &&& b.frames() == a.frames()
                    &&& b.starts() == a.starts()
                    &&& b.total() == a.total()
                    &&& b.loops() == a.loops()
                    &&& b.source_done() == a.source_done()
                    &&& a.ready_spec() ==> b.playback_started() && b.started_at() == a.start_time_for(now)
                },
                (None, None) => *final(self) == *old(self),
                _ => false,
            },
    {
        match self.screen_animation.as_mut() {
            Some(animation) => animation.should_build_next_frame(now),
            None => false,
        }
    }

    /// A copy of the frame that a tick at `now` plays, with how long it
    /// lasts; `None` without a playback or before one is playable.
    pub fn build_animation_frame(&mut self, now: u64) -> (result: Option<(Frame, u64)>)
        requires
            old(self).wf(),
        ensures
            final(self).wf(),
            final(self).frame_duration == old(self).frame_duration,
            final(self).since == old(self).since,
            result is Some <==> (old(self).screen_animation matches Some(a) && a.ready_spec()),
            match (old(self).screen_animation, final(self).screen_animation) {
                (Some(a), Some(b)) => {
                    &&& b.frames() == a.frames()
                    &&& b.starts() == a.starts()
                    &&& b.total() == a.total()
                    &&& b.loops() == a.loops()
                    &&& b.source_done() == a.source_done()
                    &&& result matches Some((frame, duration)) ==> {
                        let index = a.playing_index(now);
                        &&& 0 <= index < a.frames().len()
                        &&& cloned(a.frames()[index].0, frame)
                        &&& duration == a.frames()[index].1
                    }
                },
                (None, None) => true,
                _ => false,
            },
    {
        match self.screen_animation.as_mut() {
            Some(animation) => animation.build_frame(now),
            None => None,
        }
    }

    /// One tick of a screen that shows each new frame at once: when playback
    /// has moved onto a new frame, that frame is put up at `now` for its
    /// duration and handed out to be shown.
    pub fn advance(&mut self, now: u64) -> (shown: Option<Frame>)
        requires
            old(self).wf(),
        ensures
            final(self).wf(),
            match old(self).screen_animation {
                Some(a) => if a.advances_at(now) {
                    let index = a.playing_index(now);
                    &&& 0 <= index < a.frames().len()
                    &&& shown matches Some(frame) && cloned(a.frames()[index].0, frame)
                    &&& final(self).frame_duration == a.frames()[index].1
                    &&& final(self).since == now
                } else {
                    &&& shown is None
                    &&& final(self).frame_duration == old(self).frame_duration
                    &&& final(self).since == old(self).since
                },
                None => shown is None && *final(self) == *old(self),
            },
    {
        if self.should_build_next_frame(now) {
            if let Some((frame, duration)) = self.build_animation_frame(now) {
                self.frame_duration = duration;
                self.since = now;
                return Some(frame);
            }
        }
        None
    }
}


impl<Frame: Clone> ScreenAnimation<Frame> {
    /// The total duration of the frames received so far.
    pub fn total_duration(&self) -> (total: u64)
        ensures
            total == self.total(),
    {
        self.total_duration
    }
}


/// Once a tick has scheduled the frame playing at `now`, a later tick at
/// which the same frame is still playing does not schedule it again.
pub proof fn lemma_same_frame_not_rescheduled<Frame: Clone>(animation: ScreenAnimation<Frame>, now: u64, later: u64)
    requires
        animation.playback_started(),
        animation.last_scheduled() == Some(animation.playing_index(now) as usize),
        animation.playing_index(later) == animation.playing_index(now),
    ensures
        !animation.advances_at(later),
{
}


impl<Frame: Clone> ScreenAnimation<Frame> {
    /// The timeline of a playback: frame `i` starts where the frames before
    /// it end (the sum of their durations), and the total is the sum of all
    /// durations.
    pub proof fn lemma_timeline(&self)
        requires
            self.wf(),
        ensures
            self.starts().len() == self.frames().len(),
            self.delays().len() == self.frames().len(),
            forall|i: int| 0 <= i < self.frames().len() ==> #[trigger] self.starts()[i] == prefix_sum(self.delays(), i),
            self.total() == prefix_sum(self.delays(), self.frames().len() as int),
            forall|i: int| 0 <= i < self.frames().len() ==> #[trigger] self.delays()[i] == self.frames()[i].1,
    {
    }
}

} // verus!
