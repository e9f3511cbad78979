//! The motion of one wheel: overlapping finite pulses.
//!
//! A wheel's position is the settled distance of completed pulses plus what
//! every live pulse has covered. A tick that arrives within a frame of the
//! newest pulse, or when there is no room for another, joins that pulse: what
//! the pulse has covered settles, and the rest sets out again together with
//! the tick, from the tick's arrival and for the tick's own duration.

use crate::scroll::curve::{accel_gain, gain_for, pulse_curve, spent};
use crate::scroll::math::{follows, rest, Model, ScrollMath, WheelDelta};
use crate::scroll::reversal::{attenuated, since, time_since, Heading, ReversalCooldown};
use crate::scroll::window::{covered, recorded, RateWindow, ACCEL_WINDOW_MAX_TICKS};
use vstd::prelude::*;

verus! {

/// Output cadence.
pub const FRAME_INTERVAL: u64 = 8_000_000;

/// How long a gesture stays open after its motion settles.
pub const GESTURE_HOLD: u64 = 150_000_000;

/// Pulses in flight at most.
pub const MAX_PULSES: usize = 64;

/// Which application-visible stream a wheel's distances join.
#[derive(Debug, Clone, Copy, PartialEq, Eq, Structural)]
pub enum ScrollStream {
    /// Wheel output, without phases.
    Wheel,
    /// Gesture output, with phases that swipe actions recognise.
    Gesture,
}

/// Motion settings, captured per tick.
#[derive(Debug)]
pub struct MotionTuning<S> {
    /// Amplitude per tick.
    pub step: S,
    /// How long one tick's pulse lasts.
    pub duration: u64,
    /// Cap on the acceleration gain.
    pub max_gain: S,
    /// Whether the distances already carry an OS acceleration curve.
    pub preaccelerated: bool,
    /// How long the wheel stays active after its last tick.
    pub hold: u64,
}

impl<S: Copy> Clone for MotionTuning<S> {
    fn clone(&self) -> (copy: Self)
        ensures
            copy == *self,
    {
        *self
    }
}

impl<S: Copy> Copy for MotionTuning<S> {

}

impl<S: Copy> MotionTuning<S> {
    /// A gesture without smoothing: each tick lands in full on the next frame,
    /// and only the hold keeps the gesture open.
    pub fn direct_gesture(one: S) -> (tuning: Self)
        ensures
            tuning == (MotionTuning {
                step: one,
                duration: FRAME_INTERVAL,
                max_gain: one,
                preaccelerated: false,
                hold: GESTURE_HOLD,
            }),
    {
        MotionTuning {
            step: one,
            duration: FRAME_INTERVAL,
            max_gain: one,
            preaccelerated: false,
            hold: GESTURE_HOLD,
        }
    }

    /// The hold of a stream: wheel output has no phase to hold back.
    pub fn hold_for(stream: ScrollStream) -> (hold: u64)
        ensures
            hold == match stream {
                ScrollStream::Wheel => 0,
                ScrollStream::Gesture => GESTURE_HOLD,
            },
    {
        match stream {
            ScrollStream::Wheel => 0,
            ScrollStream::Gesture => GESTURE_HOLD,
        }
    }
}

/// One finite animation.
#[derive(Debug)]
pub struct Pulse<S> {
    pub amplitude: WheelDelta<S>,
    /// When the first of its ticks arrived.
    pub opened_at: u64,
    /// When it last set out.
    pub started_at: u64,
    pub duration: u64,
}

impl<S: Copy> Clone for Pulse<S> {
    fn clone(&self) -> (copy: Self)
        ensures
            copy == *self,
    {
        *self
    }
}

impl<S: Copy> Copy for Pulse<S> {

}

/// When a pulse has covered its whole amplitude.
pub open spec fn pulse_end<S>(pulse: Pulse<S>) -> int {
    pulse.started_at + pulse.duration
}

/// What a pulse has covered at `at`.
pub open spec fn pulse_position<S>(model: Model<S>, pulse: Pulse<S>, at: u64) -> WheelDelta<S> {
    model.scaled(
        pulse.amplitude,
        spent(model, time_since(at, pulse.started_at), pulse.duration),
    )
}

impl<S: Copy> Pulse<S> {
    /// What the pulse has covered at `at`.
    pub fn position_at<M: ScrollMath<S>>(&self, at: u64, math: &M) -> (position: WheelDelta<S>)
        ensures
            forall|model: Model<S>| #[trigger]
                follows(math, model) ==> position == pulse_position(model, *self, at),
    {
        let progress = math.fraction(since(at, self.started_at), self.duration);
        let curve = pulse_curve(progress, math);
        self.amplitude.scale(curve, math)
    }

    /// When the pulse has covered its whole amplitude.
    pub fn ends_at(&self) -> (end: u64)
        requires
            pulse_end(*self) <= u64::MAX,
        ensures
            end == pulse_end(*self),
    {
        self.started_at + self.duration
    }

    /// Whether the pulse has covered its whole amplitude.
    pub fn is_complete_at(&self, at: u64) -> (complete: bool)
        requires
            pulse_end(*self) <= u64::MAX,
        ensures
            complete == (at >= pulse_end(*self)),
    {
        at >= self.ends_at()
    }
}

/// The motion of one wheel.
pub struct ActiveMotion<S> {
    stream: ScrollStream,
    pulses: Vec<Pulse<S>>,
    last_tick_at: u64,
    hold: u64,
    settled: WheelDelta<S>,
    emitted: WheelDelta<S>,
    next_frame: u64,
    window_x: RateWindow<S>,
    window_y: RateWindow<S>,
    reversal_x: ReversalCooldown<S>,
    reversal_y: ReversalCooldown<S>,
}

/// The value of a motion.
#[verifier::ext_equal]
pub struct MotionView<S> {
    pub stream: ScrollStream,
    pub pulses: Seq<Pulse<S>>,
    /// Arrival of the last tick, from which the hold is measured.
    pub last_tick_at: u64,
    pub hold: u64,
    /// Distance of the pulses that are over.
    pub settled: WheelDelta<S>,
    /// Distance handed out so far.
    pub emitted: WheelDelta<S>,
    pub next_frame: u64,
    pub window_x: Seq<(u64, S)>,
    pub window_y: Seq<(u64, S)>,
    pub reversal_x: ReversalCooldown<S>,
    pub reversal_y: ReversalCooldown<S>,
}

impl<S> View for ActiveMotion<S> {
    type V = MotionView<S>;

    closed spec fn view(&self) -> MotionView<S> {
        MotionView {
            stream: self.stream,
            pulses: self.pulses@,
            last_tick_at: self.last_tick_at,
            hold: self.hold,
            settled: self.settled,
            emitted: self.emitted,
            next_frame: self.next_frame,
            window_x: self.window_x@,
            window_y: self.window_y@,
            reversal_x: self.reversal_x,
            reversal_y: self.reversal_y,
        }
    }
}

/// What one evaluation of a motion hands out.
#[derive(Debug)]
pub enum MotionUpdate<S> {
    /// The wheel is still moving, or held.
    Active(WheelDelta<S>),
    Finished(WheelDelta<S>),
}

impl<S: Copy> Clone for MotionUpdate<S> {
    fn clone(&self) -> (copy: Self)
        ensures
            copy == *self,
    {
        *self
    }
}

impl<S: Copy> Copy for MotionUpdate<S> {

}

/// Whether an update is the last one.
pub open spec fn is_last<S>(update: MotionUpdate<S>) -> bool {
    update is Finished
}

impl<S: Copy> MotionUpdate<S> {
    /// Whether this update is the last one.
    pub fn is_finished(&self) -> (finished: bool)
        ensures
            finished == is_last(*self),
    {
        match self {
            MotionUpdate::Finished(_) => true,
            MotionUpdate::Active(_) => false,
        }
    }

    /// The distance handed out.
    pub fn delta(&self) -> (delta: WheelDelta<S>)
        ensures
            delta == match *self {
                MotionUpdate::Active(delta) => delta,
                MotionUpdate::Finished(delta) => delta,
            },
    {
        match self {
            MotionUpdate::Active(delta) => *delta,
            MotionUpdate::Finished(delta) => *delta,
        }
    }
}

/// One axis of a tick's amplitude; a tick that goes nowhere along the axis
/// leaves no trace in the axis's window.
pub open spec fn axis_amplitude<S>(
    model: Model<S>,
    ticks: Seq<(u64, S)>,
    value: S,
    at: u64,
    tuning: MotionTuning<S>,
) -> (Seq<(u64, S)>, S) {
    if (model.is_zero)(value) {
        (ticks, value)
    } else {
        let after = recorded(ticks, at, (model.magnitude)(value));
        let gain = gain_for(model, covered(model, after), tuning.max_gain);
        (after, (model.times)(value, (model.times)(tuning.step, gain)))
    }
}

/// A motion that has taken note of a tick, and the tick's amplitude: reversals
/// of pre-accelerated input are cooled, and each axis gains by its own rate.
pub open spec fn noted_tick<S>(
    model: Model<S>,
    before: MotionView<S>,
    impulse: WheelDelta<S>,
    at: u64,
    tuning: MotionTuning<S>,
) -> (MotionView<S>, WheelDelta<S>) {
    let (reversal_x, x) = if tuning.preaccelerated {
        attenuated(model, before.reversal_x, impulse.x, at)
    } else {
        (before.reversal_x, impulse.x)
    };
    let (reversal_y, y) = if tuning.preaccelerated {
        attenuated(model, before.reversal_y, impulse.y, at)
    } else {
        (before.reversal_y, impulse.y)
    };
    let (window_x, x) = axis_amplitude(model, before.window_x, x, at, tuning);
    let (window_y, y) = axis_amplitude(model, before.window_y, y, at, tuning);
    (
        MotionView {
            last_tick_at: at,
            hold: tuning.hold,
            window_x,
            window_y,
            reversal_x,
            reversal_y,
            ..before
        },
        WheelDelta { x, y },
    )
}

/// Whether a tick at `at` joins the newest pulse.
pub open spec fn joins<S>(pulses: Seq<Pulse<S>>, at: u64) -> bool {
    pulses.len() > 0 && (pulses.len() >= MAX_PULSES || time_since(at, pulses.last().opened_at)
        < FRAME_INTERVAL)
}

/// A motion with one more tick's amplitude set out.
pub open spec fn placed<S>(
    model: Model<S>,
    before: MotionView<S>,
    amplitude: WheelDelta<S>,
    at: u64,
    duration: u64,
) -> MotionView<S> {
    if joins(before.pulses, at) {
        let newest = before.pulses.last();
        let travelled = pulse_position(model, newest, at);
        let merged = model.sum(model.difference(newest.amplitude, travelled), amplitude);
        MotionView {
            settled: model.sum(before.settled, travelled),
            pulses: if model.vanishes(merged) {
                before.pulses.drop_last()
            } else {
                before.pulses.drop_last().push(
                    Pulse {
                        amplitude: merged,
                        opened_at: newest.opened_at,
                        started_at: at,
                        duration,
                    },
                )
            },
            ..before
        }
    } else {
        MotionView {
            pulses: before.pulses.push(
                Pulse { amplitude, opened_at: at, started_at: at, duration },
            ),
            ..before
        }
    }
}

/// The distance that `pulses` have covered at `at` on top of `settled`.
pub open spec fn position<S>(
    model: Model<S>,
    settled: WheelDelta<S>,
    pulses: Seq<Pulse<S>>,
    at: u64,
) -> WheelDelta<S>
    decreases pulses.len(),
{
    if pulses.len() == 0 {
        settled
    } else {
        model.sum(
            position(model, settled, pulses.drop_last(), at),
            pulse_position(model, pulses.last(), at),
        )
    }
}

/// The settled distance, once every pulse that is over at `at` has settled.
pub open spec fn settled_at<S>(
    model: Model<S>,
    settled: WheelDelta<S>,
    pulses: Seq<Pulse<S>>,
    at: u64,
) -> WheelDelta<S>
    decreases pulses.len(),
{
    if pulses.len() == 0 {
        settled
    } else {
        let before = settled_at(model, settled, pulses.drop_last(), at);
        if at >= pulse_end(pulses.last()) {
            model.sum(before, pulses.last().amplitude)
        } else {
            before
        }
    }
}

/// The pulses that are not over at `at`.
pub open spec fn live<S>(pulses: Seq<Pulse<S>>, at: u64) -> Seq<Pulse<S>>
    decreases pulses.len(),
{
    if pulses.len() == 0 {
        Seq::empty()
    } else if at >= pulse_end(pulses.last()) {
        live(pulses.drop_last(), at)
    } else {
        live(pulses.drop_last(), at).push(pulses.last())
    }
}

/// Whether every pulse is over at `at`.
pub open spec fn all_over<S>(pulses: Seq<Pulse<S>>, at: u64) -> bool {
    forall|i: int| 0 <= i < pulses.len() ==> at >= pulse_end(#[trigger] pulses[i])
}

/// A motion brought up to `at`, and what that hands out.
pub open spec fn evaluated<S>(
    model: Model<S>,
    before: MotionView<S>,
    at: u64,
) -> (MotionView<S>, MotionUpdate<S>) {
    let reached = position(model, before.settled, before.pulses, at);
    let delta = model.difference(reached, before.emitted);
    let pulses = live(before.pulses, at);
    (
        MotionView {
            emitted: reached,
            settled: settled_at(model, before.settled, before.pulses, at),
            pulses,
            ..before
        },
        if pulses.len() == 0 && at >= before.last_tick_at + before.hold {
            MotionUpdate::Finished(delta)
        } else {
            MotionUpdate::Active(delta)
        },
    )
}

/// A motion after one more tick, and what is handed out at the tick's arrival.
/// The next frame is never due before the tick.
pub open spec fn ticked<S>(
    model: Model<S>,
    before: MotionView<S>,
    impulse: WheelDelta<S>,
    at: u64,
    tuning: MotionTuning<S>,
) -> (MotionView<S>, MotionUpdate<S>) {
    let (noted, amplitude) = noted_tick(model, before, impulse, at, tuning);
    let (after, update) = evaluated(
        model,
        placed(model, noted, amplitude, at, tuning.duration),
        at,
    );
    (
        if is_last(update) {
            after
        } else {
            MotionView { next_frame: (at + FRAME_INTERVAL) as u64, ..after }
        },
        update,
    )
}

/// The latest end of `pulses`, but no earlier than `floor`.
pub open spec fn latest_end<S>(pulses: Seq<Pulse<S>>, floor: int) -> int
    decreases pulses.len(),
{
    if pulses.len() == 0 {
        floor
    } else {
        let before = latest_end(pulses.drop_last(), floor);
        if pulse_end(pulses.last()) > before {
            pulse_end(pulses.last())
        } else {
            before
        }
    }
}

/// The first frame of a cadence that is after `at`.
pub open spec fn frame_after(next_frame: u64, at: u64) -> int {
    if next_frame > at {
        next_frame as int
    } else {
        next_frame + ((at - next_frame) / FRAME_INTERVAL as int + 1) * FRAME_INTERVAL
    }
}

/// A motion advanced to `at`, and what that hands out. The next frame keeps
/// the cadence, but the end of the motion is not waited past.
pub open spec fn advanced<S>(model: Model<S>, before: MotionView<S>, at: u64) -> (
    MotionView<S>,
    MotionUpdate<S>,
) {
    let (after, update) = evaluated(model, before, at);
    let end = latest_end(after.pulses, after.last_tick_at + after.hold);
    let frame = frame_after(after.next_frame, at);
    (
        if is_last(update) {
            after
        } else {
            MotionView {
                next_frame: if frame < end {
                    frame as u64
                } else {
                    end as u64
                },
                ..after
            }
        },
        update,
    )
}

/// The motion of a wheel that has yet to take its first tick, at `at`.
pub open spec fn still<S>(
    model: Model<S>,
    stream: ScrollStream,
    at: u64,
    tuning: MotionTuning<S>,
) -> MotionView<S> {
    let unturned = ReversalCooldown { heading: Heading::Rest, last_at: None, flip: None };
    MotionView {
        stream,
        pulses: Seq::empty(),
        last_tick_at: at,
        hold: tuning.hold,
        settled: model.rest(),
        emitted: model.rest(),
        next_frame: (at + FRAME_INTERVAL) as u64,
        window_x: Seq::empty(),
        window_y: Seq::empty(),
        reversal_x: unturned,
        reversal_y: unturned,
    }
}

/// The motion of a wheel at its first tick.
pub open spec fn started<S>(
    model: Model<S>,
    stream: ScrollStream,
    impulse: WheelDelta<S>,
    at: u64,
    tuning: MotionTuning<S>,
) -> MotionView<S> {
    let (noted, amplitude) = noted_tick(
        model,
        still(model, stream, at, tuning),
        impulse,
        at,
        tuning,
    );
    placed(model, noted, amplitude, at, tuning.duration)
}

/// Whether a tick's times can be represented.
pub open spec fn tick_fits<S>(at: u64, tuning: MotionTuning<S>) -> bool {
    &&& at + FRAME_INTERVAL <= u64::MAX
    &&& at + tuning.duration <= u64::MAX
    &&& at + tuning.hold <= u64::MAX
}

/// Bounds that every motion keeps: no more pulses and remembered ticks than
/// allowed, and every end representable.
pub open spec fn bounded<S>(motion: MotionView<S>) -> bool {
    &&& motion.pulses.len() <= MAX_PULSES
    &&& forall|i: int|
        0 <= i < motion.pulses.len() ==> pulse_end(#[trigger] motion.pulses[i]) <= u64::MAX
    &&& motion.last_tick_at + motion.hold <= u64::MAX
    &&& motion.window_x.len() <= ACCEL_WINDOW_MAX_TICKS
    &&& motion.window_y.len() <= ACCEL_WINDOW_MAX_TICKS
}

pub(crate) proof fn lemma_live_is_part<S>(pulses: Seq<Pulse<S>>, at: u64)
    ensures
        live(pulses, at).len() <= pulses.len(),
        forall|i: int|
            0 <= i < live(pulses, at).len() ==> {
                &&& at < pulse_end(#[trigger] live(pulses, at)[i])
                &&& pulses.contains(live(pulses, at)[i])
            },
    decreases pulses.len(),
{
    if pulses.len() > 0 {
        let before = pulses.drop_last();
        lemma_live_is_part(before, at);
        assert forall|i: int| 0 <= i < live(pulses, at).len() implies {
            &&& at < pulse_end(#[trigger] live(pulses, at)[i])
            &&& pulses.contains(live(pulses, at)[i])
        } by {
            let pulse = live(pulses, at)[i];
            if i < live(before, at).len() {
                assert(pulse == live(before, at)[i]);
                let k = choose|k: int| 0 <= k < before.len() && before[k] == pulse;
                assert(pulses[k] == pulse);
            } else {
                assert(pulses[pulses.len() - 1] == pulse);
            }
        }
    }
}

/// Nothing is live once every pulse is over.
pub(crate) proof fn lemma_live_is_empty<S>(pulses: Seq<Pulse<S>>, at: u64)
    ensures
        live(pulses, at).len() == 0 <==> all_over(pulses, at),
    decreases pulses.len(),
{
    if pulses.len() > 0 {
        let before = pulses.drop_last();
        lemma_live_is_empty(before, at);
        assert(pulses[pulses.len() - 1] == pulses.last());
        if all_over(pulses, at) {
            assert forall|i: int| 0 <= i < before.len() implies at >= pulse_end(
                #[trigger] before[i],
            ) by {
                assert(before[i] == pulses[i]);
            }
        }
        if all_over(before, at) && at >= pulse_end(pulses.last()) {
            assert forall|i: int| 0 <= i < pulses.len() implies at >= pulse_end(
                #[trigger] pulses[i],
            ) by {
                if i < before.len() {
                    assert(before[i] == pulses[i]);
                }
            }
        }
    }
}

pub(crate) proof fn lemma_latest_end<S>(pulses: Seq<Pulse<S>>, floor: int)
    ensures
        latest_end(pulses, floor) >= floor,
        forall|i: int|
            0 <= i < pulses.len() ==> pulse_end(#[trigger] pulses[i]) <= latest_end(pulses, floor),
        latest_end(pulses, floor) == floor || exists|i: int|
            0 <= i < pulses.len() && pulse_end(#[trigger] pulses[i]) == latest_end(pulses, floor),
    decreases pulses.len(),
{
    if pulses.len() > 0 {
        let before = pulses.drop_last();
        lemma_latest_end(before, floor);
        assert(pulses[pulses.len() - 1] == pulses.last());
        assert forall|i: int| 0 <= i < pulses.len() implies pulse_end(#[trigger] pulses[i])
            <= latest_end(pulses, floor) by {
            if i < before.len() {
                assert(before[i] == pulses[i]);
            }
        }
        if latest_end(before, floor) != floor {
            let i = choose|i: int|
                0 <= i < before.len() && pulse_end(#[trigger] before[i]) == latest_end(
                    before,
                    floor,
                );
            assert(pulses[i] == before[i]);
        }
    }
}

/// Put one axis of a tick on record and return its amplitude.
fn windowed<S: Copy, M: ScrollMath<S>>(
    window: &mut RateWindow<S>,
    value: S,
    at: u64,
    tuning: MotionTuning<S>,
    math: &M,
) -> (amplitude: S)
    requires
        old(window).wf(),
    ensures
        final(window).wf(),
        forall|model: Model<S>| #[trigger]
            follows(math, model) ==> (final(window)@, amplitude) == axis_amplitude(
                model,
                old(window)@,
                value,
                at,
                tuning,
            ),
{
    if math.is_zero(value) {
        return value;
    }
    let distance = math.magnitude(value);
    window.record(at, distance);
    let covered_distance = window.distance(math);
    let gain = accel_gain(covered_distance, tuning.max_gain, math);
    let factor = math.times(tuning.step, gain);
    math.times(value, factor)
}

impl<S: Copy> ActiveMotion<S> {
    /// Bounds that the motion keeps.
    pub open spec fn wf(&self) -> bool {
        bounded(self@)
    }

    /// Start with a first tick.
    pub fn new<M: ScrollMath<S>>(
        stream: ScrollStream,
        impulse: WheelDelta<S>,
        at: u64,
        tuning: MotionTuning<S>,
        math: &M,
    ) -> (motion: Self)
        requires
            tick_fits(at, tuning),
        ensures
            motion.wf(),
            motion@.stream == stream,
            motion@.pulses.len() == 1,
            motion@.next_frame == at + FRAME_INTERVAL,
            forall|model: Model<S>| #[trigger]
                follows(math, model) ==> motion@ == started(model, stream, impulse, at, tuning),
    {
        let mut motion = ActiveMotion {
            stream,
            pulses: Vec::new(),
            last_tick_at: at,
            hold: tuning.hold,
            settled: rest(math),
            emitted: rest(math),
            next_frame: at + FRAME_INTERVAL,
            window_x: RateWindow::new(),
            window_y: RateWindow::new(),
            reversal_x: ReversalCooldown::default(),
            reversal_y: ReversalCooldown::default(),
        };
        let amplitude = motion.note(impulse, at, tuning, math);
        motion.pulses.push(
            Pulse { amplitude, opened_at: at, started_at: at, duration: tuning.duration },
        );
        motion
    }

    /// Take note of a tick and return its amplitude.
    fn note<M: ScrollMath<S>>(
        &mut self,
        impulse: WheelDelta<S>,
        at: u64,
        tuning: MotionTuning<S>,
        math: &M,
    ) -> (amplitude: WheelDelta<S>)
        requires
            old(self).wf(),
            tick_fits(at, tuning),
        ensures
            final(self).wf(),
            final(self)@ == (MotionView {
                last_tick_at: at,
                hold: tuning.hold,
                window_x: final(self)@.window_x,
                window_y: final(self)@.window_y,
                reversal_x: final(self)@.reversal_x,
                reversal_y: final(self)@.reversal_y,
                ..old(self)@
            }),
            forall|model: Model<S>| #[trigger]
                follows(math, model) ==> (final(self)@, amplitude) == noted_tick(
                    model,
                    old(self)@,
                    impulse,
                    at,
                    tuning,
                ),
    {
        self.last_tick_at = at;
        self.hold = tuning.hold;
        let mut x = impulse.x;
        let mut y = impulse.y;
        if tuning.preaccelerated {
            x = self.reversal_x.attenuate(x, at, math);
            y = self.reversal_y.attenuate(y, at, math);
        }
        let x = windowed(&mut self.window_x, x, at, tuning, math);
        let y = windowed(&mut self.window_y, y, at, tuning, math);
        WheelDelta { x, y }
    }

    /// Set out a tick's amplitude.
    fn place<M: ScrollMath<S>>(
        &mut self,
        amplitude: WheelDelta<S>,
        at: u64,
        duration: u64,
        math: &M,
    )
        requires
            old(self).wf(),
            at + duration <= u64::MAX,
        ensures
            final(self).wf(),
            final(self)@ == (MotionView {
                pulses: final(self)@.pulses,
                settled: final(self)@.settled,
                ..old(self)@
            }),
            forall|model: Model<S>| #[trigger]
                follows(math, model) ==> final(self)@ == placed(
                    model,
                    old(self)@,
                    amplitude,
                    at,
                    duration,
                ),
    {
        let count = self.pulses.len();
        if count > 0 && (count >= MAX_PULSES || since(at, self.pulses[count - 1].opened_at)
            < FRAME_INTERVAL) {
            let ghost before = self.pulses@;
            match self.pulses.pop() {
                Some(newest) => {
                    assert(newest == before.last());
                    let travelled = newest.position_at(at, math);
                    let remaining = newest.amplitude.minus(travelled, math);
                    let merged = remaining.plus(amplitude, math);
                    self.settled = self.settled.plus(travelled, math);
                    if !merged.is_zero(math) {
                        self.pulses.push(
                            Pulse {
                                amplitude: merged,
                                opened_at: newest.opened_at,
                                started_at: at,
                                duration,
                            },
                        );
                    }
                },
                None => {},
            }
        } else {
            self.pulses.push(Pulse { amplitude, opened_at: at, started_at: at, duration });
        }
    }

    /// The distance reached at `at`.
    fn position_at<M: ScrollMath<S>>(&self, at: u64, math: &M) -> (reached: WheelDelta<S>)
        ensures
            forall|model: Model<S>| #[trigger]
                follows(math, model) ==> reached == position(
                    model,
                    self@.settled,
                    self@.pulses,
                    at,
                ),
    {
        let mut reached = self.settled;
        assert(self.pulses@.take(0) =~= Seq::empty());
        for i in 0..self.pulses.len()
            invariant
                forall|model: Model<S>| #[trigger]
                    follows(math, model) ==> reached == position(
                        model,
                        self.settled,
                        self.pulses@.take(i as int),
                        at,
                    ),
        {
            assert(self.pulses@.take(i + 1).drop_last() =~= self.pulses@.take(i as int));
            let covered_distance = self.pulses[i].position_at(at, math);
            reached = reached.plus(covered_distance, math);
        }
        assert(self.pulses@.take(self.pulses@.len() as int) =~= self.pulses@);
        reached
    }

    /// Settle the pulses that are over.
    fn prune<M: ScrollMath<S>>(&mut self, at: u64, math: &M)
        requires
            old(self).wf(),
        ensures
            final(self).wf(),
            final(self)@ == (MotionView {
                pulses: live(old(self)@.pulses, at),
                settled: final(self)@.settled,
                ..old(self)@
            }),
            forall|model: Model<S>| #[trigger]
                follows(math, model) ==> final(self)@.settled == settled_at(
                    model,
                    old(self)@.settled,
                    old(self)@.pulses,
                    at,
                ),
    {
        let ghost all = self.pulses@;
        let mut kept: Vec<Pulse<S>> = Vec::new();
        let mut settled = self.settled;
        assert(all.take(0) =~= Seq::empty());
        for i in 0..self.pulses.len()
            invariant
                all == self.pulses@,
                forall|k: int| 0 <= k < all.len() ==> pulse_end(#[trigger] all[k]) <= u64::MAX,
                kept@ == live(all.take(i as int), at),
                forall|model: Model<S>| #[trigger]
                    follows(math, model) ==> settled == settled_at(
                        model,
                        self.settled,
                        all.take(i as int),
                        at,
                    ),
        {
            assert(all.take(i + 1).drop_last() =~= all.take(i as int));
            let pulse = self.pulses[i];
            if pulse.is_complete_at(at) {
                settled = settled.plus(pulse.amplitude, math);
            } else {
                kept.push(pulse);
            }
        }
        assert(all.take(all.len() as int) =~= all);
        self.pulses = kept;
        self.settled = settled;
        proof {
            lemma_live_is_part(all, at);
            assert forall|i: int| 0 <= i < self.pulses@.len() implies pulse_end(
                #[trigger] self.pulses@[i],
            ) <= u64::MAX by {
                let pulse = live(all, at)[i];
                assert(all.contains(pulse));
            }
        }
    }

    /// Bring the motion up to `at`.
    fn evaluate<M: ScrollMath<S>>(&mut self, at: u64, math: &M) -> (update: MotionUpdate<S>)
        requires
            old(self).wf(),
        ensures
            final(self).wf(),
            final(self)@ == (MotionView {
                pulses: live(old(self)@.pulses, at),
                settled: final(self)@.settled,
                emitted: final(self)@.emitted,
                ..old(self)@
            }),
            is_last(update) == (final(self)@.pulses.len() == 0 && at >= old(self)@.last_tick_at
                + old(self)@.hold),
            forall|model: Model<S>| #[trigger]
                follows(math, model) ==> (final(self)@, update) == evaluated(
                    model,
                    old(self)@,
                    at,
                ),
    {
        let reached = self.position_at(at, math);
        let delta = reached.minus(self.emitted, math);
        self.emitted = reached;
        self.prune(at, math);
        if self.pulses.len() == 0 && at >= self.held_until() {
            MotionUpdate::Finished(delta)
        } else {
            MotionUpdate::Active(delta)
        }
    }

    /// Take in a tick and bring the motion up to its arrival.
    pub fn add_tick<M: ScrollMath<S>>(
        &mut self,
        impulse: WheelDelta<S>,
        at: u64,
        tuning: MotionTuning<S>,
        math: &M,
    ) -> (update: MotionUpdate<S>)
        requires
            old(self).wf(),
            tick_fits(at, tuning),
        ensures
            final(self).wf(),
            final(self)@.stream == old(self)@.stream,
            is_last(update) == (final(self)@.pulses.len() == 0 && tuning.hold == 0),
            !is_last(update) ==> final(self)@.next_frame == at + FRAME_INTERVAL,
            forall|model: Model<S>| #[trigger]
                follows(math, model) ==> (final(self)@, update) == ticked(
                    model,
                    old(self)@,
                    impulse,
                    at,
                    tuning,
                ),
    {
        let amplitude = self.note(impulse, at, tuning, math);
        self.place(amplitude, at, tuning.duration, math);
        let update = self.evaluate(at, math);
        if !update.is_finished() {
            self.next_frame = at + FRAME_INTERVAL;
        }
        update
    }

    /// Advance the motion to `at`.
    pub fn advance<M: ScrollMath<S>>(&mut self, at: u64, math: &M) -> (update: MotionUpdate<S>)
        requires
            old(self).wf(),
            at + FRAME_INTERVAL <= u64::MAX,
        ensures
            final(self).wf(),
            final(self)@.stream == old(self)@.stream,
            is_last(update) == (all_over(old(self)@.pulses, at) && at >= old(self)@.last_tick_at
                + old(self)@.hold),
            !is_last(update) ==> final(self)@.next_frame > at,
            !is_last(update) && old(self)@.next_frame <= at + FRAME_INTERVAL
                ==> final(self)@.next_frame <= at + FRAME_INTERVAL,
            forall|model: Model<S>| #[trigger]
                follows(math, model) ==> (final(self)@, update) == advanced(model, old(self)@, at),
    {
        proof {
            lemma_live_is_empty(self@.pulses, at);
        }
        let update = self.evaluate(at, math);
        if !update.is_finished() {
            let frame: u64 = if self.next_frame > at {
                self.next_frame
            } else {
                self.next_frame + ((at - self.next_frame) / FRAME_INTERVAL + 1) * FRAME_INTERVAL
            };
            let end = match self.ends_at() {
                Some(end) => end,
                None => self.held_until(),
            };
            proof {
                let floor = self@.last_tick_at + self@.hold;
                lemma_latest_end(self@.pulses, floor);
                lemma_live_is_part(old(self)@.pulses, at);
                if self@.pulses.len() > 0 {
                    assert(at < pulse_end(self@.pulses[0]));
                }
            }
            self.next_frame = if frame < end {
                frame
            } else {
                end
            };
        }
        update
    }

    /// When the hold after the last tick lapses.
    fn held_until(&self) -> (at: u64)
        requires
            self.wf(),
        ensures
            at == self@.last_tick_at + self@.hold,
    {
        self.last_tick_at + self.hold
    }

    /// When the motion can finish: its last pulse's end or the hold's lapse,
    /// whichever is later; never, where it has neither.
    pub fn ends_at(&self) -> (end: Option<u64>)
        requires
            self.wf(),
        ensures
            match end {
                Some(end) => (self@.pulses.len() > 0 || self@.hold > 0) && end == latest_end(
                    self@.pulses,
                    self@.last_tick_at + self@.hold,
                ),
                None => self@.pulses.len() == 0 && self@.hold == 0,
            },
    {
        if self.pulses.len() == 0 && self.hold == 0 {
            return None;
        }
        let held_until = self.held_until();
        let mut end = held_until;
        assert(self.pulses@.take(0) =~= Seq::empty());
        for i in 0..self.pulses.len()
            invariant
                forall|k: int|
                    0 <= k < self.pulses@.len() ==> pulse_end(#[trigger] self.pulses@[k])
                        <= u64::MAX,
                end == latest_end(self.pulses@.take(i as int), held_until as int),
        {
            assert(self.pulses@.take(i + 1).drop_last() =~= self.pulses@.take(i as int));
            let pulse_end_at = self.pulses[i].ends_at();
            if pulse_end_at > end {
                end = pulse_end_at;
            }
        }
        assert(self.pulses@.take(self.pulses@.len() as int) =~= self.pulses@);
        Some(end)
    }

    /// The stream the motion feeds.
    pub fn stream(&self) -> (stream: ScrollStream)
        ensures
            stream == self@.stream,
    {
        self.stream
    }

    /// When the motion is to be advanced next.
    pub fn next_frame(&self) -> (at: u64)
        ensures
            at == self@.next_frame,
    {
        self.next_frame
    }

    /// Pulses in flight.
    pub fn pulse_count(&self) -> (count: usize)
        ensures
            count == self@.pulses.len(),
    {
        self.pulses.len()
    }
}

} // verus!
