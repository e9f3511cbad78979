//! How a pulse spends its amplitude, and what a fast wheel gains.

use crate::scroll::math::{follows, Model, ScrollMath};
use crate::scroll::window::ACCEL_WINDOW;
use vstd::prelude::*;

verus! {

/// Numerator of the acceleration curve, in milliseconds: a wheel that turns by
/// one tick in so many gains nothing.
pub const ACCEL_RATE_MS: u64 = 30;

/// Nanoseconds of a millisecond.
pub const MILLISECOND: u64 = 1_000_000;

/// Ratio of a pulse's viscous tail to its damped-force head.
pub const PULSE_TAIL_RATIO: u64 = 3;

/// `a`, raised to `low` and cut to `high`.
pub open spec fn clamped<S>(model: Model<S>, a: S, low: S, high: S) -> S {
    let raised = if (model.exceeds)(low, a) {
        low
    } else {
        a
    };
    if (model.exceeds)(raised, high) {
        high
    } else {
        raised
    }
}

/// The amplitude gain of a wheel that covered `window` in the trailing
/// [`ACCEL_WINDOW`]: the mean of one and [`ACCEL_RATE_MS`] times the distance
/// per millisecond, but at least one and at most `max_gain`.
pub open spec fn gain_for<S>(model: Model<S>, window: S, max_gain: S) -> S {
    let per_millisecond = (model.over)(
        window,
        (model.whole)((ACCEL_WINDOW / MILLISECOND) as u64),
    );
    let rate = (model.times)((model.whole)(ACCEL_RATE_MS), per_millisecond);
    clamped(
        model,
        (model.over)((model.plus)(model.one(), rate), (model.whole)(2)),
        model.one(),
        max_gain,
    )
}

/// The two phases of a pulse, before they are scaled: `u - 1 + exp(-u)` up to
/// one, and from there on an exponential approach.
pub open spec fn unscaled_pulse<S>(model: Model<S>, u: S) -> S {
    let one = model.one();
    if (model.exceeds)(one, u) {
        (model.plus)((model.minus)(u, one), (model.exponential)((model.minus)(model.zero, u)))
    } else {
        let head_end = (model.exponential)((model.minus)(model.zero, one));
        (model.plus)(
            head_end,
            (model.times)(
                (model.minus)(one, head_end),
                (model.minus)(one, (model.exponential)((model.minus)(one, u))),
            ),
        )
    }
}

/// How far the two phases of a pulse reach, before they are scaled.
pub open spec fn pulse_reach<S>(model: Model<S>) -> S {
    (model.whole)((1 + PULSE_TAIL_RATIO) as u64)
}

/// The part of its amplitude that a pulse has covered after `progress` of its
/// time: from nothing to all of it.
pub open spec fn pulse_part<S>(model: Model<S>, progress: S) -> S {
    let one = model.one();
    let reach = pulse_reach(model);
    clamped(
        model,
        (model.over)(
            unscaled_pulse(model, (model.times)(clamped(model, progress, model.zero, one), reach)),
            unscaled_pulse(model, reach),
        ),
        model.zero,
        one,
    )
}

/// The part of its amplitude that a pulse has covered after `elapsed` of
/// `duration`.
pub open spec fn spent<S>(model: Model<S>, elapsed: u64, duration: u64) -> S {
    pulse_part(model, (model.fraction)(elapsed, duration))
}

/// `a`, raised to `low` and cut to `high`.
fn clamp_to<S: Copy, M: ScrollMath<S>>(a: S, low: S, high: S, math: &M) -> (kept: S)
    ensures
        forall|model: Model<S>| #[trigger]
            follows(math, model) ==> kept == clamped(model, a, low, high),
{
    let raised = if math.exceeds(low, a) {
        low
    } else {
        a
    };
    if math.exceeds(raised, high) {
        high
    } else {
        raised
    }
}

/// The amplitude gain of a wheel that covered `window` of late.
pub fn accel_gain<S: Copy, M: ScrollMath<S>>(window: S, max_gain: S, math: &M) -> (gain: S)
    ensures
        forall|model: Model<S>| #[trigger]
            follows(math, model) ==> gain == gain_for(model, window, max_gain),
{
    let per_millisecond = math.over(window, math.whole(ACCEL_WINDOW / MILLISECOND));
    let rate = math.times(math.whole(ACCEL_RATE_MS), per_millisecond);
    let mean = math.over(math.plus(math.whole(1), rate), math.whole(2));
    clamp_to(mean, math.whole(1), max_gain, math)
}

/// The two phases of a pulse, before they are scaled.
fn raw_pulse<S: Copy, M: ScrollMath<S>>(u: S, math: &M) -> (raw: S)
    ensures
        forall|model: Model<S>| #[trigger]
            follows(math, model) ==> raw == unscaled_pulse(model, u),
{
    let one = math.whole(1);
    if math.exceeds(one, u) {
        math.plus(math.minus(u, one), math.exponential(math.minus(math.zero(), u)))
    } else {
        let head_end = math.exponential(math.minus(math.zero(), one));
        let tail = math.minus(one, math.exponential(math.minus(one, u)));
        math.plus(head_end, math.times(math.minus(one, head_end), tail))
    }
}

/// The part of its amplitude that a pulse has covered after `progress` of its
/// time.
pub fn pulse_curve<S: Copy, M: ScrollMath<S>>(progress: S, math: &M) -> (part: S)
    ensures
        forall|model: Model<S>| #[trigger]
            follows(math, model) ==> part == pulse_part(model, progress),
{
    let reach = math.whole(1 + PULSE_TAIL_RATIO);
    let inside = clamp_to(progress, math.zero(), math.whole(1), math);
    let raw = raw_pulse(math.times(inside, reach), math);
    let part = math.over(raw, raw_pulse(reach, math));
    clamp_to(part, math.zero(), math.whole(1), math)
}

} // verus!
