//! No frame opposes the ticks: however many wheels turn, and whenever frames
//! are drawn, ticks that all go one way show no distance the other way.

use crate::scroll::account::{engine_after, engine_step, EngineStep};
use crate::scroll::conservation::{
    ends_exactly, lemma_motion_never_turns_by_itself, lemma_order_is_reflexive,
    lemma_settling_keeps_later_positions, lemma_sums, lemma_sums_are_ordered, lemma_sums_cancel,
    lemma_tick_does_not_jump, respects_sums, starts_from_rest,
};
use crate::scroll::curve::{gain_for, spent};
use crate::scroll::engine::{
    all_advanced, impulsed, lists_due, shown, source_advanced, source_cancelled, EngineView,
};
use crate::scroll::glide::{
    computes, divides_time, grows_gently, lemma_factor_is_positive, lemma_multiples, lemma_order_adds,
    lemma_pulses_are_whole, lemma_reflexive, lemma_spending, lemma_transitive, orders, within,
};
use crate::scroll::math::{Model, WheelDelta};
use crate::scroll::motion::{
    advanced, axis_amplitude, evaluated, joins, live, noted_tick, placed, position, pulse_position,
    started, still, ticked, MotionTuning, MotionUpdate, MotionView, Pulse, ScrollStream,
};
use crate::scroll::output::ScrollFrame;
use crate::scroll::reversal::{
    attenuated, lemma_tick_never_grows_or_turns, tames, time_since, ReversalCooldown,
};
use crate::scroll::timeline::{clock, step_time, unturned_engine};
use crate::scroll::window::covered;
use vstd::prelude::*;

verus! {

/// Whether `le` orders distances in a way that adding respects, and a pulse
/// with the order neither turns back nor overshoots.
#[verifier::opaque]
pub open spec fn one_way<S>(
    model: Model<S>,
    le: spec_fn(WheelDelta<S>, WheelDelta<S>) -> bool,
) -> bool {
    &&& respects_sums(model, le)
    &&& forall|a: WheelDelta<S>, b: WheelDelta<S>, c: WheelDelta<S>|
        #![trigger le(a, b), le(b, c)]
        le(a, b) && le(b, c) ==> le(a, c)
    &&& forall|a: WheelDelta<S>, elapsed: u64, later: u64, duration: u64|
        #![trigger model.scaled(a, spent(model, elapsed, duration)), spent(model, later, duration)]
        le(model.rest(), a) && elapsed <= later ==> le(
            model.scaled(a, spent(model, elapsed, duration)),
            model.scaled(a, spent(model, later, duration)),
        )
    &&& forall|a: WheelDelta<S>, elapsed: u64, duration: u64|
        le(model.rest(), a) ==> le(
            #[trigger] model.scaled(a, spent(model, elapsed, duration)),
            a,
        )
}

/// Whether every frame goes along `le`, or nowhere.
pub open spec fn none_opposes<S>(
    model: Model<S>,
    le: spec_fn(WheelDelta<S>, WheelDelta<S>) -> bool,
    frames: Seq<ScrollFrame<S>>,
) -> bool {
    forall|i: int| 0 <= i < frames.len() ==> le(model.rest(), (#[trigger] frames[i]).delta)
}

/// The amplitude of a tick: a source that keeps to its stream goes on with its
/// motion, and any other starts anew.
pub open spec fn set_out<S>(
    model: Model<S>,
    engine: EngineView<S>,
    source: u64,
    stream: ScrollStream,
    impulse: WheelDelta<S>,
    at: u64,
    tuning: MotionTuning<S>,
) -> WheelDelta<S> {
    let motion = if engine.sources.contains_key(source) && engine.sources[source].stream
        == stream {
        engine.sources[source]
    } else {
        still(model, stream, at, tuning)
    };
    noted_tick(model, motion, impulse, at, tuning).1
}

/// Whether a step sets out nothing against `le`: a tick's amplitude goes along
/// it, and exactly the sources with a frame due advance.
pub open spec fn goes_along<S>(
    model: Model<S>,
    le: spec_fn(WheelDelta<S>, WheelDelta<S>) -> bool,
    engine: EngineView<S>,
    step: EngineStep<S>,
) -> bool {
    match step {
        EngineStep::Tick { source, stream, impulse, at, tuning } => tuning.duration > 0 && le(
            model.rest(),
            set_out(model, engine, source, stream, impulse, at, tuning),
        ),
        EngineStep::Advance { due, at } => lists_due(engine.sources, at, due),
    }
}

/// Whether `steps`, in the order of their times, set out nothing against `le`.
pub open spec fn all_go_along<S>(
    model: Model<S>,
    le: spec_fn(WheelDelta<S>, WheelDelta<S>) -> bool,
    steps: Seq<EngineStep<S>>,
) -> bool
    decreases steps.len(),
{
    steps.len() == 0 || {
        let earlier = steps.drop_last();
        &&& all_go_along(model, le, earlier)
        &&& step_time(steps.last()) >= clock(earlier)
        &&& goes_along(
            model,
            le,
            engine_after(model, unturned_engine(), earlier).0,
            steps.last(),
        )
    }
}

/// Whether a motion has, from `now` on, nowhere to go but along `le`.
spec fn bound_along<S>(
    model: Model<S>,
    le: spec_fn(WheelDelta<S>, WheelDelta<S>) -> bool,
    motion: MotionView<S>,
    now: u64,
) -> bool {
    &&& forall|i: int|
        0 <= i < motion.pulses.len() ==> le(model.rest(), (#[trigger] motion.pulses[i]).amplitude)
    &&& le(motion.emitted, position(model, motion.settled, motion.pulses, now))
}

/// Whether every motion is bound along `le`.
spec fn all_bound_along<S>(
    model: Model<S>,
    le: spec_fn(WheelDelta<S>, WheelDelta<S>) -> bool,
    sources: Map<u64, MotionView<S>>,
    now: u64,
) -> bool {
    forall|source: u64| #[trigger]
        sources.contains_key(source) ==> bound_along(model, le, sources[source], now)
}

proof fn lemma_order_chains<S>(
    model: Model<S>,
    le: spec_fn(WheelDelta<S>, WheelDelta<S>) -> bool,
    a: WheelDelta<S>,
    b: WheelDelta<S>,
    c: WheelDelta<S>,
)
    requires
        one_way(model, le),
    ensures
        respects_sums(model, le),
        le(a, b) && le(b, c) ==> le(a, c),
{
    reveal(one_way);
}

proof fn lemma_pulse_goes_along<S>(
    model: Model<S>,
    le: spec_fn(WheelDelta<S>, WheelDelta<S>) -> bool,
    pulse: Pulse<S>,
    at: u64,
    later: u64,
)
    requires
        one_way(model, le),
        le(model.rest(), pulse.amplitude),
        at <= later,
    ensures
        le(pulse_position(model, pulse, at), pulse_position(model, pulse, later)),
        le(pulse_position(model, pulse, at), pulse.amplitude),
{
    reveal(one_way);
    assert(time_since(at, pulse.started_at) <= time_since(later, pulse.started_at));
}

/// What is left of `b` without `a` goes along, where `a` is before `b`.
proof fn lemma_rest_of_the_way<S>(
    model: Model<S>,
    le: spec_fn(WheelDelta<S>, WheelDelta<S>) -> bool,
    a: WheelDelta<S>,
    b: WheelDelta<S>,
)
    requires
        model.exact(),
        respects_sums(model, le),
        le(a, b),
    ensures
        le(model.rest(), model.difference(b, a)),
{
    let back = model.difference(model.rest(), a);
    lemma_order_is_reflexive(model, le, back);
    lemma_sums_are_ordered(model, le, a, b, back, back);
    lemma_sums(model, model.rest(), a, back);
    lemma_sums(model, a, b, back);
    lemma_sums(model, b, a, back);
    lemma_sums_cancel(model, model.sum(a, back), b, b);
    lemma_sums_cancel(model, a, model.sum(b, back), model.difference(b, a));
}

/// A motion that is bound along stays so as time goes on.
proof fn lemma_stays_bound<S>(
    model: Model<S>,
    le: spec_fn(WheelDelta<S>, WheelDelta<S>) -> bool,
    motion: MotionView<S>,
    now: u64,
    at: u64,
)
    requires
        one_way(model, le),
        bound_along(model, le, motion, now),
        now <= at,
    ensures
        bound_along(model, le, motion, at),
{
    assert forall|i: int| 0 <= i < motion.pulses.len() implies le(
        pulse_position(model, #[trigger] motion.pulses[i], now),
        pulse_position(model, motion.pulses[i], at),
    ) by {
        lemma_pulse_goes_along(model, le, motion.pulses[i], now, at);
    }
    let there = position(model, motion.settled, motion.pulses, now);
    let then = position(model, motion.settled, motion.pulses, at);
    lemma_order_chains(model, le, motion.emitted, there, then);
    lemma_motion_never_turns_by_itself(model, le, motion.settled, motion.pulses, now, at);
}

/// Live pulses are among the pulses.
proof fn lemma_live_goes_along<S>(
    model: Model<S>,
    le: spec_fn(WheelDelta<S>, WheelDelta<S>) -> bool,
    pulses: Seq<Pulse<S>>,
    at: u64,
)
    requires
        forall|i: int|
            0 <= i < pulses.len() ==> le(model.rest(), (#[trigger] pulses[i]).amplitude),
    ensures
        forall|i: int|
            0 <= i < live(pulses, at).len() ==> le(
                model.rest(),
                (#[trigger] live(pulses, at)[i]).amplitude,
            ),
    decreases pulses.len(),
{
    if pulses.len() > 0 {
        let before = pulses.drop_last();
        assert forall|i: int| 0 <= i < before.len() implies le(
            model.rest(),
            (#[trigger] before[i]).amplitude,
        ) by {
            assert(before[i] == pulses[i]);
        }
        assert(pulses.last() == pulses[pulses.len() - 1]);
        lemma_live_goes_along(model, le, before, at);
        assert forall|i: int| 0 <= i < live(pulses, at).len() implies le(
            model.rest(),
            (#[trigger] live(pulses, at)[i]).amplitude,
        ) by {
            if i < live(before, at).len() {
                assert(live(pulses, at)[i] == live(before, at)[i]);
            }
        }
    }
}

/// What is handed out goes along.
proof fn lemma_evaluation_goes_along<S>(
    model: Model<S>,
    le: spec_fn(WheelDelta<S>, WheelDelta<S>) -> bool,
    motion: MotionView<S>,
    at: u64,
)
    requires
        model.exact(),
        ends_exactly(model),
        one_way(model, le),
        bound_along(model, le, motion, at),
    ensures
        ({
            let (after, update) = evaluated(model, motion, at);
            let delta = match update {
                MotionUpdate::Active(delta) => delta,
                MotionUpdate::Finished(delta) => delta,
            };
            &&& bound_along(model, le, after, at)
            &&& le(model.rest(), delta)
        }),
{
    let reached = position(model, motion.settled, motion.pulses, at);
    lemma_order_chains(model, le, reached, reached, reached);
    lemma_rest_of_the_way(model, le, motion.emitted, reached);
    lemma_live_goes_along(model, le, motion.pulses, at);
    lemma_settling_keeps_later_positions(model, motion.settled, motion.pulses, at, at);
    lemma_order_is_reflexive(model, le, reached);
}

/// A tick that goes along leaves a motion bound along.
proof fn lemma_placing_goes_along<S>(
    model: Model<S>,
    le: spec_fn(WheelDelta<S>, WheelDelta<S>) -> bool,
    motion: MotionView<S>,
    amplitude: WheelDelta<S>,
    at: u64,
    duration: u64,
)
    requires
        model.exact(),
        starts_from_rest(model),
        one_way(model, le),
        bound_along(model, le, motion, at),
        le(model.rest(), amplitude),
        duration > 0,
    ensures
        bound_along(model, le, placed(model, motion, amplitude, at, duration), at),
{
    let after = placed(model, motion, amplitude, at, duration);
    lemma_tick_does_not_jump(model, motion, amplitude, at, duration);
    lemma_order_chains(model, le, amplitude, amplitude, amplitude);
    if joins(motion.pulses, at) {
        let newest = motion.pulses.last();
        assert(newest == motion.pulses[motion.pulses.len() - 1]);
        let travelled = pulse_position(model, newest, at);
        let remaining = model.difference(newest.amplitude, travelled);
        lemma_pulse_goes_along(model, le, newest, at, at);
        lemma_rest_of_the_way(model, le, travelled, newest.amplitude);
        lemma_sums_are_ordered(model, le, model.rest(), remaining, model.rest(), amplitude);
        lemma_sums(model, model.rest(), amplitude, amplitude);
        assert forall|i: int| 0 <= i < after.pulses.len() implies le(
            model.rest(),
            (#[trigger] after.pulses[i]).amplitude,
        ) by {
            if i < motion.pulses.len() - 1 {
                assert(after.pulses[i] == motion.pulses[i]);
            }
        }
    } else {
        assert forall|i: int| 0 <= i < after.pulses.len() implies le(
            model.rest(),
            (#[trigger] after.pulses[i]).amplitude,
        ) by {
            if i < motion.pulses.len() {
                assert(after.pulses[i] == motion.pulses[i]);
            }
        }
    }
}

/// The frames for an update that goes along go along.
proof fn lemma_shown_goes_along<S>(
    model: Model<S>,
    le: spec_fn(WheelDelta<S>, WheelDelta<S>) -> bool,
    engine: EngineView<S>,
    stream: ScrollStream,
    update: MotionUpdate<S>,
)
    requires
        respects_sums(model, le),
        update matches MotionUpdate::Active(delta) ==> le(model.rest(), delta),
        update matches MotionUpdate::Finished(delta) ==> le(model.rest(), delta),
    ensures
        none_opposes(model, le, shown(model, engine, stream, update).1),
        shown(model, engine, stream, update).0.sources == engine.sources,
{
    lemma_order_is_reflexive(model, le, model.rest());
}

/// An advance goes along.
proof fn lemma_advance_goes_along<S>(
    model: Model<S>,
    le: spec_fn(WheelDelta<S>, WheelDelta<S>) -> bool,
    engine: EngineView<S>,
    due: Seq<u64>,
    at: u64,
)
    requires
        model.exact(),
        ends_exactly(model),
        one_way(model, le),
        all_bound_along(model, le, engine.sources, at),
        due.no_duplicates(),
        forall|i: int| 0 <= i < due.len() ==> engine.sources.contains_key(#[trigger] due[i]),
    ensures
        ({
            let (after, frames) = all_advanced(model, engine, due, at);
            &&& none_opposes(model, le, frames)
            &&& all_bound_along(model, le, after.sources, at)
            &&& forall|other: u64|
                !due.contains(other) && engine.sources.contains_key(other)
                    ==> #[trigger] after.sources.contains_key(other)
        }),
    decreases due.len(),
{
    if due.len() > 0 {
        let earlier = due.drop_last();
        let source = due.last();
        assert forall|i: int| 0 <= i < earlier.len() implies engine.sources.contains_key(
            #[trigger] earlier[i],
        ) by {
            assert(earlier[i] == due[i]);
        }
        assert forall|i: int, j: int|
            0 <= i < earlier.len() && 0 <= j < earlier.len() && i != j implies earlier[i]
            != earlier[j] by {
            assert(due[i] != due[j]);
        }
        lemma_advance_goes_along(model, le, engine, earlier, at);
        let (before, first) = all_advanced(model, engine, earlier, at);
        assert(due[due.len() - 1] == source);
        assert(!earlier.contains(source)) by {
            if earlier.contains(source) {
                let k = choose|k: int| 0 <= k < earlier.len() && earlier[k] == source;
                assert(due[k] == due[due.len() - 1]);
            }
        }
        assert(before.sources.contains_key(source));
        let motion = before.sources[source];
        let (moved, update) = advanced(model, motion, at);
        lemma_evaluation_goes_along(model, le, motion, at);
        assert(bound_along(model, le, moved, at));
        lemma_order_chains(model, le, model.rest(), model.rest(), model.rest());
        let kept = EngineView {
            sources: if update is Finished {
                before.sources.remove(source)
            } else {
                before.sources.insert(source, moved)
            },
            ..before
        };
        lemma_shown_goes_along(model, le, kept, motion.stream, update);
        let (after, second) = source_advanced(model, before, source, at);
        assert(after.sources == kept.sources);
        assert forall|i: int| 0 <= i < (first + second).len() implies le(
            model.rest(),
            (#[trigger] (first + second)[i]).delta,
        ) by {
            if i < first.len() {
                assert((first + second)[i] == first[i]);
            } else {
                assert((first + second)[i] == second[i - first.len()]);
            }
        }
        assert forall|other: u64|
            !due.contains(other) && engine.sources.contains_key(
                other,
            ) implies #[trigger] after.sources.contains_key(other) by {
            assert(due.contains(source));
            assert(!earlier.contains(other)) by {
                if earlier.contains(other) {
                    let k = choose|k: int| 0 <= k < earlier.len() && earlier[k] == other;
                    assert(due[k] == other);
                }
            }
            assert(before.sources.contains_key(other));
        }
    }
}

/// A tick goes along.
proof fn lemma_tick_goes_along<S>(
    model: Model<S>,
    le: spec_fn(WheelDelta<S>, WheelDelta<S>) -> bool,
    engine: EngineView<S>,
    source: u64,
    stream: ScrollStream,
    impulse: WheelDelta<S>,
    at: u64,
    tuning: MotionTuning<S>,
)
    requires
        model.exact(),
        ends_exactly(model),
        starts_from_rest(model),
        one_way(model, le),
        all_bound_along(model, le, engine.sources, at),
        tuning.duration > 0,
        le(model.rest(), set_out(model, engine, source, stream, impulse, at, tuning)),
    ensures
        ({
            let (after, frames) = impulsed(model, engine, source, stream, impulse, at, tuning);
            &&& none_opposes(model, le, frames)
            &&& all_bound_along(model, le, after.sources, at)
        }),
{
    lemma_order_chains(model, le, model.rest(), model.rest(), model.rest());
    lemma_order_is_reflexive(model, le, model.rest());
    let (after, frames) = impulsed(model, engine, source, stream, impulse, at, tuning);
    if engine.sources.contains_key(source) && engine.sources[source].stream == stream {
        let motion = engine.sources[source];
        let (noted, amplitude) = noted_tick(model, motion, impulse, at, tuning);
        assert(bound_along(model, le, noted, at));
        lemma_placing_goes_along(model, le, noted, amplitude, at, tuning.duration);
        let under_way = placed(model, noted, amplitude, at, tuning.duration);
        lemma_evaluation_goes_along(model, le, under_way, at);
        let (moved, update) = ticked(model, motion, impulse, at, tuning);
        assert(bound_along(model, le, moved, at));
        let kept = EngineView {
            sources: if update is Finished {
                engine.sources.remove(source)
            } else {
                engine.sources.insert(source, moved)
            },
            ..engine
        };
        lemma_shown_goes_along(model, le, kept, stream, update);
        let second = shown(model, kept, stream, update).1;
        assert(frames =~= second);
        assert(after.sources == kept.sources);
    } else {
        let begun = still(model, stream, at, tuning);
        let (noted, amplitude) = noted_tick(model, begun, impulse, at, tuning);
        assert(bound_along(model, le, noted, at));
        lemma_placing_goes_along(model, le, noted, amplitude, at, tuning.duration);
        let fresh = started(model, stream, impulse, at, tuning);
        assert(bound_along(model, le, fresh, at));
        let (open, closing) = if engine.sources.contains_key(source) {
            source_cancelled(model, engine, source)
        } else {
            (engine, Seq::empty())
        };
        assert(frames == closing);
        assert(after.sources == open.sources.insert(source, fresh));
    }
}

proof fn lemma_steps_go_along<S>(
    model: Model<S>,
    le: spec_fn(WheelDelta<S>, WheelDelta<S>) -> bool,
    steps: Seq<EngineStep<S>>,
)
    requires
        model.exact(),
        ends_exactly(model),
        starts_from_rest(model),
        one_way(model, le),
        all_go_along(model, le, steps),
    ensures
        none_opposes(model, le, engine_after(model, unturned_engine(), steps).1),
        all_bound_along(
            model,
            le,
            engine_after(model, unturned_engine(), steps).0.sources,
            clock(steps),
        ),
    decreases steps.len(),
{
    if steps.len() > 0 {
        let earlier = steps.drop_last();
        lemma_steps_go_along(model, le, earlier);
        let (before, first) = engine_after(model, unturned_engine(), earlier);
        let step = steps.last();
        let at = step_time(step);
        assert forall|source: u64| #[trigger]
            before.sources.contains_key(source) implies bound_along(
            model,
            le,
            before.sources[source],
            at,
        ) by {
            lemma_stays_bound(model, le, before.sources[source], clock(earlier), at);
        }
        let (after, second) = engine_step(model, before, step);
        match step {
            EngineStep::Tick { source, stream, impulse, at, tuning } => {
                lemma_tick_goes_along(model, le, before, source, stream, impulse, at, tuning);
            },
            EngineStep::Advance { due, at } => {
                assert forall|i: int| 0 <= i < due.len() implies before.sources.contains_key(
                    #[trigger] due[i],
                ) by {
                    assert(due.contains(due[i]));
                }
                lemma_advance_goes_along(model, le, before, due, at);
            },
        }
        assert forall|i: int| 0 <= i < (first + second).len() implies le(
            model.rest(),
            (#[trigger] (first + second)[i]).delta,
        ) by {
            if i < first.len() {
                assert((first + second)[i] == first[i]);
            } else {
                assert((first + second)[i] == second[i - first.len()]);
            }
        }
    }
}

/// Ticks that all go along `le` show no frame that goes against it, however
/// many wheels turn and whenever frames are drawn.
pub proof fn lemma_no_frame_opposes_the_ticks<S>(
    model: Model<S>,
    le: spec_fn(WheelDelta<S>, WheelDelta<S>) -> bool,
    steps: Seq<EngineStep<S>>,
)
    requires
        model.exact(),
        ends_exactly(model),
        starts_from_rest(model),
        one_way(model, le),
        all_go_along(model, le, steps),
    ensures
        none_opposes(model, le, engine_after(model, unturned_engine(), steps).1),
{
    lemma_steps_go_along(model, le, steps);
}

/// What a wheel can turn along.
pub enum Axis {
    Horizontal,
    Vertical,
}

/// The distance along an axis.
pub open spec fn on_axis<S>(axis: Axis, delta: WheelDelta<S>) -> S {
    match axis {
        Axis::Horizontal => delta.x,
        Axis::Vertical => delta.y,
    }
}

/// Whether `b` is as far along an axis as `a`, or farther.
pub open spec fn as_far<S>(
    model: Model<S>,
    axis: Axis,
    forward: bool,
    a: WheelDelta<S>,
    b: WheelDelta<S>,
) -> bool {
    if forward {
        within(model, on_axis(axis, a), on_axis(axis, b))
    } else {
        within(model, on_axis(axis, b), on_axis(axis, a))
    }
}

/// The order of distances along an axis, in one direction.
pub open spec fn along<S>(model: Model<S>, axis: Axis, forward: bool) -> spec_fn(
    WheelDelta<S>,
    WheelDelta<S>,
) -> bool {
    |a: WheelDelta<S>, b: WheelDelta<S>| as_far(model, axis, forward, a, b)
}

/// Whether wheels were turned one way, in the order of the steps' times: no
/// tick goes against the direction, and no tuning turns one around.
pub open spec fn turned_one_way<S>(
    model: Model<S>,
    axis: Axis,
    forward: bool,
    steps: Seq<EngineStep<S>>,
) -> bool
    decreases steps.len(),
{
    steps.len() == 0 || {
        let earlier = steps.drop_last();
        &&& turned_one_way(model, axis, forward, earlier)
        &&& step_time(steps.last()) >= clock(earlier)
        &&& match steps.last() {
            EngineStep::Tick { impulse, tuning, .. } => {
                &&& as_far(model, axis, forward, model.rest(), impulse)
                &&& tuning.duration > 0
                &&& within(model, model.zero, tuning.step)
                &&& within(model, model.one(), tuning.max_gain)
            },
            EngineStep::Advance { due, at } => lists_due(
                engine_after(model, unturned_engine(), earlier).0.sources,
                at,
                due,
            ),
        }
    }
}

/// Along an axis, in either direction, a pulse neither turns back nor
/// overshoots.
proof fn lemma_axis_is_one_way<S>(model: Model<S>, axis: Axis, forward: bool)
    requires
        model.exact(),
        orders(model),
        computes(model),
        grows_gently(model),
        divides_time(model),
    ensures
        one_way(model, along(model, axis, forward)),
{
    let le = along(model, axis, forward);
    assert(respects_sums(model, le)) by {
        reveal(respects_sums);
        assert forall|a: WheelDelta<S>| #[trigger] le(a, a) by {
            lemma_reflexive(model, on_axis(axis, a), on_axis(axis, a));
        }
        assert forall|a: WheelDelta<S>, b: WheelDelta<S>, c: WheelDelta<S>, d: WheelDelta<S>|
            #![trigger le(a, b), le(c, d)]
            le(a, b) && le(c, d) implies le(model.sum(a, c), model.sum(b, d)) by {
            if forward {
                lemma_order_adds(
                    model,
                    on_axis(axis, a),
                    on_axis(axis, b),
                    on_axis(axis, c),
                    on_axis(axis, d),
                );
            } else {
                lemma_order_adds(
                    model,
                    on_axis(axis, b),
                    on_axis(axis, a),
                    on_axis(axis, d),
                    on_axis(axis, c),
                );
            }
        }
    }
    assert forall|a: WheelDelta<S>, b: WheelDelta<S>, c: WheelDelta<S>|
        #![trigger le(a, b), le(b, c)]
        le(a, b) && le(b, c) implies le(a, c) by {
        if forward {
            lemma_transitive(model, on_axis(axis, a), on_axis(axis, b), on_axis(axis, c));
        } else {
            lemma_transitive(model, on_axis(axis, c), on_axis(axis, b), on_axis(axis, a));
        }
    }
    assert forall|a: WheelDelta<S>, elapsed: u64, later: u64, duration: u64|
        #![trigger model.scaled(a, spent(model, elapsed, duration)), spent(model, later, duration)]
        le(model.rest(), a) && elapsed <= later implies le(
        model.scaled(a, spent(model, elapsed, duration)),
        model.scaled(a, spent(model, later, duration)),
    ) by {
        lemma_spending(model, elapsed, later, duration);
        lemma_multiples(
            model,
            on_axis(axis, a),
            spent(model, elapsed, duration),
            spent(model, later, duration),
        );
    }
    assert forall|a: WheelDelta<S>, elapsed: u64, duration: u64| le(
        model.rest(),
        a,
    ) implies le(#[trigger] model.scaled(a, spent(model, elapsed, duration)), a) by {
        lemma_spending(model, elapsed, elapsed, duration);
        lemma_multiples(
            model,
            on_axis(axis, a),
            spent(model, elapsed, duration),
            model.one(),
        );
    }
    reveal(one_way);
}

/// Cooling a tick keeps its direction.
proof fn lemma_cooling_keeps_direction<S>(
    model: Model<S>,
    before: ReversalCooldown<S>,
    value: S,
    at: u64,
)
    requires
        model.exact(),
        orders(model),
        tames(model, |a: S, b: S| within(model, a, b)),
    ensures
        ({
            let cooled = attenuated(model, before, value, at).1;
            &&& within(model, model.zero, value) ==> within(model, model.zero, cooled)
            &&& within(model, value, model.zero) ==> within(model, cooled, model.zero)
        }),
{
    let cooled = attenuated(model, before, value, at).1;
    lemma_tick_never_grows_or_turns(
        model,
        |a: S, b: S| within(model, a, b),
        before,
        value,
        at,
    );
    lemma_reflexive(model, value, model.zero);
    lemma_reflexive(model, cooled, model.zero);
    lemma_reflexive(model, model.zero, model.zero);
    assert((model.is_zero)(cooled) ==> cooled == model.zero) by {
        reveal(Model::exact);
    }
    assert((model.is_zero)(value) <==> value == model.zero) by {
        reveal(Model::exact);
    }
}

/// The amplitude along one axis keeps the direction of the distance.
proof fn lemma_axis_amplitude_keeps_direction<S>(
    model: Model<S>,
    ticks: Seq<(u64, S)>,
    value: S,
    at: u64,
    tuning: MotionTuning<S>,
)
    requires
        model.exact(),
        orders(model),
        computes(model),
        within(model, model.zero, tuning.step),
        within(model, model.one(), tuning.max_gain),
    ensures
        ({
            let amplitude = axis_amplitude(model, ticks, value, at, tuning).1;
            &&& within(model, model.zero, value) ==> within(model, model.zero, amplitude)
            &&& within(model, value, model.zero) ==> within(model, amplitude, model.zero)
        }),
{
    if !(model.is_zero)(value) {
        let after = axis_amplitude(model, ticks, value, at, tuning).0;
        let reach = covered(model, after);
        let factor = (model.times)(tuning.step, gain_for(model, reach, tuning.max_gain));
        lemma_factor_is_positive(model, tuning.step, reach, tuning.max_gain);
        lemma_multiples(model, value, model.zero, factor);
    }
}

/// A tick that was not turned against the direction does not set out against
/// it.
proof fn lemma_tick_sets_out_along<S>(
    model: Model<S>,
    axis: Axis,
    forward: bool,
    motion: MotionView<S>,
    impulse: WheelDelta<S>,
    at: u64,
    tuning: MotionTuning<S>,
)
    requires
        model.exact(),
        orders(model),
        computes(model),
        tames(model, |a: S, b: S| within(model, a, b)),
        within(model, model.zero, tuning.step),
        within(model, model.one(), tuning.max_gain),
        as_far(model, axis, forward, model.rest(), impulse),
    ensures
        as_far(
            model,
            axis,
            forward,
            model.rest(),
            noted_tick(model, motion, impulse, at, tuning).1,
        ),
{
    lemma_cooling_keeps_direction(model, motion.reversal_x, impulse.x, at);
    lemma_cooling_keeps_direction(model, motion.reversal_y, impulse.y, at);
    let x = if tuning.preaccelerated {
        attenuated(model, motion.reversal_x, impulse.x, at).1
    } else {
        impulse.x
    };
    let y = if tuning.preaccelerated {
        attenuated(model, motion.reversal_y, impulse.y, at).1
    } else {
        impulse.y
    };
    lemma_axis_amplitude_keeps_direction(model, motion.window_x, x, at, tuning);
    lemma_axis_amplitude_keeps_direction(model, motion.window_y, y, at, tuning);
}

proof fn lemma_one_way_steps_go_along<S>(
    model: Model<S>,
    axis: Axis,
    forward: bool,
    steps: Seq<EngineStep<S>>,
)
    requires
        model.exact(),
        orders(model),
        computes(model),
        tames(model, |a: S, b: S| within(model, a, b)),
        turned_one_way(model, axis, forward, steps),
    ensures
        all_go_along(model, along(model, axis, forward), steps),
    decreases steps.len(),
{
    if steps.len() > 0 {
        let earlier = steps.drop_last();
        lemma_one_way_steps_go_along(model, axis, forward, earlier);
        let before = engine_after(model, unturned_engine(), earlier).0;
        if let EngineStep::Tick { source, stream, impulse, at, tuning } = steps.last() {
            let motion = if before.sources.contains_key(source) && before.sources[source].stream
                == stream {
                before.sources[source]
            } else {
                still(model, stream, at, tuning)
            };
            lemma_tick_sets_out_along(model, axis, forward, motion, impulse, at, tuning);
        }
    }
}

/// Wheels turned one way scroll one way: where no tick goes against a
/// direction, no frame does, however many wheels turn, whatever came of
/// acceleration and cooling, and whenever frames are drawn.
pub proof fn lemma_wheels_turned_one_way_scroll_one_way<S>(
    model: Model<S>,
    axis: Axis,
    forward: bool,
    steps: Seq<EngineStep<S>>,
)
    requires
        model.exact(),
        orders(model),
        computes(model),
        grows_gently(model),
        divides_time(model),
        tames(model, |a: S, b: S| within(model, a, b)),
        turned_one_way(model, axis, forward, steps),
    ensures
        ({
            let frames = engine_after(model, unturned_engine(), steps).1;
            forall|i: int|
                0 <= i < frames.len() ==> as_far(
                    model,
                    axis,
                    forward,
                    model.rest(),
                    (#[trigger] frames[i]).delta,
                )
        }),
{
    let le = along(model, axis, forward);
    lemma_pulses_are_whole(model);
    lemma_axis_is_one_way(model, axis, forward);
    lemma_one_way_steps_go_along(model, axis, forward, steps);
    lemma_no_frame_opposes_the_ticks(model, le, steps);
    let frames = engine_after(model, unturned_engine(), steps).1;
    assert forall|i: int| 0 <= i < frames.len() implies as_far(
        model,
        axis,
        forward,
        model.rest(),
        (#[trigger] frames[i]).delta,
    ) by {
        assert(le(model.rest(), frames[i].delta));
    }
}

} // verus!
