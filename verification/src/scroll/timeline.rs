//! One wheel over time: in exact arithmetic, what the frames have shown is a
//! matter of the ticks and the clock alone, not of how many frames there were;
//! and a wheel that has run out has ended its output and is gone.

use crate::scroll::account::{
    engine_after, engine_step, lemma_totals_add_up, lemma_update_is_shown, orderly, total,
    EngineStep,
};
use crate::scroll::conservation::{
    destination, ends_exactly, lemma_position_shifts, lemma_settling_keeps_later_positions,
    lemma_settling_keeps_the_destination, lemma_sums, lemma_sums_cancel,
    lemma_tick_adds_its_amplitude, lemma_updates_add_up,
};
use crate::scroll::engine::{
    all_advanced, feeds, lists_due, shown, source_advanced, EngineView,
};
use crate::scroll::curve::gain_for;
use crate::scroll::glide::{lemma_unit_cap_disables_acceleration, orders};
use crate::scroll::math::{Model, WheelDelta};
use crate::scroll::motion::{
    advanced, evaluated, is_last, joins, latest_end, live, noted_tick, placed, position, pulse_end,
    pulse_position, settled_at, started, still, ticked, MotionTuning, MotionUpdate, MotionView,
    Pulse, ScrollStream, FRAME_INTERVAL, MAX_PULSES,
};
use crate::scroll::output::{all_on, ScrollFrame, SmoothScrollPhase};
use crate::scroll::reversal::{Heading, ReversalCooldown};
use vstd::prelude::*;

verus! {

/// A tick with its time.
pub struct TimedTick<S> {
    pub impulse: WheelDelta<S>,
    pub at: u64,
    pub tuning: MotionTuning<S>,
}

/// The ticks among `steps`.
pub open spec fn ticks_of<S>(steps: Seq<EngineStep<S>>) -> Seq<TimedTick<S>>
    decreases steps.len(),
{
    if steps.len() == 0 {
        Seq::empty()
    } else {
        let earlier = ticks_of(steps.drop_last());
        match steps.last() {
            EngineStep::Tick { impulse, at, tuning, .. } => earlier.push(
                TimedTick { impulse, at, tuning },
            ),
            EngineStep::Advance { .. } => earlier,
        }
    }
}

/// When a step happens.
pub open spec fn step_time<S>(step: EngineStep<S>) -> u64 {
    match step {
        EngineStep::Tick { at, .. } => at,
        EngineStep::Advance { at, .. } => at,
    }
}

/// The time of the last step.
pub open spec fn clock<S>(steps: Seq<EngineStep<S>>) -> u64 {
    if steps.len() == 0 {
        0
    } else {
        step_time(steps.last())
    }
}

/// Whether the amplitude of a tick does not depend on what came before it: the
/// wheel is neither accelerated nor cooled.
pub open spec fn flat<S>(model: Model<S>, tuning: MotionTuning<S>) -> bool {
    &&& !tuning.preaccelerated
    &&& forall|a: S|
        #[trigger] gain_for(model, a, tuning.max_gain) == gain_for(
            model,
            model.zero,
            tuning.max_gain,
        )
}

/// A wheel that is not pre-accelerated, and whose gain is capped at one, is
/// flat.
pub proof fn lemma_unaccelerated_wheel_is_flat<S>(model: Model<S>, tuning: MotionTuning<S>)
    requires
        orders(model),
        !tuning.preaccelerated,
        tuning.max_gain == model.one(),
    ensures
        flat(model, tuning),
{
    assert forall|a: S|
        #[trigger] gain_for(model, a, tuning.max_gain) == gain_for(
            model,
            model.zero,
            tuning.max_gain,
        ) by {
        lemma_unit_cap_disables_acceleration(model, a);
        lemma_unit_cap_disables_acceleration(model, model.zero);
    }
}

/// Whether `steps` are ticks of one wheel, bound for one stream, and advances,
/// in the order of their times. Pulses last for a frame at least, and there
/// are no more ticks than there is room for pulses.
pub open spec fn one_wheel<S>(
    model: Model<S>,
    source: u64,
    stream: ScrollStream,
    steps: Seq<EngineStep<S>>,
) -> bool
    decreases steps.len(),
{
    steps.len() == 0 || {
        &&& one_wheel(model, source, stream, steps.drop_last())
        &&& step_time(steps.last()) >= clock(steps.drop_last())
        &&& ticks_of(steps).len() <= MAX_PULSES
        &&& steps.last() matches EngineStep::Tick { source: own, stream: onto, tuning, .. } ==> {
            &&& own == source
            &&& onto == stream
            &&& flat(model, tuning)
            &&& tuning.duration >= FRAME_INTERVAL
        }
    }
}

/// One axis of the amplitude of a flat tick.
pub open spec fn plain_axis<S>(model: Model<S>, value: S, tuning: MotionTuning<S>) -> S {
    if (model.is_zero)(value) {
        value
    } else {
        (model.times)(
            value,
            (model.times)(tuning.step, gain_for(model, model.zero, tuning.max_gain)),
        )
    }
}

/// The amplitude of a flat tick.
pub open spec fn plain_amplitude<S>(model: Model<S>, tick: TimedTick<S>) -> WheelDelta<S> {
    WheelDelta {
        x: plain_axis(model, tick.impulse.x, tick.tuning),
        y: plain_axis(model, tick.impulse.y, tick.tuning),
    }
}

/// All the amplitude of `ticks`.
pub open spec fn summed<S>(model: Model<S>, ticks: Seq<TimedTick<S>>) -> WheelDelta<S>
    decreases ticks.len(),
{
    if ticks.len() == 0 {
        model.rest()
    } else {
        model.sum(summed(model, ticks.drop_last()), plain_amplitude(model, ticks.last()))
    }
}

/// The motion that `ticks` describe, with nothing ever settled by a frame.
pub open spec fn drawn<S>(
    model: Model<S>,
    stream: ScrollStream,
    ticks: Seq<TimedTick<S>>,
) -> MotionView<S>
    decreases ticks.len(),
{
    if ticks.len() == 0 {
        let unturned = ReversalCooldown { heading: Heading::Rest, last_at: None, flip: None };
        MotionView {
            stream,
            pulses: Seq::empty(),
            last_tick_at: 0,
            hold: 0,
            settled: model.rest(),
            emitted: model.rest(),
            next_frame: 0,
            window_x: Seq::empty(),
            window_y: Seq::empty(),
            reversal_x: unturned,
            reversal_y: unturned,
        }
    } else {
        placed(
            model,
            drawn(model, stream, ticks.drop_last()),
            plain_amplitude(model, ticks.last()),
            ticks.last().at,
            ticks.last().tuning.duration,
        )
    }
}

/// Where `ticks` have brought a wheel by `at`.
pub open spec fn position_by<S>(
    model: Model<S>,
    stream: ScrollStream,
    ticks: Seq<TimedTick<S>>,
    at: u64,
) -> WheelDelta<S> {
    let motion = drawn(model, stream, ticks);
    position(model, motion.settled, motion.pulses, at)
}

/// An engine in which no wheel has turned yet.
pub open spec fn unturned_engine<S>() -> EngineView<S> {
    EngineView { sources: Map::empty(), wheel: false, gesture: false }
}

/// Pulses in the order in which they were opened, none after `now`, each for a
/// frame at least.
spec fn tidy<S>(pulses: Seq<Pulse<S>>, now: u64) -> bool {
    &&& forall|i: int|
        0 <= i < pulses.len() ==> {
            &&& (#[trigger] pulses[i]).opened_at <= pulses[i].started_at
            &&& pulses[i].opened_at <= now
            &&& pulses[i].duration >= FRAME_INTERVAL
        }
    &&& forall|i: int, j: int|
        0 <= i < j < pulses.len() ==> (#[trigger] pulses[i]).opened_at <= (
        #[trigger] pulses[j]).opened_at
}

/// A motion that has been shown `seen` of is where `ideal` is, now and at any
/// later time.
spec fn keeps_pace<S>(
    model: Model<S>,
    motion: MotionView<S>,
    ideal: MotionView<S>,
    seen: WheelDelta<S>,
    now: u64,
) -> bool {
    forall|t: u64|
        #![trigger position(model, motion.settled, motion.pulses, t)]
        #![trigger position(model, ideal.settled, ideal.pulses, t)]
        #![trigger live(motion.pulses, t)]
        #![trigger live(ideal.pulses, t)]
        t >= now ==> {
            &&& model.sum(position(model, motion.settled, motion.pulses, t), seen) == model.sum(
                position(model, ideal.settled, ideal.pulses, t),
                motion.emitted,
            )
            &&& live(motion.pulses, t) == live(ideal.pulses, t)
        }
}

/// All of `ideal` has been shown, and it moves no more.
spec fn has_arrived<S>(
    model: Model<S>,
    ideal: MotionView<S>,
    seen: WheelDelta<S>,
    now: u64,
) -> bool {
    forall|t: u64|
        #![trigger position(model, ideal.settled, ideal.pulses, t)]
        #![trigger live(ideal.pulses, t)]
        t >= now ==> {
            &&& position(model, ideal.settled, ideal.pulses, t) == seen
            &&& live(ideal.pulses, t) == Seq::<Pulse<S>>::empty()
        }
}

proof fn lemma_live_is_tidy<S>(pulses: Seq<Pulse<S>>, now: u64, at: u64)
    requires
        tidy(pulses, now),
        now <= at,
    ensures
        tidy(live(pulses, at), at),
        live(pulses, at).len() <= pulses.len(),
        live(pulses, at).len() > 0 ==> live(pulses, at).last().opened_at
            <= pulses.last().opened_at,
    decreases pulses.len(),
{
    if pulses.len() > 0 {
        let before = pulses.drop_last();
        assert(tidy(before, now)) by {
            assert forall|i: int| 0 <= i < before.len() implies {
                &&& (#[trigger] before[i]).opened_at <= before[i].started_at
                &&& before[i].opened_at <= now
                &&& before[i].duration >= FRAME_INTERVAL
            } by {
                assert(before[i] == pulses[i]);
            }
            assert forall|i: int, j: int| 0 <= i < j < before.len() implies (
            #[trigger] before[i]).opened_at <= (#[trigger] before[j]).opened_at by {
                assert(before[i] == pulses[i] && before[j] == pulses[j]);
            }
        }
        lemma_live_is_tidy(before, now, at);
        assert(pulses.last() == pulses[pulses.len() - 1]);
        if before.len() > 0 {
            assert(before.last() == pulses[pulses.len() - 2]);
        }
        let kept = live(before, at);
        if at < pulse_end(pulses.last()) {
            let all = kept.push(pulses.last());
            assert forall|i: int, j: int| 0 <= i < j < all.len() implies (
            #[trigger] all[i]).opened_at <= (#[trigger] all[j]).opened_at by {
                if j < kept.len() {
                    assert(all[i] == kept[i] && all[j] == kept[j]);
                } else {
                    assert(all[i] == kept[i]);
                    if i < kept.len() - 1 {
                        assert(kept[i].opened_at <= kept[kept.len() - 1].opened_at);
                    }
                    assert(kept[kept.len() - 1] == kept.last());
                }
            }
        }
    }
}

/// Two lists of pulses with the same live ones agree on which pulse a tick
/// joins.
proof fn lemma_joins_agree<S>(p: Seq<Pulse<S>>, q: Seq<Pulse<S>>, at: u64)
    requires
        tidy(p, at),
        tidy(q, at),
        p.len() < MAX_PULSES,
        q.len() < MAX_PULSES,
        live(p, at) == live(q, at),
        joins(p, at),
    ensures
        joins(q, at),
        p.last() == q.last(),
{
    let newest = p.last();
    assert(p[p.len() - 1] == newest);
    assert(at < pulse_end(newest));
    assert(live(p, at).last() == newest);
    assert(live(q, at).len() > 0);
    lemma_live_is_tidy(q, at, at);
    assert(q.len() > 0);
    assert(q[q.len() - 1] == q.last());
    assert(q.last().opened_at >= newest.opened_at);
    assert(at < pulse_end(q.last()));
    assert(live(q, at).last() == q.last());
}

/// Bringing a motion up to `at` shows the rest of the way to where it should
/// be, and it keeps pace from there.
proof fn lemma_evaluation_keeps_pace<S>(
    model: Model<S>,
    motion: MotionView<S>,
    ideal: MotionView<S>,
    seen: WheelDelta<S>,
    now: u64,
    at: u64,
)
    requires
        model.exact(),
        ends_exactly(model),
        now <= at,
        tidy(motion.pulses, now),
        keeps_pace(model, motion, ideal, seen, now),
    ensures
        ({
            let (after, update) = evaluated(model, motion, at);
            let delta = match update {
                MotionUpdate::Active(delta) => delta,
                MotionUpdate::Finished(delta) => delta,
            };
            let shown_now = model.sum(seen, delta);
            &&& shown_now == position(model, ideal.settled, ideal.pulses, at)
            &&& keeps_pace(model, after, ideal, shown_now, at)
            &&& tidy(after.pulses, at)
            &&& after.pulses.len() <= motion.pulses.len()
            &&& is_last(update) ==> has_arrived(model, ideal, shown_now, at)
        }),
{
    let (after, update) = evaluated(model, motion, at);
    let delta = match update {
        MotionUpdate::Active(delta) => delta,
        MotionUpdate::Finished(delta) => delta,
    };
    let shown_now = model.sum(seen, delta);
    lemma_live_is_tidy(motion.pulses, now, at);
    lemma_updates_add_up(model, motion, at);
    assert forall|t: u64| t >= at implies {
        &&& model.sum(#[trigger] position(model, after.settled, after.pulses, t), shown_now)
            == model.sum(position(model, ideal.settled, ideal.pulses, t), after.emitted)
        &&& live(after.pulses, t) == live(ideal.pulses, t)
    } by {
        lemma_settling_keeps_later_positions(model, motion.settled, motion.pulses, at, t);
        let here = position(model, motion.settled, motion.pulses, t);
        let there = position(model, ideal.settled, ideal.pulses, t);
        assert(model.sum(here, seen) == model.sum(there, motion.emitted));
        lemma_sums(model, here, seen, delta);
        lemma_sums(model, there, motion.emitted, delta);
    }
    assert(keeps_pace(model, after, ideal, shown_now, at)) by {
        assert forall|t: u64|
            #![trigger position(model, after.settled, after.pulses, t)]
            #![trigger position(model, ideal.settled, ideal.pulses, t)]
            #![trigger live(after.pulses, t)]
            #![trigger live(ideal.pulses, t)]
            t >= at implies {
            &&& model.sum(position(model, after.settled, after.pulses, t), shown_now) == model.sum(
                position(model, ideal.settled, ideal.pulses, t),
                after.emitted,
            )
            &&& live(after.pulses, t) == live(ideal.pulses, t)
        } by {
            let there = position(model, after.settled, after.pulses, t);
        }
    }
    lemma_settling_keeps_later_positions(model, motion.settled, motion.pulses, at, at);
    let reached = after.emitted;
    let there = position(model, ideal.settled, ideal.pulses, at);
    assert(model.sum(reached, shown_now) == model.sum(there, reached));
    lemma_sums_cancel(model, there, reached, reached);
    lemma_sums_cancel(model, reached, shown_now, there);
    if is_last(update) {
        assert(after.pulses =~= Seq::empty());
        assert forall|t: u64|
            #![trigger position(model, ideal.settled, ideal.pulses, t)]
            #![trigger live(ideal.pulses, t)]
            t >= at implies {
            &&& position(model, ideal.settled, ideal.pulses, t) == shown_now
            &&& live(ideal.pulses, t) == Seq::<Pulse<S>>::empty()
        } by {
            lemma_settling_keeps_later_positions(model, ideal.settled, ideal.pulses, at, t);
            assert(live(ideal.pulses, at) =~= Seq::empty());
            let settled = settled_at(model, ideal.settled, ideal.pulses, at);
            lemma_settling_keeps_later_positions(model, ideal.settled, ideal.pulses, at, at);
            assert(position(model, ideal.settled, ideal.pulses, t) == settled);
            assert(position(model, ideal.settled, ideal.pulses, at) == settled);
        }
    }
}

/// Pulses stay tidy when a tick sets out or joins.
proof fn lemma_placing_is_tidy<S>(
    model: Model<S>,
    motion: MotionView<S>,
    amplitude: WheelDelta<S>,
    now: u64,
    at: u64,
    duration: u64,
)
    requires
        tidy(motion.pulses, now),
        now <= at,
        duration >= FRAME_INTERVAL,
    ensures
        tidy(placed(model, motion, amplitude, at, duration).pulses, at),
        placed(model, motion, amplitude, at, duration).pulses.len() <= motion.pulses.len() + 1,
{
    let after = placed(model, motion, amplitude, at, duration).pulses;
    let before = motion.pulses;
    if before.len() > 0 {
        assert(before.last() == before[before.len() - 1]);
    }
    assert forall|i: int| 0 <= i < after.len() implies {
        &&& (#[trigger] after[i]).opened_at <= after[i].started_at
        &&& after[i].opened_at <= at
        &&& after[i].duration >= FRAME_INTERVAL
    } by {
        if i < before.len() {
            assert(before[i].opened_at <= now);
        }
    }
    assert forall|i: int, j: int| 0 <= i < j < after.len() implies (#[trigger] after[i]).opened_at
        <= (#[trigger] after[j]).opened_at by {
        assert(before[i].opened_at <= now);
        if j < before.len() {
            assert(before[i].opened_at <= before[j].opened_at);
        }
    }
}

/// The live pulses without the newest are the same where the live pulses and
/// the newest are.
proof fn lemma_live_without_newest<S>(p: Seq<Pulse<S>>, q: Seq<Pulse<S>>, t: u64)
    requires
        p.len() > 0,
        q.len() > 0,
        p.last() == q.last(),
        live(p, t) == live(q, t),
    ensures
        live(p.drop_last(), t) == live(q.drop_last(), t),
{
    if t < pulse_end(p.last()) {
        assert(live(p, t).drop_last() =~= live(p.drop_last(), t));
        assert(live(q, t).drop_last() =~= live(q.drop_last(), t));
    }
}

/// A tick that is added to both keeps them at pace.
proof fn lemma_placing_keeps_pace<S>(
    model: Model<S>,
    motion: MotionView<S>,
    ideal: MotionView<S>,
    seen: WheelDelta<S>,
    amplitude: WheelDelta<S>,
    now: u64,
    at: u64,
    duration: u64,
)
    requires
        model.exact(),
        now <= at,
        tidy(motion.pulses, now),
        tidy(ideal.pulses, now),
        motion.pulses.len() < MAX_PULSES,
        ideal.pulses.len() < MAX_PULSES,
        keeps_pace(model, motion, ideal, seen, now),
    ensures
        keeps_pace(
            model,
            placed(model, motion, amplitude, at, duration),
            placed(model, ideal, amplitude, at, duration),
            seen,
            at,
        ),
{
    let after = placed(model, motion, amplitude, at, duration);
    let drawn_after = placed(model, ideal, amplitude, at, duration);
    assert(live(motion.pulses, at) == live(ideal.pulses, at));
    assert(tidy(motion.pulses, at) && tidy(ideal.pulses, at));
    if joins(motion.pulses, at) {
        lemma_joins_agree(motion.pulses, ideal.pulses, at);
    }
    if joins(ideal.pulses, at) {
        lemma_joins_agree(ideal.pulses, motion.pulses, at);
    }
    assert forall|t: u64|
        #![trigger position(model, after.settled, after.pulses, t)]
        #![trigger position(model, drawn_after.settled, drawn_after.pulses, t)]
        #![trigger live(after.pulses, t)]
        #![trigger live(drawn_after.pulses, t)]
        t >= at implies {
        &&& model.sum(position(model, after.settled, after.pulses, t), seen) == model.sum(
            position(model, drawn_after.settled, drawn_after.pulses, t),
            after.emitted,
        )
        &&& live(after.pulses, t) == live(drawn_after.pulses, t)
    } by {
        let here = position(model, motion.settled, motion.pulses, t);
        let there = position(model, ideal.settled, ideal.pulses, t);
        assert(model.sum(here, seen) == model.sum(there, motion.emitted));
        if joins(motion.pulses, at) {
            let newest = motion.pulses.last();
            let travelled = pulse_position(model, newest, at);
            let part = pulse_position(model, newest, t);
            let others = motion.pulses.drop_last();
            let drawn_others = ideal.pulses.drop_last();
            let rest_here = position(model, motion.settled, others, t);
            let rest_there = position(model, ideal.settled, drawn_others, t);
            lemma_live_without_newest(motion.pulses, ideal.pulses, t);
            // the same pulse, taken off both sides
            lemma_sums(model, rest_here, part, seen);
            lemma_sums(model, rest_there, part, motion.emitted);
            lemma_sums_cancel(model, model.sum(rest_here, seen), part, part);
            lemma_sums_cancel(model, model.sum(rest_there, motion.emitted), part, part);
            lemma_sums_cancel(
                model,
                part,
                model.sum(rest_here, seen),
                model.sum(rest_there, motion.emitted),
            );
            assert(model.sum(rest_here, seen) == model.sum(rest_there, motion.emitted));
            // what it had travelled, put on both sides
            lemma_position_shifts(model, motion.settled, travelled, others, t);
            lemma_position_shifts(model, ideal.settled, travelled, drawn_others, t);
            lemma_sums(model, rest_here, travelled, seen);
            lemma_sums(model, rest_there, travelled, motion.emitted);
            let moved_here = model.sum(rest_here, travelled);
            let moved_there = model.sum(rest_there, travelled);
            assert(model.sum(moved_here, seen) == model.sum(moved_there, motion.emitted));
            let merged = model.sum(model.difference(newest.amplitude, travelled), amplitude);
            if model.vanishes(merged) {
                assert(after.pulses == others && drawn_after.pulses == drawn_others);
            } else {
                let fresh = Pulse {
                    amplitude: merged,
                    opened_at: newest.opened_at,
                    started_at: at,
                    duration,
                };
                assert(after.pulses.drop_last() =~= others);
                assert(drawn_after.pulses.drop_last() =~= drawn_others);
                let more = pulse_position(model, fresh, t);
                lemma_sums(model, moved_here, more, seen);
                lemma_sums(model, moved_there, more, motion.emitted);
            }
        } else {
            let fresh = Pulse { amplitude, opened_at: at, started_at: at, duration };
            assert(after.pulses.drop_last() =~= motion.pulses);
            assert(drawn_after.pulses.drop_last() =~= ideal.pulses);
            let more = pulse_position(model, fresh, t);
            lemma_sums(model, here, more, seen);
            lemma_sums(model, there, more, motion.emitted);
            assert(live(motion.pulses, t) == live(ideal.pulses, t));
        }
    }
}

/// A wheel that starts anew keeps pace with what went before.
proof fn lemma_start_keeps_pace<S>(
    model: Model<S>,
    rested: MotionView<S>,
    ideal: MotionView<S>,
    seen: WheelDelta<S>,
    amplitude: WheelDelta<S>,
    now: u64,
    at: u64,
    duration: u64,
)
    requires
        model.exact(),
        now <= at,
        tidy(ideal.pulses, now),
        ideal.pulses.len() < MAX_PULSES,
        rested.pulses == Seq::<Pulse<S>>::empty(),
        rested.settled == model.rest(),
        rested.emitted == model.rest(),
        has_arrived(model, ideal, seen, now),
    ensures
        keeps_pace(
            model,
            placed(model, rested, amplitude, at, duration),
            placed(model, ideal, amplitude, at, duration),
            seen,
            at,
        ),
{
    assert forall|t: u64|
        #![trigger position(model, rested.settled, rested.pulses, t)]
        #![trigger position(model, ideal.settled, ideal.pulses, t)]
        #![trigger live(rested.pulses, t)]
        #![trigger live(ideal.pulses, t)]
        t >= now implies {
        &&& model.sum(position(model, rested.settled, rested.pulses, t), seen) == model.sum(
            position(model, ideal.settled, ideal.pulses, t),
            rested.emitted,
        )
        &&& live(rested.pulses, t) == live(ideal.pulses, t)
    } by {
        lemma_sums(model, seen, seen, seen);
        lemma_sums_cancel(model, model.rest(), seen, seen);
        let there = position(model, ideal.settled, ideal.pulses, t);
    }
    assert(keeps_pace(model, rested, ideal, seen, now));
    assert(tidy(rested.pulses, now));
    lemma_placing_keeps_pace(model, rested, ideal, seen, amplitude, now, at, duration);
}

/// The amplitude of a flat tick does not depend on the motion.
proof fn lemma_flat_amplitude<S>(
    model: Model<S>,
    motion: MotionView<S>,
    tick: TimedTick<S>,
)
    requires
        flat(model, tick.tuning),
    ensures
        noted_tick(model, motion, tick.impulse, tick.at, tick.tuning).1 == plain_amplitude(
            model,
            tick,
        ),
{
}

/// Where one wheel stands in an engine after `steps`.
spec fn on_course<S>(
    model: Model<S>,
    source: u64,
    stream: ScrollStream,
    steps: Seq<EngineStep<S>>,
) -> bool {
    let (engine, frames) = engine_after(model, unturned_engine(), steps);
    let ideal = drawn(model, stream, ticks_of(steps));
    let seen = total(model, frames, stream);
    let now = clock(steps);
    &&& forall|other: u64| #[trigger] engine.sources.contains_key(other) ==> other == source
    &&& tidy(ideal.pulses, now)
    &&& ideal.pulses.len() <= ticks_of(steps).len()
    &&& if engine.sources.contains_key(source) {
        let motion = engine.sources[source];
        &&& motion.stream == stream
        &&& tidy(motion.pulses, now)
        &&& motion.pulses.len() <= ticks_of(steps).len()
        &&& keeps_pace(model, motion, ideal, seen, now)
    } else {
        has_arrived(model, ideal, seen, now)
    }
}

/// With one wheel, either nothing is due or just that wheel.
proof fn lemma_one_due<S>(
    model: Model<S>,
    engine: EngineView<S>,
    source: u64,
    due: Seq<u64>,
    at: u64,
)
    requires
        lists_due(engine.sources, at, due),
        forall|other: u64| #[trigger] engine.sources.contains_key(other) ==> other == source,
    ensures
        due.contains(source) ==> all_advanced(model, engine, due, at) == source_advanced(
            model,
            engine,
            source,
            at,
        ) && engine.sources.contains_key(source),
        !due.contains(source) ==> all_advanced(model, engine, due, at) == (
            engine,
            Seq::<ScrollFrame<S>>::empty(),
        ) && due.len() == 0,
{
    reveal_with_fuel(all_advanced, 2);
    if due.len() > 0 {
        assert(due.contains(due[0]));
        assert(due[0] == source);
        if due.len() > 1 {
            assert(due.contains(due[1]));
            assert(due[1] == source);
            assert(false);
        }
        assert(due.drop_last() =~= Seq::empty());
        assert(due.last() == due[0]);
        let (after, frames) = source_advanced(model, engine, source, at);
        assert(Seq::<ScrollFrame<S>>::empty() + frames =~= frames);
    }
}

/// One wheel stays on course, and a frame that was due brings what has been
/// shown to where the ticks put it at that time.
proof fn lemma_wheel_is_on_course<S>(
    model: Model<S>,
    source: u64,
    stream: ScrollStream,
    steps: Seq<EngineStep<S>>,
)
    requires
        model.exact(),
        ends_exactly(model),
        one_wheel(model, source, stream, steps),
        orderly(model, unturned_engine(), steps),
    ensures
        on_course(model, source, stream, steps),
        steps.len() > 0 && (steps.last() matches EngineStep::Advance { due, .. } && (due.contains(
            source,
        ) || !engine_after(model, unturned_engine(), steps).0.sources.contains_key(source)))
            ==> total(model, engine_after(model, unturned_engine(), steps).1, stream)
            == position_by(model, stream, ticks_of(steps), clock(steps)),
    decreases steps.len(),
{
    let (engine, frames) = engine_after(model, unturned_engine(), steps);
    if steps.len() == 0 {
        let ideal = drawn(model, stream, ticks_of(steps));
        assert(ideal.pulses =~= Seq::empty());
        assert(tidy(ideal.pulses, 0));
        assert(total(model, frames, stream) == model.rest());
        assert(has_arrived(model, ideal, model.rest(), 0));
    } else {
        let earlier = steps.drop_last();
        lemma_wheel_is_on_course(model, source, stream, earlier);
        let (before, first) = engine_after(model, unturned_engine(), earlier);
        let (after, second) = engine_step(model, before, steps.last());
        let now = clock(earlier);
        let at = clock(steps);
        let ideal = drawn(model, stream, ticks_of(earlier));
        let seen = total(model, first, stream);
        lemma_totals_add_up(model, first, second, stream);
        match steps.last() {
            EngineStep::Tick { impulse, tuning, .. } => {
                let tick = TimedTick { impulse, at, tuning };
                let amplitude = plain_amplitude(model, tick);
                assert(ticks_of(steps).drop_last() =~= ticks_of(earlier));
                assert(ticks_of(steps).last() == tick);
                let drawn_after = placed(model, ideal, amplitude, at, tuning.duration);
                assert(drawn(model, stream, ticks_of(steps)) == drawn_after);
                lemma_placing_is_tidy(model, ideal, amplitude, now, at, tuning.duration);
                if before.sources.contains_key(source) {
                    let motion = before.sources[source];
                    lemma_flat_amplitude(model, motion, tick);
                    let (noted, _) = noted_tick(model, motion, impulse, at, tuning);
                    assert(keeps_pace(model, noted, ideal, seen, now));
                    lemma_placing_keeps_pace(
                        model,
                        noted,
                        ideal,
                        seen,
                        amplitude,
                        now,
                        at,
                        tuning.duration,
                    );
                    lemma_placing_is_tidy(model, noted, amplitude, now, at, tuning.duration);
                    let set_out = placed(model, noted, amplitude, at, tuning.duration);
                    lemma_evaluation_keeps_pace(model, set_out, drawn_after, seen, at, at);
                    let (moved, update) = evaluated(model, set_out, at);
                    let (ticked_motion, _) = ticked(model, motion, impulse, at, tuning);
                    let kept = EngineView {
                        sources: if update is Finished {
                            before.sources.remove(source)
                        } else {
                            before.sources.insert(source, ticked_motion)
                        },
                        ..before
                    };
                    lemma_update_is_shown(model, kept, stream, update, stream);
                    assert(second =~= shown(model, kept, stream, update).1);
                    if !(update is Finished) {
                        assert(keeps_pace(
                            model,
                            ticked_motion,
                            drawn_after,
                            total(model, frames, stream),
                            at,
                        ));
                    }
                } else {
                    let rested = still(model, stream, at, tuning);
                    lemma_flat_amplitude(model, rested, tick);
                    let (noted, _) = noted_tick(model, rested, impulse, at, tuning);
                    lemma_start_keeps_pace(
                        model,
                        noted,
                        ideal,
                        seen,
                        amplitude,
                        now,
                        at,
                        tuning.duration,
                    );
                    assert(tidy(noted.pulses, now));
                    lemma_placing_is_tidy(model, noted, amplitude, now, at, tuning.duration);
                    assert(second =~= Seq::empty());
                    lemma_sums(model, seen, seen, seen);
                }
            },
            EngineStep::Advance { due, .. } => {
                lemma_one_due(model, before, source, due, at);
                if due.contains(source) {
                    let motion = before.sources[source];
                    lemma_evaluation_keeps_pace(model, motion, ideal, seen, now, at);
                    let (moved, update) = evaluated(model, motion, at);
                    let (advanced_motion, _) = advanced(model, motion, at);
                    let kept = EngineView {
                        sources: if update is Finished {
                            before.sources.remove(source)
                        } else {
                            before.sources.insert(source, advanced_motion)
                        },
                        ..before
                    };
                    lemma_update_is_shown(model, kept, stream, update, stream);
                    if !(update is Finished) {
                        assert(keeps_pace(
                            model,
                            advanced_motion,
                            ideal,
                            total(model, frames, stream),
                            at,
                        ));
                    }
                } else {
                    lemma_sums(model, seen, seen, seen);
                }
                assert(tidy(ideal.pulses, at));
            },
        }
    }
}

/// Frames follow the clock: when a frame was due, or the wheel has run out,
/// what has been shown is where the ticks put the wheel at that time, however
/// many frames came before.
pub proof fn lemma_frames_follow_the_clock<S>(
    model: Model<S>,
    source: u64,
    stream: ScrollStream,
    steps: Seq<EngineStep<S>>,
)
    requires
        model.exact(),
        ends_exactly(model),
        one_wheel(model, source, stream, steps),
        orderly(model, unturned_engine(), steps),
        steps.len() > 0,
        steps.last() matches EngineStep::Advance { due, .. } && (due.contains(source)
            || !engine_after(model, unturned_engine(), steps).0.sources.contains_key(source)),
    ensures
        total(model, engine_after(model, unturned_engine(), steps).1, stream) == position_by(
            model,
            stream,
            ticks_of(steps),
            clock(steps),
        ),
{
    lemma_wheel_is_on_course(model, source, stream, steps);
}

/// Two runs with the same ticks have shown the same by the same due frame,
/// whatever frames came before.
pub proof fn lemma_earlier_frames_do_not_matter<S>(
    model: Model<S>,
    source: u64,
    stream: ScrollStream,
    dense: Seq<EngineStep<S>>,
    sparse: Seq<EngineStep<S>>,
)
    requires
        model.exact(),
        ends_exactly(model),
        one_wheel(model, source, stream, dense),
        one_wheel(model, source, stream, sparse),
        orderly(model, unturned_engine(), dense),
        orderly(model, unturned_engine(), sparse),
        ticks_of(dense) == ticks_of(sparse),
        clock(dense) == clock(sparse),
        dense.len() > 0,
        sparse.len() > 0,
        dense.last() matches EngineStep::Advance { due, .. } && (due.contains(source)
            || !engine_after(model, unturned_engine(), dense).0.sources.contains_key(source)),
        sparse.last() matches EngineStep::Advance { due, .. } && (due.contains(source)
            || !engine_after(model, unturned_engine(), sparse).0.sources.contains_key(source)),
    ensures
        total(model, engine_after(model, unturned_engine(), dense).1, stream) == total(
            model,
            engine_after(model, unturned_engine(), sparse).1,
            stream,
        ),
{
    lemma_frames_follow_the_clock(model, source, stream, dense);
    lemma_frames_follow_the_clock(model, source, stream, sparse);
}

/// The latest end of pulses that are all over by `by` is no later.
proof fn lemma_latest_end_is_bounded<S>(pulses: Seq<Pulse<S>>, floor: int, by: u64)
    requires
        floor <= by,
        forall|i: int| 0 <= i < pulses.len() ==> pulse_end(#[trigger] pulses[i]) <= by,
    ensures
        latest_end(pulses, floor) <= by,
        latest_end(pulses, floor) >= floor,
    decreases pulses.len(),
{
    if pulses.len() > 0 {
        let before = pulses.drop_last();
        assert forall|i: int| 0 <= i < before.len() implies pulse_end(#[trigger] before[i])
            <= by by {
            assert(before[i] == pulses[i]);
        }
        assert(pulses.last() == pulses[pulses.len() - 1]);
        lemma_latest_end_is_bounded(before, floor, by);
    }
}

/// Live pulses end when they did.
proof fn lemma_live_ends<S>(pulses: Seq<Pulse<S>>, at: u64, by: u64)
    requires
        forall|i: int| 0 <= i < pulses.len() ==> pulse_end(#[trigger] pulses[i]) <= by,
    ensures
        forall|i: int| 0 <= i < live(pulses, at).len() ==> pulse_end(
            #[trigger] live(pulses, at)[i],
        ) <= by,
        at >= by ==> live(pulses, at).len() == 0,
    decreases pulses.len(),
{
    if pulses.len() > 0 {
        let before = pulses.drop_last();
        assert forall|i: int| 0 <= i < before.len() implies pulse_end(#[trigger] before[i])
            <= by by {
            assert(before[i] == pulses[i]);
        }
        assert(pulses.last() == pulses[pulses.len() - 1]);
        lemma_live_ends(before, at, by);
        assert forall|i: int| 0 <= i < live(pulses, at).len() implies pulse_end(
            #[trigger] live(pulses, at)[i],
        ) <= by by {
            if i < live(before, at).len() {
                assert(live(pulses, at)[i] == live(before, at)[i]);
            }
        }
    }
}

/// Everything about a motion is over by `by`.
spec fn over_by<S>(motion: MotionView<S>, by: u64) -> bool {
    &&& forall|i: int| 0 <= i < motion.pulses.len() ==> pulse_end(#[trigger] motion.pulses[i]) <= by
    &&& motion.last_tick_at + motion.hold <= by
    &&& motion.next_frame <= by
}

/// Whether every tick's pulse and hold are over by `by`.
pub open spec fn ticks_over_by<S>(ticks: Seq<TimedTick<S>>, by: u64) -> bool {
    forall|i: int|
        0 <= i < ticks.len() ==> {
            &&& (#[trigger] ticks[i]).at + ticks[i].tuning.duration <= by
            &&& ticks[i].at + ticks[i].tuning.hold <= by
        }
}

/// How one wheel's output stands: a motion that is over by `by` while it
/// lasts, output under way only while it does, and phases that ended where it
/// is not.
spec fn winds_down<S>(
    model: Model<S>,
    source: u64,
    stream: ScrollStream,
    steps: Seq<EngineStep<S>>,
    by: u64,
) -> bool {
    let (engine, frames) = engine_after(model, unturned_engine(), steps);
    &&& forall|other: u64| #[trigger] engine.sources.contains_key(other) ==> other == source
    &&& engine.sources.contains_key(source) ==> {
        &&& engine.sources[source].stream == stream
        &&& over_by(engine.sources[source], by)
    }
    &&& engine.under_way(stream) ==> engine.sources.contains_key(source)
    &&& all_on(frames, stream)
    &&& !engine.under_way(stream) && frames.len() > 0 ==> frames.last().phase
        == SmoothScrollPhase::Ended
}

/// The frames for an update of the only wheel keep its output in order.
proof fn lemma_update_winds_down<S>(
    model: Model<S>,
    kept: EngineView<S>,
    source: u64,
    stream: ScrollStream,
    update: MotionUpdate<S>,
    first: Seq<ScrollFrame<S>>,
)
    requires
        kept.sources.contains_key(source) == !(update is Finished),
        kept.sources.contains_key(source) ==> kept.sources[source].stream == stream,
        forall|other: u64| #[trigger] kept.sources.contains_key(other) ==> other == source,
        all_on(first, stream),
        !kept.under_way(stream) && first.len() > 0 ==> first.last().phase
            == SmoothScrollPhase::Ended,
    ensures
        ({
            let (after, second) = shown(model, kept, stream, update);
            &&& after.sources == kept.sources
            &&& after.under_way(stream) ==> kept.sources.contains_key(source)
            &&& all_on(first + second, stream)
            &&& !after.under_way(stream) && (first + second).len() > 0 ==> (first
                + second).last().phase == SmoothScrollPhase::Ended
        }),
{
    let (after, second) = shown(model, kept, stream, update);
    if update is Finished {
        assert(!feeds(kept.sources, stream));
    } else {
        assert(feeds(kept.sources, stream));
    }
    let frames = first + second;
    assert forall|i: int| 0 <= i < frames.len() implies (#[trigger] frames[i]).stream == stream by {
        if i < first.len() {
            assert(frames[i] == first[i]);
        } else {
            assert(frames[i] == second[i - first.len()]);
        }
    }
    if second.len() == 0 {
        assert(frames =~= first);
    } else {
        assert(frames.last() == second.last());
    }
}

proof fn lemma_wheel_winds_down<S>(
    model: Model<S>,
    source: u64,
    stream: ScrollStream,
    steps: Seq<EngineStep<S>>,
    by: u64,
)
    requires
        one_wheel(model, source, stream, steps),
        orderly(model, unturned_engine(), steps),
        ticks_over_by(ticks_of(steps), by),
    ensures
        winds_down(model, source, stream, steps, by),
    decreases steps.len(),
{
    if steps.len() > 0 {
        let earlier = steps.drop_last();
        assert forall|i: int| 0 <= i < ticks_of(earlier).len() implies {
            &&& (#[trigger] ticks_of(earlier)[i]).at + ticks_of(earlier)[i].tuning.duration <= by
            &&& ticks_of(earlier)[i].at + ticks_of(earlier)[i].tuning.hold <= by
        } by {
            assert(ticks_of(steps)[i] == ticks_of(earlier)[i]);
        }
        lemma_wheel_winds_down(model, source, stream, earlier, by);
        let (before, first) = engine_after(model, unturned_engine(), earlier);
        let (after, second) = engine_step(model, before, steps.last());
        match steps.last() {
            EngineStep::Tick { impulse, at, tuning, .. } => {
                let tick = TimedTick { impulse, at, tuning };
                assert(ticks_of(steps)[ticks_of(steps).len() - 1] == tick);
                if before.sources.contains_key(source) {
                    let motion = before.sources[source];
                    let (noted, amplitude) = noted_tick(model, motion, impulse, at, tuning);
                    let set_out = placed(model, noted, amplitude, at, tuning.duration);
                    lemma_placing_is_over(model, noted, amplitude, at, tuning.duration, by);
                    lemma_live_ends(set_out.pulses, at, by);
                    let (moved, update) = ticked(model, motion, impulse, at, tuning);
                    let kept = EngineView {
                        sources: if update is Finished {
                            before.sources.remove(source)
                        } else {
                            before.sources.insert(source, moved)
                        },
                        ..before
                    };
                    lemma_update_winds_down(model, kept, source, stream, update, first);
                    assert(second =~= shown(model, kept, stream, update).1);
                } else {
                    let rested = still(model, stream, at, tuning);
                    let (noted, amplitude) = noted_tick(model, rested, impulse, at, tuning);
                    lemma_placing_is_over(model, noted, amplitude, at, tuning.duration, by);
                    assert(second =~= Seq::empty());
                    assert(first + second =~= first);
                    assert(after.sources[source] == started(model, stream, impulse, at, tuning));
                }
            },
            EngineStep::Advance { due, at } => {
                lemma_one_due(model, before, source, due, at);
                if due.contains(source) {
                    let motion = before.sources[source];
                    let (moved, update) = advanced(model, motion, at);
                    lemma_live_ends(motion.pulses, at, by);
                    lemma_latest_end_is_bounded(
                        moved.pulses,
                        motion.last_tick_at + motion.hold,
                        by,
                    );
                    let kept = EngineView {
                        sources: if update is Finished {
                            before.sources.remove(source)
                        } else {
                            before.sources.insert(source, moved)
                        },
                        ..before
                    };
                    lemma_update_winds_down(model, kept, source, stream, update, first);
                } else {
                    assert(first + second =~= first);
                }
            },
        }
    }
}

/// A tick whose pulse is over by `by` leaves pulses that are.
proof fn lemma_placing_is_over<S>(
    model: Model<S>,
    motion: MotionView<S>,
    amplitude: WheelDelta<S>,
    at: u64,
    duration: u64,
    by: u64,
)
    requires
        forall|i: int|
            0 <= i < motion.pulses.len() ==> pulse_end(#[trigger] motion.pulses[i]) <= by,
        at + duration <= by,
    ensures
        forall|i: int|
            0 <= i < placed(model, motion, amplitude, at, duration).pulses.len() ==> pulse_end(
                #[trigger] placed(model, motion, amplitude, at, duration).pulses[i],
            ) <= by,
{
    let after = placed(model, motion, amplitude, at, duration).pulses;
    assert forall|i: int| 0 <= i < after.len() implies pulse_end(#[trigger] after[i]) <= by by {
        if i < motion.pulses.len() {
            assert(pulse_end(motion.pulses[i]) <= by);
        }
    }
}

/// The ticks describe a motion that ends where they add up to.
proof fn lemma_drawn_destination<S>(
    model: Model<S>,
    stream: ScrollStream,
    ticks: Seq<TimedTick<S>>,
)
    requires
        model.exact(),
    ensures
        ({
            let motion = drawn(model, stream, ticks);
            destination(model, motion.settled, motion.pulses) == summed(model, ticks)
        }),
    decreases ticks.len(),
{
    if ticks.len() > 0 {
        lemma_drawn_destination(model, stream, ticks.drop_last());
        lemma_tick_adds_its_amplitude(
            model,
            drawn(model, stream, ticks.drop_last()),
            plain_amplitude(model, ticks.last()),
            ticks.last().at,
            ticks.last().tuning.duration,
        );
    }
}

/// A wheel that is advanced once all its ticks are over has run out: it is
/// gone, its output has ended, and its frames add up to its ticks.
pub proof fn lemma_wheel_runs_out<S>(
    model: Model<S>,
    source: u64,
    stream: ScrollStream,
    steps: Seq<EngineStep<S>>,
)
    requires
        model.exact(),
        ends_exactly(model),
        one_wheel(model, source, stream, steps),
        orderly(model, unturned_engine(), steps),
        steps.len() > 0,
        steps.last() is Advance,
        ticks_over_by(ticks_of(steps), clock(steps)),
    ensures
        ({
            let (engine, frames) = engine_after(model, unturned_engine(), steps);
            &&& !engine.sources.contains_key(source)
            &&& !engine.under_way(stream)
            &&& total(model, frames, stream) == summed(model, ticks_of(steps))
            &&& all_on(frames, stream)
            &&& frames.len() > 0 ==> frames.last().phase == SmoothScrollPhase::Ended
        }),
{
    let by = clock(steps);
    let earlier = steps.drop_last();
    assert(ticks_of(steps) == ticks_of(earlier));
    lemma_wheel_winds_down(model, source, stream, steps, by);
    lemma_wheel_winds_down(model, source, stream, earlier, by);
    let (before, _) = engine_after(model, unturned_engine(), earlier);
    let (engine, frames) = engine_after(model, unturned_engine(), steps);
    match steps.last() {
        EngineStep::Advance { due, at } => {
            lemma_one_due(model, before, source, due, at);
            if before.sources.contains_key(source) {
                let motion = before.sources[source];
                assert(motion.next_frame <= at);
                assert(due.contains(source));
                lemma_live_ends(motion.pulses, at, by);
                assert(live(motion.pulses, at) =~= Seq::empty());
                assert(is_last(advanced(model, motion, at).1));
            }
        },
        EngineStep::Tick { .. } => {},
    }
    assert(!engine.sources.contains_key(source));
    lemma_wheel_is_on_course(model, source, stream, steps);
    lemma_drawn_destination(model, stream, ticks_of(steps));
    let ideal = drawn(model, stream, ticks_of(steps));
    assert(live(ideal.pulses, by) =~= Seq::empty());
    lemma_settling_keeps_the_destination(model, ideal.settled, ideal.pulses, by);
}

} // verus!
