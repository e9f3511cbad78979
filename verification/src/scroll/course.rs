//! The course of motions: when each is over, when its next frame is due, what
//! a tick sets out, and that nobody else's motion is touched by it.

use crate::scroll::conservation::lemma_position_shifts;
use crate::scroll::curve::spent;
use crate::scroll::engine::{
    all_advanced, feeds, impulsed, lists_due, shown, source_advanced, source_cancelled, EngineView,
};
use crate::scroll::math::{Model, WheelDelta};
use crate::scroll::motion::{
    advanced, bounded, evaluated, frame_after, latest_end, lemma_latest_end, lemma_live_is_empty,
    lemma_live_is_part, live, placed, position, pulse_end,
    pulse_position, started, ticked,
    MotionTuning, MotionUpdate, MotionView, Pulse, ScrollStream, FRAME_INTERVAL, MAX_PULSES,
};
use crate::scroll::output::{cancelled, phase_step, SmoothScrollPhase};
use vstd::prelude::*;

verus! {

/// A motion is over exactly once every pulse has run for its whole time and
/// the hold after the last tick has passed.
pub proof fn lemma_when_a_motion_is_over<S>(model: Model<S>, before: MotionView<S>, at: u64)
    ensures
        evaluated(model, before, at).1 is Finished <==> at >= before.last_tick_at + before.hold && (
        forall|i: int|
            0 <= i < before.pulses.len() ==> at >= (#[trigger] before.pulses[i]).started_at
                + before.pulses[i].duration),
        advanced(model, before, at).1 == evaluated(model, before, at).1,
{
    lemma_live_is_empty(before.pulses, at);
    if forall|i: int|
        0 <= i < before.pulses.len() ==> at >= (#[trigger] before.pulses[i]).started_at
            + before.pulses[i].duration {
        assert(live(before.pulses, at).len() == 0);
    }
}

/// The next frame of a motion that goes on is due later than this one, and no
/// more than a frame later; it keeps the cadence, unless the motion is over
/// before.
pub proof fn lemma_next_frame_is_a_frame_away<S>(model: Model<S>, before: MotionView<S>, at: u64)
    requires
        bounded(before),
        before.next_frame <= at,
        at + FRAME_INTERVAL <= u64::MAX,
        advanced(model, before, at).1 is Active,
    ensures
        ({
            let after = advanced(model, before, at).0;
            &&& at < after.next_frame <= at + FRAME_INTERVAL
            &&& (after.next_frame - before.next_frame) % (FRAME_INTERVAL as int) == 0 || (
            after.next_frame == before.last_tick_at + before.hold || exists|i: int|
                0 <= i < before.pulses.len() && after.next_frame == (
                #[trigger] before.pulses[i]).started_at + before.pulses[i].duration)
        }),
{
    let after = evaluated(model, before, at).0;
    let held = before.last_tick_at + before.hold;
    lemma_latest_end(after.pulses, held);
    lemma_live_is_part(before.pulses, at);
    lemma_live_is_empty(before.pulses, at);
    let end = latest_end(after.pulses, held);
    let frame = frame_after(before.next_frame, at);
    let behind = at - before.next_frame;
    let frames = behind / FRAME_INTERVAL as int + 1;
    assert(frame == before.next_frame + frames * FRAME_INTERVAL);
    assert(at < frame <= at + FRAME_INTERVAL) by (nonlinear_arith)
        requires
            behind == at - before.next_frame,
            behind >= 0,
            frames == behind / FRAME_INTERVAL as int + 1,
            frame == before.next_frame + frames * FRAME_INTERVAL,
            FRAME_INTERVAL > 0,
    ;
    assert((frames * FRAME_INTERVAL) % (FRAME_INTERVAL as int) == 0) by (nonlinear_arith)
        requires
            FRAME_INTERVAL > 0,
    ;
    if after.pulses.len() > 0 {
        assert(at < after.pulses[0].started_at + after.pulses[0].duration);
    }
    if end != held {
        let i = choose|i: int|
            0 <= i < after.pulses.len() && pulse_end(
                #[trigger] after.pulses[i],
            ) == end;
        let pulse = after.pulses[i];
        assert(before.pulses.contains(pulse));
        let k = choose|k: int| 0 <= k < before.pulses.len() && before.pulses[k] == pulse;
        assert(before.pulses[k] == pulse);
        assert(end <= u64::MAX);
    }
}

/// A tick is shown a frame after it arrived at the latest, and starts the
/// motion's cadence anew.
pub proof fn lemma_tick_starts_the_cadence<S>(
    model: Model<S>,
    before: MotionView<S>,
    impulse: WheelDelta<S>,
    at: u64,
    tuning: MotionTuning<S>,
)
    requires
        at + FRAME_INTERVAL <= u64::MAX,
        ticked(model, before, impulse, at, tuning).1 is Active,
    ensures
        ticked(model, before, impulse, at, tuning).0.next_frame == at + FRAME_INTERVAL,
        ticked(model, before, impulse, at, tuning).0.last_tick_at == at,
        ticked(model, before, impulse, at, tuning).0.hold == tuning.hold,
        ticked(model, before, impulse, at, tuning).0.stream == before.stream,
{
}

/// Whether a tick is drawn together with the one before it: that one came less
/// than a frame ago, or there is no room for another pulse.
pub open spec fn drawn_together<S>(pulses: Seq<Pulse<S>>, at: u64) -> bool {
    pulses.len() > 0 && (pulses.len() >= MAX_PULSES || at - pulses.last().opened_at
        < FRAME_INTERVAL)
}

/// Ticks a frame apart move a wheel independently: at every later time the
/// wheel is where it would have been, and what the tick has covered by itself
/// in its own duration since it arrived.
pub proof fn lemma_ticks_superpose<S>(
    model: Model<S>,
    before: MotionView<S>,
    amplitude: WheelDelta<S>,
    at: u64,
    duration: u64,
    later: u64,
)
    requires
        !drawn_together(before.pulses, at),
        at <= later,
    ensures
        ({
            let after = placed(model, before, amplitude, at, duration);
            position(model, after.settled, after.pulses, later) == model.sum(
                position(model, before.settled, before.pulses, later),
                model.scaled(amplitude, spent(model, (later - at) as u64, duration)),
            )
        }),
{
    let after = placed(model, before, amplitude, at, duration);
    assert(after.pulses.drop_last() =~= before.pulses);
}

/// Ticks within a frame are drawn together: what the newest pulse has covered
/// by then stays covered, and the rest of it sets out anew with the tick, in
/// the tick's duration.
pub proof fn lemma_ticks_within_a_frame_are_drawn_together<S>(
    model: Model<S>,
    before: MotionView<S>,
    amplitude: WheelDelta<S>,
    at: u64,
    duration: u64,
    later: u64,
)
    requires
        model.exact(),
        drawn_together(before.pulses, at),
        at <= later,
    ensures
        ({
            let after = placed(model, before, amplitude, at, duration);
            let newest = before.pulses.last();
            let covered = pulse_position(model, newest, at);
            let set_out = model.sum(model.difference(newest.amplitude, covered), amplitude);
            let others = model.sum(
                position(model, before.settled, before.pulses.drop_last(), later),
                covered,
            );
            &&& !model.vanishes(set_out) ==> position(model, after.settled, after.pulses, later)
                == model.sum(
                others,
                model.scaled(set_out, spent(model, (later - at) as u64, duration)),
            )
            &&& model.vanishes(set_out) ==> position(model, after.settled, after.pulses, later)
                == others
            &&& after.pulses.len() <= before.pulses.len()
            &&& !model.vanishes(set_out) ==> after.pulses.last().opened_at == newest.opened_at
        }),
{
    let after = placed(model, before, amplitude, at, duration);
    let rest = before.pulses.drop_last();
    let covered = pulse_position(model, before.pulses.last(), at);
    lemma_position_shifts(model, before.settled, covered, rest, later);
    if after.pulses != rest {
        assert(after.pulses.drop_last() =~= rest);
    }
}

/// A tick touches nobody else's motion. Its own is there afterwards, bound for
/// the tick's stream, unless the tick ended it.
pub proof fn lemma_a_tick_moves_its_own_wheel<S>(
    model: Model<S>,
    engine: EngineView<S>,
    source: u64,
    stream: ScrollStream,
    impulse: WheelDelta<S>,
    at: u64,
    tuning: MotionTuning<S>,
    other: u64,
)
    ensures
        ({
            let after = impulsed(model, engine, source, stream, impulse, at, tuning).0;
            let goes_on = engine.sources.contains_key(source) && engine.sources[source].stream
                == stream;
            &&& other != source ==> after.sources.contains_key(other)
                == engine.sources.contains_key(other)
            &&& other != source && engine.sources.contains_key(other) ==> after.sources[other]
                == engine.sources[other]
            &&& !goes_on ==> after.sources.contains_key(source) && after.sources[source]
                == started(model, stream, impulse, at, tuning)
            &&& goes_on ==> {
                let (motion, update) = ticked(
                    model,
                    engine.sources[source],
                    impulse,
                    at,
                    tuning,
                );
                &&& after.sources.contains_key(source) <==> update is Active
                &&& update is Active ==> after.sources[source] == motion
            }
        }),
{
}

/// A motion starts with its first tick's amplitude alone, nothing of it shown.
pub proof fn lemma_a_motion_starts_from_rest<S>(
    model: Model<S>,
    stream: ScrollStream,
    impulse: WheelDelta<S>,
    at: u64,
    tuning: MotionTuning<S>,
)
    requires
        at + FRAME_INTERVAL <= u64::MAX,
    ensures
        ({
            let motion = started(model, stream, impulse, at, tuning);
            &&& motion.stream == stream
            &&& motion.emitted == model.rest()
            &&& motion.settled == model.rest()
            &&& motion.pulses.len() == 1
            &&& motion.pulses[0].started_at == at
            &&& motion.pulses[0].opened_at == at
            &&& motion.pulses[0].duration == tuning.duration
            &&& motion.last_tick_at == at
            &&& motion.hold == tuning.hold
            &&& motion.next_frame == at + FRAME_INTERVAL
        }),
{
}

/// Exactly the motions with a frame due advance, each by itself: one that is
/// over is gone, any other is advanced, and a motion whose frame is not due is
/// left as it is.
pub proof fn lemma_exactly_the_due_motions_advance<S>(
    model: Model<S>,
    engine: EngineView<S>,
    due: Seq<u64>,
    at: u64,
    source: u64,
)
    requires
        lists_due(engine.sources, at, due),
    ensures
        ({
            let after = all_advanced(model, engine, due, at).0;
            let moves = engine.sources.contains_key(source);
            let is_due = moves && engine.sources[source].next_frame <= at;
            let (motion, update) = advanced(model, engine.sources[source], at);
            &&& !moves ==> !after.sources.contains_key(source)
            &&& moves && !is_due ==> after.sources.contains_key(source) && after.sources[source]
                == engine.sources[source]
            &&& is_due && update is Finished ==> !after.sources.contains_key(source)
            &&& is_due && update is Active ==> after.sources.contains_key(source)
                && after.sources[source] == motion
        }),
{
    assert forall|i: int| 0 <= i < due.len() implies engine.sources.contains_key(
        #[trigger] due[i],
    ) by {
        assert(due.contains(due[i]));
    }
    lemma_listed_motions_advance(model, engine, due, at, source);
}

proof fn lemma_listed_motions_advance<S>(
    model: Model<S>,
    engine: EngineView<S>,
    due: Seq<u64>,
    at: u64,
    source: u64,
)
    requires
        due.no_duplicates(),
        forall|i: int| 0 <= i < due.len() ==> engine.sources.contains_key(#[trigger] due[i]),
    ensures
        ({
            let after = all_advanced(model, engine, due, at).0;
            let (motion, update) = advanced(model, engine.sources[source], at);
            &&& !due.contains(source) ==> after.sources.contains_key(source)
                == engine.sources.contains_key(source)
            &&& !due.contains(source) && engine.sources.contains_key(source)
                ==> after.sources[source] == engine.sources[source]
            &&& due.contains(source) && update is Finished ==> !after.sources.contains_key(source)
            &&& due.contains(source) && update is Active ==> after.sources.contains_key(source)
                && after.sources[source] == motion
        }),
    decreases due.len(),
{
    if due.len() > 0 {
        let earlier = due.drop_last();
        let last = due.last();
        assert(last == due[due.len() - 1]);
        assert forall|i: int| 0 <= i < earlier.len() implies engine.sources.contains_key(
            #[trigger] earlier[i],
        ) by {
            assert(earlier[i] == due[i]);
        }
        assert forall|i: int, j: int|
            0 <= i < earlier.len() && 0 <= j < earlier.len() && i != j implies earlier[i]
            != earlier[j] by {
            assert(due[i] != due[j]);
        }
        lemma_listed_motions_advance(model, engine, earlier, at, source);
        lemma_listed_motions_advance(model, engine, earlier, at, last);
        assert(!earlier.contains(last)) by {
            if earlier.contains(last) {
                let k = choose|k: int| 0 <= k < earlier.len() && earlier[k] == last;
                assert(due[k] == due[due.len() - 1]);
            }
        }
        assert(due.contains(last));
        assert(source != last ==> due.contains(source) == earlier.contains(source)) by {
            if earlier.contains(source) {
                let k = choose|k: int| 0 <= k < earlier.len() && earlier[k] == source;
                assert(due[k] == source);
            }
            if due.contains(source) && source != last {
                let k = choose|k: int| 0 <= k < due.len() && due[k] == source;
                assert(earlier[k] == source);
            }
        }
        let before = all_advanced(model, engine, earlier, at).0;
        assert(before.sources.contains_key(last));
        let after = source_advanced(model, before, last, at).0;
        assert(all_advanced(model, engine, due, at).0 == after);
    }
}

/// Dropping a wheel's motion drops no other. Its output is cancelled, by one
/// frame that goes nowhere, exactly where it was under way and nothing else
/// feeds it.
pub proof fn lemma_dropping_a_motion_spares_the_others<S>(
    model: Model<S>,
    engine: EngineView<S>,
    source: u64,
    other: u64,
)
    ensures
        ({
            let (after, frames) = source_cancelled(model, engine, source);
            let moves = engine.sources.contains_key(source);
            let stream = engine.sources[source].stream;
            let shared = feeds(engine.sources.remove(source), stream);
            let ends = moves && engine.under_way(stream) && !shared;
            &&& !after.sources.contains_key(source)
            &&& other != source ==> after.sources.contains_key(other)
                == engine.sources.contains_key(other)
            &&& other != source && engine.sources.contains_key(other) ==> after.sources[other]
                == engine.sources[other]
            &&& frames.len() == if ends {
                1nat
            } else {
                0nat
            }
            &&& ends ==> frames[0].stream == stream && frames[0].phase
                == SmoothScrollPhase::Cancelled && frames[0].delta == model.rest()
            &&& forall|any: ScrollStream| #[trigger]
                after.under_way(any) == (engine.under_way(any) && !(moves && any == stream
                    && !shared))
        }),
{
    if !engine.sources.contains_key(source) {
        assert(engine.sources.remove(source) =~= engine.sources);
    }
}

/// An update's frames are all on its own stream, and go its distance once. Output ends with them exactly
/// where the update is the last of the last motion that feeds it, and is under
/// way after any other that showed something, or was before.
pub proof fn lemma_output_ends_with_its_last_motion<S>(
    model: Model<S>,
    engine: EngineView<S>,
    stream: ScrollStream,
    update: MotionUpdate<S>,
)
    ensures
        ({
            let (after, frames) = shown(model, engine, stream, update);
            let delta = match update {
                MotionUpdate::Active(delta) => delta,
                MotionUpdate::Finished(delta) => delta,
            };
            let last = update is Finished && !feeds(engine.sources, stream);
            let visible = !model.vanishes(delta);
            &&& forall|i: int|
                0 <= i < frames.len() ==> (#[trigger] frames[i]).stream == stream && !(
                frames[i].phase == SmoothScrollPhase::Cancelled)
            &&& forall|any: ScrollStream| #[trigger]
                after.under_way(any) == if any == stream {
                    !last && (engine.under_way(stream) || visible)
                } else {
                    engine.under_way(any)
                }
            &&& frames.len() > 0 <==> visible || (last && engine.under_way(stream))
            &&& frames.len() > 0 ==> frames[0].delta == delta
            &&& frames.len() <= 2
            &&& frames.len() == 2 <==> visible && last && !engine.under_way(stream)
            &&& frames.len() == 2 ==> frames[1].delta == model.rest()
            &&& frames.len() > 0 ==> (frames.last().phase == SmoothScrollPhase::Ended <==> last)
        }),
{
}

/// A stretch of output begins only where none is under way, and changes or
/// comes to an end only where one is.
pub proof fn lemma_phases_take_turns(active: bool, phase: SmoothScrollPhase)
    ensures
        phase_step(active, phase) is Some <==> (phase == SmoothScrollPhase::Began) != active,
        phase_step(active, phase) matches Some(on) ==> (on <==> phase == SmoothScrollPhase::Began
            || phase == SmoothScrollPhase::Changed),
{
}

/// Giving up output tells of it once, on its own stream, and goes nowhere;
/// there is nothing to tell where none is under way.
pub proof fn lemma_giving_up_is_told_once<S>(model: Model<S>, stream: ScrollStream, active: bool)
    ensures
        cancelled(model, stream, active).len() == if active {
            1nat
        } else {
            0nat
        },
        active ==> ({
            let frame = cancelled(model, stream, active)[0];
            frame.stream == stream && frame.phase == SmoothScrollPhase::Cancelled && frame.delta
                == model.rest()
        }),
{
}

} // verus!
