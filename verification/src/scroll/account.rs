//! What the frames add up to: in exact arithmetic the engine shows, stream by
//! stream, every distance that was put into it, whatever the frame times and
//! however many wheels turn at once.

use crate::scroll::conservation::{
    destination, ends_exactly, lemma_finished_motion_reached_its_destination,
    lemma_settling_keeps_the_destination, lemma_sums, lemma_sums_cancel, lemma_tick_adds_its_amplitude,
    lemma_ticks_are_conserved, lemma_updates_add_up,
};
use crate::scroll::engine::{
    all_advanced, feeds, impulsed, lists_due, shown, source_advanced, EngineView,
};
use crate::scroll::math::{Model, WheelDelta};
use crate::scroll::motion::{
    advanced, evaluated, noted_tick, placed, started, still, ticked, MotionTuning, MotionUpdate,
    MotionView, ScrollStream,
};
use crate::scroll::output::ScrollFrame;
use vstd::prelude::*;

verus! {

/// All the distance that `frames` show on `stream`.
pub open spec fn total<S>(
    model: Model<S>,
    frames: Seq<ScrollFrame<S>>,
    stream: ScrollStream,
) -> WheelDelta<S>
    decreases frames.len(),
{
    if frames.len() == 0 {
        model.rest()
    } else {
        let earlier = total(model, frames.drop_last(), stream);
        if frames.last().stream == stream {
            model.sum(earlier, frames.last().delta)
        } else {
            earlier
        }
    }
}

/// Something that happens to an engine.
pub enum EngineStep<S> {
    /// A tick of one source.
    Tick {
        source: u64,
        stream: ScrollStream,
        impulse: WheelDelta<S>,
        at: u64,
        tuning: MotionTuning<S>,
    },
    /// The sources with a frame due advance, one after the other.
    Advance { due: Seq<u64>, at: u64 },
}

/// An engine after one step, and the frames of the step.
pub open spec fn engine_step<S>(model: Model<S>, engine: EngineView<S>, step: EngineStep<S>) -> (
    EngineView<S>,
    Seq<ScrollFrame<S>>,
) {
    match step {
        EngineStep::Tick { source, stream, impulse, at, tuning } => impulsed(
            model,
            engine,
            source,
            stream,
            impulse,
            at,
            tuning,
        ),
        EngineStep::Advance { due, at } => all_advanced(model, engine, due, at),
    }
}

/// An engine after `steps`, and all the frames on the way.
pub open spec fn engine_after<S>(
    model: Model<S>,
    start: EngineView<S>,
    steps: Seq<EngineStep<S>>,
) -> (EngineView<S>, Seq<ScrollFrame<S>>)
    decreases steps.len(),
{
    if steps.len() == 0 {
        (start, Seq::empty())
    } else {
        let (before, earlier) = engine_after(model, start, steps.drop_last());
        let (after, frames) = engine_step(model, before, steps.last());
        (after, earlier + frames)
    }
}

/// Whether a step is one that an engine takes without giving anything up: a
/// source keeps to its stream, and exactly the sources with a frame due
/// advance.
pub open spec fn orderly_step<S>(engine: EngineView<S>, step: EngineStep<S>) -> bool {
    match step {
        EngineStep::Tick { source, stream, .. } => engine.sources.contains_key(source)
            ==> engine.sources[source].stream == stream,
        EngineStep::Advance { due, at } => lists_due(engine.sources, at, due),
    }
}

/// Whether every step is orderly.
pub open spec fn orderly<S>(
    model: Model<S>,
    start: EngineView<S>,
    steps: Seq<EngineStep<S>>,
) -> bool
    decreases steps.len(),
{
    steps.len() == 0 || {
        &&& orderly(model, start, steps.drop_last())
        &&& orderly_step(engine_after(model, start, steps.drop_last()).0, steps.last())
    }
}

/// The amplitude that a tick puts into an engine.
pub open spec fn tick_amplitude<S>(
    model: Model<S>,
    engine: EngineView<S>,
    source: u64,
    stream: ScrollStream,
    impulse: WheelDelta<S>,
    at: u64,
    tuning: MotionTuning<S>,
) -> WheelDelta<S> {
    let motion = if engine.sources.contains_key(source) {
        engine.sources[source]
    } else {
        still(model, stream, at, tuning)
    };
    noted_tick(model, motion, impulse, at, tuning).1
}

/// What one step puts into `stream`.
pub open spec fn step_input<S>(
    model: Model<S>,
    engine: EngineView<S>,
    step: EngineStep<S>,
    onto: ScrollStream,
) -> WheelDelta<S> {
    match step {
        EngineStep::Tick { source, stream, impulse, at, tuning } if stream == onto => tick_amplitude(
            model,
            engine,
            source,
            stream,
            impulse,
            at,
            tuning,
        ),
        _ => model.rest(),
    }
}

/// All that `steps` put into `stream`.
pub open spec fn input<S>(
    model: Model<S>,
    start: EngineView<S>,
    steps: Seq<EngineStep<S>>,
    stream: ScrollStream,
) -> WheelDelta<S>
    decreases steps.len(),
{
    if steps.len() == 0 {
        model.rest()
    } else {
        model.sum(
            input(model, start, steps.drop_last(), stream),
            step_input(
                model,
                engine_after(model, start, steps.drop_last()).0,
                steps.last(),
                stream,
            ),
        )
    }
}

/// What a motion has yet to hand out.
pub open spec fn owed<S>(model: Model<S>, motion: MotionView<S>) -> WheelDelta<S> {
    model.difference(destination(model, motion.settled, motion.pulses), motion.emitted)
}

/// What `source` has yet to hand out on `stream`.
pub open spec fn owed_by<S>(
    model: Model<S>,
    sources: Map<u64, MotionView<S>>,
    source: u64,
    stream: ScrollStream,
) -> WheelDelta<S> {
    if sources.contains_key(source) && sources[source].stream == stream {
        owed(model, sources[source])
    } else {
        model.rest()
    }
}

/// What the sources of `all` have yet to hand out on `stream`.
pub open spec fn outstanding<S>(
    model: Model<S>,
    sources: Map<u64, MotionView<S>>,
    all: Seq<u64>,
    stream: ScrollStream,
) -> WheelDelta<S>
    decreases all.len(),
{
    if all.len() == 0 {
        model.rest()
    } else {
        model.sum(
            outstanding(model, sources, all.drop_last(), stream),
            owed_by(model, sources, all.last(), stream),
        )
    }
}

/// Whether `all` lists every source with a motion.
pub open spec fn lists_all<S>(sources: Map<u64, MotionView<S>>, all: Seq<u64>) -> bool {
    forall|source: u64| #[trigger] sources.contains_key(source) ==> all.contains(source)
}

/// Whether `all` lists the source of every tick.
pub open spec fn lists_ticks<S>(steps: Seq<EngineStep<S>>, all: Seq<u64>) -> bool {
    forall|i: int|
        0 <= i < steps.len() ==> (#[trigger] steps[i] matches EngineStep::Tick { source, .. }
            ==> all.contains(source))
}

/// What two stretches of frames show is what they show together.
pub(crate) proof fn lemma_totals_add_up<S>(
    model: Model<S>,
    first: Seq<ScrollFrame<S>>,
    second: Seq<ScrollFrame<S>>,
    stream: ScrollStream,
)
    requires
        model.exact(),
    ensures
        total(model, first + second, stream) == model.sum(
            total(model, first, stream),
            total(model, second, stream),
        ),
    decreases second.len(),
{
    let earlier = total(model, first, stream);
    if second.len() == 0 {
        assert(first + second =~= first);
        lemma_sums(model, earlier, earlier, earlier);
    } else {
        lemma_totals_add_up(model, first, second.drop_last(), stream);
        assert((first + second).drop_last() =~= first + second.drop_last());
        lemma_sums(
            model,
            earlier,
            total(model, second.drop_last(), stream),
            second.last().delta,
        );
    }
}

/// The frames for an update show exactly its distance, on its stream.
pub(crate) proof fn lemma_update_is_shown<S>(
    model: Model<S>,
    engine: EngineView<S>,
    stream: ScrollStream,
    update: MotionUpdate<S>,
    onto: ScrollStream,
)
    requires
        model.exact(),
    ensures
        ({
            let (after, frames) = shown(model, engine, stream, update);
            let delta = match update {
                MotionUpdate::Active(delta) => delta,
                MotionUpdate::Finished(delta) => delta,
            };
            &&& after.sources == engine.sources
            &&& total(model, frames, onto) == if onto == stream {
                delta
            } else {
                model.rest()
            }
        }),
{
    reveal_with_fuel(total, 3);
    let (after, frames) = shown(model, engine, stream, update);
    let delta = match update {
        MotionUpdate::Active(delta) => delta,
        MotionUpdate::Finished(delta) => delta,
    };
    lemma_sums(model, delta, delta, delta);
    lemma_sums(model, model.rest(), delta, delta);
    lemma_sums_cancel(model, model.rest(), delta, delta);
    if frames.len() == 1 {
        assert(frames.drop_last() =~= Seq::empty());
    } else if frames.len() == 2 {
        assert(frames.drop_last().drop_last() =~= Seq::empty());
        assert(frames.drop_last().last() == frames[0]);
    }
}

/// Handing something out, and taking something in, changes what is owed by just
/// that.
proof fn lemma_owed_changes<S>(
    model: Model<S>,
    before: MotionView<S>,
    after: MotionView<S>,
    delta: WheelDelta<S>,
    amplitude: WheelDelta<S>,
)
    requires
        model.exact(),
        model.sum(before.emitted, delta) == after.emitted,
        destination(model, after.settled, after.pulses) == model.sum(
            destination(model, before.settled, before.pulses),
            amplitude,
        ),
    ensures
        model.sum(delta, owed(model, after)) == model.sum(owed(model, before), amplitude),
{
    let there = destination(model, before.settled, before.pulses);
    let then = destination(model, after.settled, after.pulses);
    lemma_sums(model, before.emitted, delta, owed(model, after));
    lemma_sums(model, then, after.emitted, then);
    lemma_sums(model, there, before.emitted, there);
    lemma_sums(model, before.emitted, owed(model, before), amplitude);
    lemma_sums_cancel(
        model,
        before.emitted,
        model.sum(delta, owed(model, after)),
        model.sum(owed(model, before), amplitude),
    );
}

/// A motion that has handed out everything owes nothing.
proof fn lemma_nothing_owed<S>(model: Model<S>, motion: MotionView<S>)
    requires
        model.exact(),
        motion.emitted == destination(model, motion.settled, motion.pulses),
    ensures
        owed(model, motion) == model.rest(),
{
    lemma_sums(model, motion.emitted, motion.emitted, motion.emitted);
    lemma_sums_cancel(model, motion.emitted, owed(model, motion), model.rest());
}

/// Sources that are not listed do not count.
proof fn lemma_unlisted_sources_do_not_count<S>(
    model: Model<S>,
    before: Map<u64, MotionView<S>>,
    after: Map<u64, MotionView<S>>,
    all: Seq<u64>,
    stream: ScrollStream,
)
    requires
        forall|source: u64| #[trigger]
            all.contains(source) ==> owed_by(model, before, source, stream) == owed_by(
                model,
                after,
                source,
                stream,
            ),
    ensures
        outstanding(model, before, all, stream) == outstanding(model, after, all, stream),
    decreases all.len(),
{
    if all.len() > 0 {
        let earlier = all.drop_last();
        assert(all[all.len() - 1] == all.last());
        assert(all.contains(all.last()));
        assert forall|source: u64| #[trigger] earlier.contains(source) implies owed_by(
            model,
            before,
            source,
            stream,
        ) == owed_by(model, after, source, stream) by {
            let k = choose|k: int| 0 <= k < earlier.len() && earlier[k] == source;
            assert(all[k] == source);
            assert(all.contains(source));
        }
        lemma_unlisted_sources_do_not_count(model, before, after, earlier, stream);
    }
}

/// Where only one source changes, what is outstanding changes by what that
/// source owes.
proof fn lemma_outstanding_changes<S>(
    model: Model<S>,
    before: Map<u64, MotionView<S>>,
    after: Map<u64, MotionView<S>>,
    all: Seq<u64>,
    source: u64,
    stream: ScrollStream,
)
    requires
        model.exact(),
        all.no_duplicates(),
        all.contains(source),
        forall|other: u64|
            other != source ==> #[trigger] owed_by(model, before, other, stream) == owed_by(
                model,
                after,
                other,
                stream,
            ),
    ensures
        model.sum(
            outstanding(model, after, all, stream),
            owed_by(model, before, source, stream),
        ) == model.sum(
            outstanding(model, before, all, stream),
            owed_by(model, after, source, stream),
        ),
    decreases all.len(),
{
    let earlier = all.drop_last();
    let old_debt = owed_by(model, before, source, stream);
    let new_debt = owed_by(model, after, source, stream);
    if all.last() == source {
        assert forall|other: u64| #[trigger] earlier.contains(other) implies owed_by(
            model,
            before,
            other,
            stream,
        ) == owed_by(model, after, other, stream) by {
            let k = choose|k: int| 0 <= k < earlier.len() && earlier[k] == other;
            assert(all[k] == other && all[all.len() - 1] == source);
        }
        lemma_unlisted_sources_do_not_count(model, before, after, earlier, stream);
        lemma_sums(model, outstanding(model, before, earlier, stream), new_debt, old_debt);
    } else {
        let k = choose|k: int| 0 <= k < all.len() && all[k] == source;
        assert(earlier[k] == source);
        assert(earlier.contains(source));
        assert forall|i: int, j: int|
            0 <= i < earlier.len() && 0 <= j < earlier.len() && i != j implies earlier[i]
            != earlier[j] by {
            assert(all[i] != all[j]);
        }
        lemma_outstanding_changes(model, before, after, earlier, source, stream);
        let debt = owed_by(model, after, all.last(), stream);
        lemma_sums(model, outstanding(model, after, earlier, stream), debt, old_debt);
        lemma_sums(model, outstanding(model, before, earlier, stream), debt, new_debt);
    }
}

/// The books balance over a change at one source that hands out `delta` and
/// takes in `amplitude`.
proof fn lemma_books_balance<S>(
    model: Model<S>,
    before: Map<u64, MotionView<S>>,
    after: Map<u64, MotionView<S>>,
    all: Seq<u64>,
    source: u64,
    stream: ScrollStream,
    delta: WheelDelta<S>,
    amplitude: WheelDelta<S>,
)
    requires
        model.exact(),
        all.no_duplicates(),
        all.contains(source),
        forall|other: u64|
            other != source ==> #[trigger] owed_by(model, before, other, stream) == owed_by(
                model,
                after,
                other,
                stream,
            ),
        model.sum(delta, owed_by(model, after, source, stream)) == model.sum(
            owed_by(model, before, source, stream),
            amplitude,
        ),
    ensures
        model.sum(delta, outstanding(model, after, all, stream)) == model.sum(
            outstanding(model, before, all, stream),
            amplitude,
        ),
{
    lemma_outstanding_changes(model, before, after, all, source, stream);
    let old_debt = owed_by(model, before, source, stream);
    let new_debt = owed_by(model, after, source, stream);
    let was = outstanding(model, before, all, stream);
    let is = outstanding(model, after, all, stream);
    // delta + is + old_debt == delta + was + new_debt == was + old_debt + amplitude
    lemma_sums(model, delta, is, old_debt);
    lemma_sums(model, delta, was, new_debt);
    lemma_sums(model, was, old_debt, amplitude);
    lemma_sums_cancel(model, was, model.sum(delta, new_debt), was);
    lemma_sums_cancel(model, delta, was, was);
    lemma_sums(model, was, delta, new_debt);
    assert(model.sum(model.sum(delta, is), old_debt) == model.sum(
        model.sum(was, amplitude),
        old_debt,
    ));
    lemma_sums_cancel(model, old_debt, model.sum(delta, is), model.sum(was, amplitude));
    lemma_sums_cancel(model, model.sum(was, amplitude), old_debt, old_debt);
}

/// The books balance when one source advances.
proof fn lemma_advance_balances<S>(
    model: Model<S>,
    engine: EngineView<S>,
    source: u64,
    at: u64,
    all: Seq<u64>,
    stream: ScrollStream,
)
    requires
        model.exact(),
        ends_exactly(model),
        all.no_duplicates(),
        all.contains(source),
        engine.sources.contains_key(source),
    ensures
        ({
            let (after, frames) = source_advanced(model, engine, source, at);
            &&& model.sum(
                total(model, frames, stream),
                outstanding(model, after.sources, all, stream),
            ) == outstanding(model, engine.sources, all, stream)
            &&& forall|other: u64|
                other != source ==> {
                    &&& #[trigger] after.sources.contains_key(other)
                        == engine.sources.contains_key(other)
                    &&& after.sources[other] == engine.sources[other]
                }
        }),
{
    let before = engine.sources[source];
    let (moved, update) = evaluated(model, before, at);
    let (motion, same_update) = advanced(model, before, at);
    let (after, frames) = source_advanced(model, engine, source, at);
    let delta = match update {
        MotionUpdate::Active(delta) => delta,
        MotionUpdate::Finished(delta) => delta,
    };
    let kept = EngineView {
        sources: if update is Finished {
            engine.sources.remove(source)
        } else {
            engine.sources.insert(source, motion)
        },
        ..engine
    };
    lemma_update_is_shown(model, kept, before.stream, update, stream);
    lemma_updates_add_up(model, before, at);
    lemma_settling_keeps_the_destination(model, before.settled, before.pulses, at);
    let there = destination(model, before.settled, before.pulses);
    lemma_sums(model, there, there, there);
    lemma_owed_changes(model, before, motion, delta, model.rest());
    if update is Finished {
        lemma_finished_motion_reached_its_destination(model, before, at);
        lemma_nothing_owed(model, motion);
    }
    let shown_here = if stream == before.stream {
        delta
    } else {
        model.rest()
    };
    lemma_sums(model, model.rest(), model.rest(), model.rest());
    lemma_books_balance(
        model,
        engine.sources,
        after.sources,
        all,
        source,
        stream,
        shown_here,
        model.rest(),
    );
    let was = outstanding(model, engine.sources, all, stream);
    lemma_sums(model, was, was, was);
}

/// The books balance when the listed sources advance one after the other.
proof fn lemma_advances_balance<S>(
    model: Model<S>,
    engine: EngineView<S>,
    due: Seq<u64>,
    at: u64,
    all: Seq<u64>,
    stream: ScrollStream,
)
    requires
        model.exact(),
        ends_exactly(model),
        all.no_duplicates(),
        due.no_duplicates(),
        forall|i: int| 0 <= i < due.len() ==> engine.sources.contains_key(#[trigger] due[i]),
        lists_all(engine.sources, all),
    ensures
        ({
            let (after, frames) = all_advanced(model, engine, due, at);
            &&& model.sum(
                total(model, frames, stream),
                outstanding(model, after.sources, all, stream),
            ) == outstanding(model, engine.sources, all, stream)
            &&& lists_all(after.sources, all)
            &&& forall|other: u64|
                !due.contains(other) ==> {
                    &&& #[trigger] after.sources.contains_key(other)
                        == engine.sources.contains_key(other)
                    &&& after.sources[other] == engine.sources[other]
                }
        }),
    decreases due.len(),
{
    let was = outstanding(model, engine.sources, all, stream);
    if due.len() == 0 {
        lemma_sums(model, was, was, was);
        lemma_sums_cancel(model, model.rest(), was, was);
    } else {
        let earlier = due.drop_last();
        let source = due.last();
        assert forall|i: int| 0 <= i < earlier.len() implies engine.sources.contains_key(
            #[trigger] earlier[i],
        ) by {
            assert(earlier[i] == due[i]);
        }
        assert forall|i: int, j: int|
            0 <= i < earlier.len() && 0 <= j < earlier.len() && i != j implies earlier[i]
            != earlier[j] by {
            assert(due[i] != due[j]);
        }
        lemma_advances_balance(model, engine, earlier, at, all, stream);
        let (before, first) = all_advanced(model, engine, earlier, at);
        assert(due[due.len() - 1] == source);
        assert(!earlier.contains(source)) by {
            if earlier.contains(source) {
                let k = choose|k: int| 0 <= k < earlier.len() && earlier[k] == source;
                assert(due[k] == due[due.len() - 1]);
            }
        }
        assert(engine.sources.contains_key(source));
        assert(before.sources.contains_key(source) == engine.sources.contains_key(source));
        lemma_advance_balances(model, before, source, at, all, stream);
        let (after, second) = source_advanced(model, before, source, at);
        lemma_totals_add_up(model, first, second, stream);
        lemma_sums(
            model,
            total(model, first, stream),
            total(model, second, stream),
            outstanding(model, after.sources, all, stream),
        );
        assert forall|other: u64| #[trigger] after.sources.contains_key(other) implies all.contains(
            other,
        ) by {
            if other != source {
                assert(before.sources.contains_key(other));
            } else {
                assert(engine.sources.contains_key(other));
            }
        }
        assert forall|other: u64| !due.contains(other) implies {
            &&& #[trigger] after.sources.contains_key(other) == engine.sources.contains_key(other)
            &&& after.sources[other] == engine.sources[other]
        } by {
            assert(due.contains(source));
            assert(!earlier.contains(other)) by {
                if earlier.contains(other) {
                    let k = choose|k: int| 0 <= k < earlier.len() && earlier[k] == other;
                    assert(due[k] == other);
                }
            }
            assert(before.sources.contains_key(other) == engine.sources.contains_key(other));
        }
    }
}

/// The books balance over a tick.
proof fn lemma_tick_balances<S>(
    model: Model<S>,
    engine: EngineView<S>,
    source: u64,
    stream: ScrollStream,
    impulse: WheelDelta<S>,
    at: u64,
    tuning: MotionTuning<S>,
    all: Seq<u64>,
    onto: ScrollStream,
)
    requires
        model.exact(),
        ends_exactly(model),
        all.no_duplicates(),
        all.contains(source),
        lists_all(engine.sources, all),
        engine.sources.contains_key(source) ==> engine.sources[source].stream == stream,
    ensures
        ({
            let step = EngineStep::Tick { source, stream, impulse, at, tuning };
            let (after, frames) = engine_step(model, engine, step);
            &&& model.sum(
                total(model, frames, onto),
                outstanding(model, after.sources, all, onto),
            ) == model.sum(
                outstanding(model, engine.sources, all, onto),
                step_input(model, engine, step, onto),
            )
            &&& lists_all(after.sources, all)
        }),
{
    let step = EngineStep::Tick { source, stream, impulse, at, tuning };
    let (after, frames) = engine_step(model, engine, step);
    let amplitude = tick_amplitude(model, engine, source, stream, impulse, at, tuning);
    let put = step_input(model, engine, step, onto);
    lemma_sums(model, model.rest(), model.rest(), model.rest());
    if engine.sources.contains_key(source) {
        let before = engine.sources[source];
        let (noted, _) = noted_tick(model, before, impulse, at, tuning);
        let set_out = placed(model, noted, amplitude, at, tuning.duration);
        let (motion, update) = ticked(model, before, impulse, at, tuning);
        let delta = match update {
            MotionUpdate::Active(delta) => delta,
            MotionUpdate::Finished(delta) => delta,
        };
        let kept = EngineView {
            sources: if update is Finished {
                engine.sources.remove(source)
            } else {
                engine.sources.insert(source, motion)
            },
            ..engine
        };
        lemma_update_is_shown(model, kept, stream, update, onto);
        assert(frames =~= shown(model, kept, stream, update).1);
        lemma_updates_add_up(model, set_out, at);
        lemma_ticks_are_conserved(model, before, impulse, at, tuning);
        lemma_owed_changes(model, before, motion, delta, amplitude);
        if update is Finished {
            lemma_finished_motion_reached_its_destination(model, set_out, at);
            lemma_settling_keeps_the_destination(model, set_out.settled, set_out.pulses, at);
            lemma_nothing_owed(model, motion);
        }
        lemma_books_balance(
            model,
            engine.sources,
            after.sources,
            all,
            source,
            onto,
            if onto == stream {
                delta
            } else {
                model.rest()
            },
            put,
        );
    } else {
        let rested = still(model, stream, at, tuning);
        let (noted, _) = noted_tick(model, rested, impulse, at, tuning);
        let motion = started(model, stream, impulse, at, tuning);
        lemma_tick_adds_its_amplitude(model, noted, amplitude, at, tuning.duration);
        lemma_owed_changes(model, rested, motion, model.rest(), amplitude);
        lemma_nothing_owed(model, rested);
        assert(frames =~= Seq::empty());
        lemma_books_balance(
            model,
            engine.sources,
            after.sources,
            all,
            source,
            onto,
            model.rest(),
            put,
        );
    }
}

/// What the engine has shown on a stream and what it has yet to show grow
/// together by exactly what is put in: nothing is lost and nothing is made up,
/// whatever the frame times and the number of sources.
pub proof fn lemma_engine_conserves_input<S>(
    model: Model<S>,
    start: EngineView<S>,
    steps: Seq<EngineStep<S>>,
    all: Seq<u64>,
    stream: ScrollStream,
)
    requires
        model.exact(),
        ends_exactly(model),
        orderly(model, start, steps),
        all.no_duplicates(),
        lists_all(start.sources, all),
        lists_ticks(steps, all),
    ensures
        ({
            let (after, frames) = engine_after(model, start, steps);
            &&& model.sum(
                total(model, frames, stream),
                outstanding(model, after.sources, all, stream),
            ) == model.sum(
                outstanding(model, start.sources, all, stream),
                input(model, start, steps, stream),
            )
            &&& lists_all(after.sources, all)
        }),
    decreases steps.len(),
{
    let was = outstanding(model, start.sources, all, stream);
    if steps.len() == 0 {
        lemma_sums(model, was, was, was);
        lemma_sums_cancel(model, was, model.rest(), was);
    } else {
        let earlier = steps.drop_last();
        assert forall|i: int| 0 <= i < earlier.len() implies (
        #[trigger] earlier[i] matches EngineStep::Tick { source, .. } ==> all.contains(source)) by {
            assert(earlier[i] == steps[i]);
        }
        lemma_engine_conserves_input(model, start, earlier, all, stream);
        let (before, first) = engine_after(model, start, earlier);
        let (after, second) = engine_step(model, before, steps.last());
        let put = step_input(model, before, steps.last(), stream);
        let between = outstanding(model, before.sources, all, stream);
        assert(steps[steps.len() - 1] == steps.last());
        match steps.last() {
            EngineStep::Tick { source, stream: own, impulse, at, tuning } => {
                lemma_tick_balances(
                    model,
                    before,
                    source,
                    own,
                    impulse,
                    at,
                    tuning,
                    all,
                    stream,
                );
            },
            EngineStep::Advance { due, at } => {
                assert forall|i: int| 0 <= i < due.len() implies before.sources.contains_key(
                    #[trigger] due[i],
                ) by {
                    assert(due.contains(due[i]));
                }
                lemma_advances_balance(model, before, due, at, all, stream);
                lemma_sums(model, between, between, between);
            },
        }
        lemma_totals_add_up(model, first, second, stream);
        let shown_first = total(model, first, stream);
        let shown_second = total(model, second, stream);
        let left = outstanding(model, after.sources, all, stream);
        lemma_sums(model, shown_first, shown_second, left);
        lemma_sums(model, shown_first, between, put);
        lemma_sums(model, was, input(model, start, earlier, stream), put);
    }
}

/// Once nothing feeds a stream any more, its frames have shown exactly what was
/// put in.
pub proof fn lemma_quiet_stream_has_shown_its_input<S>(
    model: Model<S>,
    start: EngineView<S>,
    steps: Seq<EngineStep<S>>,
    all: Seq<u64>,
    stream: ScrollStream,
)
    requires
        model.exact(),
        ends_exactly(model),
        orderly(model, start, steps),
        all.no_duplicates(),
        lists_ticks(steps, all),
        start.sources == Map::<u64, MotionView<S>>::empty(),
        !feeds(engine_after(model, start, steps).0.sources, stream),
    ensures
        total(model, engine_after(model, start, steps).1, stream) == input(
            model,
            start,
            steps,
            stream,
        ),
{
    lemma_engine_conserves_input(model, start, steps, all, stream);
    let (after, frames) = engine_after(model, start, steps);
    lemma_unfed_stream_is_owed_nothing(model, start.sources, all, stream);
    assert(!feeds(start.sources, stream));
    lemma_unfed_stream_is_owed_nothing(model, after.sources, all, stream);
    let put = input(model, start, steps, stream);
    let seen = total(model, frames, stream);
    lemma_sums(model, seen, seen, seen);
    lemma_sums(model, put, put, put);
    lemma_sums_cancel(model, model.rest(), put, put);
}

proof fn lemma_unfed_stream_is_owed_nothing<S>(
    model: Model<S>,
    sources: Map<u64, MotionView<S>>,
    all: Seq<u64>,
    stream: ScrollStream,
)
    requires
        model.exact(),
    ensures
        !feeds(sources, stream) ==> outstanding(model, sources, all, stream) == model.rest(),
    decreases all.len(),
{
    if all.len() > 0 {
        lemma_unfed_stream_is_owed_nothing(model, sources, all.drop_last(), stream);
        lemma_sums(model, model.rest(), model.rest(), model.rest());
    }
}

} // verus!
