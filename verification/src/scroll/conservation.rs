//! What goes in comes out: in exact arithmetic a wheel's motion hands out
//! every distance that was put into it, and never jumps.

use crate::scroll::curve::spent;
use crate::scroll::math::{Model, WheelDelta};
use crate::scroll::motion::{
    advanced, evaluated, is_last, joins, live, noted_tick, placed, position, pulse_end, pulse_position,
    settled_at, ticked, MotionTuning, MotionUpdate, MotionView, Pulse,
};
use vstd::prelude::*;

verus! {

/// All the distance that `pulses` will have covered on top of `settled` once
/// they are over.
pub open spec fn destination<S>(
    model: Model<S>,
    settled: WheelDelta<S>,
    pulses: Seq<Pulse<S>>,
) -> WheelDelta<S>
    decreases pulses.len(),
{
    if pulses.len() == 0 {
        settled
    } else {
        model.sum(destination(model, settled, pulses.drop_last()), pulses.last().amplitude)
    }
}

/// Whether a pulse starts from rest.
pub open spec fn starts_from_rest<S>(model: Model<S>) -> bool {
    forall|a: S, duration: u64|
        duration > 0 ==> #[trigger] (model.times)(a, spent(model, 0, duration)) == model.zero
}

/// Whether a pulse that is over has covered its amplitude exactly.
pub open spec fn ends_exactly<S>(model: Model<S>) -> bool {
    forall|a: S, elapsed: u64, duration: u64|
        elapsed >= duration ==> #[trigger] (model.times)(
            a,
            spent(model, elapsed, duration),
        ) == a
}

pub(crate) proof fn lemma_associative<S>(model: Model<S>, a: S, b: S, c: S)
    requires
        model.exact(),
    ensures
        (model.plus)((model.plus)(a, b), c) == (model.plus)(a, (model.plus)(b, c)),
{
    reveal(Model::exact);
}

pub(crate) proof fn lemma_commutative<S>(model: Model<S>, a: S, b: S)
    requires
        model.exact(),
    ensures
        (model.plus)(a, b) == (model.plus)(b, a),
{
    reveal(Model::exact);
}

pub(crate) proof fn lemma_zero_and_minus<S>(model: Model<S>, a: S, b: S)
    requires
        model.exact(),
    ensures
        (model.plus)(a, model.zero) == a,
        (model.plus)(b, (model.minus)(a, b)) == a,
        (model.is_zero)(a) <==> a == model.zero,
{
    reveal(Model::exact);
}

pub(crate) proof fn lemma_sums<S>(model: Model<S>, a: WheelDelta<S>, b: WheelDelta<S>, c: WheelDelta<S>)
    requires
        model.exact(),
    ensures
        model.sum(model.sum(a, b), c) == model.sum(a, model.sum(b, c)),
        model.sum(model.sum(a, b), c) == model.sum(model.sum(a, c), b),
        model.sum(a, model.rest()) == a,
        model.sum(b, model.difference(a, b)) == a,
        model.vanishes(a) ==> a == model.rest(),
{
    lemma_associative(model, a.x, b.x, c.x);
    lemma_associative(model, a.y, b.y, c.y);
    lemma_associative(model, a.x, c.x, b.x);
    lemma_associative(model, a.y, c.y, b.y);
    lemma_commutative(model, b.x, c.x);
    lemma_commutative(model, b.y, c.y);
    lemma_zero_and_minus(model, a.x, b.x);
    lemma_zero_and_minus(model, a.y, b.y);
}

/// Distances add in any order, and what was added can be taken off again.
pub(crate) proof fn lemma_sums_cancel<S>(
    model: Model<S>,
    a: WheelDelta<S>,
    b: WheelDelta<S>,
    c: WheelDelta<S>,
)
    requires
        model.exact(),
    ensures
        model.sum(a, b) == model.sum(b, a),
        model.sum(a, b) == model.sum(a, c) ==> b == c,
{
    lemma_commutative(model, a.x, b.x);
    lemma_commutative(model, a.y, b.y);
    if model.sum(a, b) == model.sum(a, c) {
        let back = model.difference(model.rest(), a);
        lemma_zero_and_minus(model, model.zero, a.x);
        lemma_zero_and_minus(model, model.zero, a.y);
        lemma_commutative(model, back.x, a.x);
        lemma_commutative(model, back.y, a.y);
        lemma_associative(model, back.x, a.x, b.x);
        lemma_associative(model, back.y, a.y, b.y);
        lemma_associative(model, back.x, a.x, c.x);
        lemma_associative(model, back.y, a.y, c.y);
        lemma_commutative(model, model.zero, b.x);
        lemma_commutative(model, model.zero, b.y);
        lemma_commutative(model, model.zero, c.x);
        lemma_commutative(model, model.zero, c.y);
        lemma_zero_and_minus(model, b.x, b.x);
        lemma_zero_and_minus(model, b.y, b.y);
        lemma_zero_and_minus(model, c.x, c.x);
        lemma_zero_and_minus(model, c.y, c.y);
    }
}

/// Distance that settles first is part of the destination all the same.
proof fn lemma_destination_shifts<S>(
    model: Model<S>,
    settled: WheelDelta<S>,
    more: WheelDelta<S>,
    pulses: Seq<Pulse<S>>,
)
    requires
        model.exact(),
    ensures
        destination(model, model.sum(settled, more), pulses) == model.sum(
            destination(model, settled, pulses),
            more,
        ),
    decreases pulses.len(),
{
    if pulses.len() > 0 {
        let before = pulses.drop_last();
        lemma_destination_shifts(model, settled, more, before);
        lemma_sums(model, destination(model, settled, before), more, pulses.last().amplitude);
    }
}

/// Distance that settles first moves every position by as much.
pub(crate) proof fn lemma_position_shifts<S>(
    model: Model<S>,
    settled: WheelDelta<S>,
    more: WheelDelta<S>,
    pulses: Seq<Pulse<S>>,
    at: u64,
)
    requires
        model.exact(),
    ensures
        position(model, model.sum(settled, more), pulses, at) == model.sum(
            position(model, settled, pulses, at),
            more,
        ),
    decreases pulses.len(),
{
    if pulses.len() > 0 {
        let before = pulses.drop_last();
        lemma_position_shifts(model, settled, more, before, at);
        lemma_sums(
            model,
            position(model, settled, before, at),
            more,
            pulse_position(model, pulses.last(), at),
        );
    }
}

/// A tick adds exactly its amplitude to where the motion will end up, whether
/// it sets out on its own or joins a pulse.
pub proof fn lemma_tick_adds_its_amplitude<S>(
    model: Model<S>,
    before: MotionView<S>,
    amplitude: WheelDelta<S>,
    at: u64,
    duration: u64,
)
    requires
        model.exact(),
    ensures
        ({
            let after = placed(model, before, amplitude, at, duration);
            destination(model, after.settled, after.pulses) == model.sum(
                destination(model, before.settled, before.pulses),
                amplitude,
            )
        }),
{
    let after = placed(model, before, amplitude, at, duration);
    if joins(before.pulses, at) {
        let newest = before.pulses.last();
        let others = before.pulses.drop_last();
        let travelled = pulse_position(model, newest, at);
        let remaining = model.difference(newest.amplitude, travelled);
        let merged = model.sum(remaining, amplitude);
        let base = destination(model, before.settled, others);
        lemma_destination_shifts(model, before.settled, travelled, others);
        lemma_sums(model, newest.amplitude, travelled, remaining);
        lemma_sums(model, base, travelled, remaining);
        lemma_sums(model, model.sum(base, travelled), remaining, amplitude);
        assert(model.sum(model.sum(base, travelled), merged) == model.sum(
            model.sum(base, newest.amplitude),
            amplitude,
        ));
        if model.vanishes(merged) {
            lemma_sums(model, merged, merged, merged);
            lemma_sums(model, model.sum(base, travelled), merged, merged);
            assert(after.pulses == others);
        } else {
            assert(after.pulses.drop_last() =~= others);
        }
    } else {
        assert(after.pulses.drop_last() =~= before.pulses);
    }
}

/// Settling the pulses that are over moves neither the destination nor, where
/// a pulse ends exactly, the position.
pub proof fn lemma_settling_keeps_the_destination<S>(
    model: Model<S>,
    settled: WheelDelta<S>,
    pulses: Seq<Pulse<S>>,
    at: u64,
)
    requires
        model.exact(),
    ensures
        destination(model, settled_at(model, settled, pulses, at), live(pulses, at))
            == destination(model, settled, pulses),
        ends_exactly(model) ==> position(
            model,
            settled_at(model, settled, pulses, at),
            live(pulses, at),
            at,
        ) == position(model, settled, pulses, at),
    decreases pulses.len(),
{
    if pulses.len() > 0 {
        let before = pulses.drop_last();
        let last = pulses.last();
        lemma_settling_keeps_the_destination(model, settled, before, at);
        if at >= pulse_end(last) {
            lemma_destination_shifts(
                model,
                settled_at(model, settled, before, at),
                last.amplitude,
                live(before, at),
            );
            if ends_exactly(model) {
                lemma_position_shifts(
                    model,
                    settled_at(model, settled, before, at),
                    last.amplitude,
                    live(before, at),
                    at,
                );
                assert(pulse_position(model, last, at) == last.amplitude);
            }
        } else {
            assert(live(pulses, at).drop_last() =~= live(before, at));
        }
    }
}

/// A motion that finishes has handed out all the distance that was put into
/// it.
pub proof fn lemma_finished_motion_reached_its_destination<S>(
    model: Model<S>,
    before: MotionView<S>,
    at: u64,
)
    requires
        model.exact(),
        ends_exactly(model),
        is_last(evaluated(model, before, at).1),
    ensures
        evaluated(model, before, at).0.emitted == destination(
            model,
            before.settled,
            before.pulses,
        ),
{
    lemma_settling_keeps_the_destination(model, before.settled, before.pulses, at);
    assert(live(before.pulses, at) =~= Seq::empty());
}

/// What an update hands out is exactly the way from what was handed out before
/// to what is handed out now.
pub proof fn lemma_updates_add_up<S>(model: Model<S>, before: MotionView<S>, at: u64)
    requires
        model.exact(),
    ensures
        ({
            let (after, update) = evaluated(model, before, at);
            let delta = match update {
                MotionUpdate::Active(delta) => delta,
                MotionUpdate::Finished(delta) => delta,
            };
            model.sum(before.emitted, delta) == after.emitted
        }),
{
    let reached = position(model, before.settled, before.pulses, at);
    lemma_sums(model, reached, before.emitted, before.emitted);
}

/// Nothing of a tick is handed out at its own arrival: the position is the
/// same with it as without it.
pub proof fn lemma_tick_does_not_jump<S>(
    model: Model<S>,
    before: MotionView<S>,
    amplitude: WheelDelta<S>,
    at: u64,
    duration: u64,
)
    requires
        model.exact(),
        starts_from_rest(model),
        duration > 0,
    ensures
        ({
            let after = placed(model, before, amplitude, at, duration);
            position(model, after.settled, after.pulses, at) == position(
                model,
                before.settled,
                before.pulses,
                at,
            )
        }),
{
    let after = placed(model, before, amplitude, at, duration);
    if joins(before.pulses, at) {
        let newest = before.pulses.last();
        let others = before.pulses.drop_last();
        let travelled = pulse_position(model, newest, at);
        lemma_position_shifts(model, before.settled, travelled, others, at);
        let moved = position(model, after.settled, others, at);
        if after.pulses == others {
        } else {
            assert(after.pulses.drop_last() =~= others);
            assert(pulse_position(model, after.pulses.last(), at) == model.rest());
            lemma_sums(model, moved, moved, moved);
        }
    } else {
        let there = position(model, before.settled, before.pulses, at);
        assert(after.pulses.drop_last() =~= before.pulses);
        assert(pulse_position(model, after.pulses.last(), at) == model.rest());
        lemma_sums(model, there, there, there);
    }
}

/// Over any tick, what was handed out plus what is still to come grows by
/// exactly the tick's amplitude.
pub proof fn lemma_ticks_are_conserved<S>(
    model: Model<S>,
    before: MotionView<S>,
    impulse: WheelDelta<S>,
    at: u64,
    tuning: MotionTuning<S>,
)
    requires
        model.exact(),
    ensures
        ({
            let (after, _) = ticked(model, before, impulse, at, tuning);
            let (_, amplitude) = noted_tick(model, before, impulse, at, tuning);
            destination(model, after.settled, after.pulses) == model.sum(
                destination(model, before.settled, before.pulses),
                amplitude,
            )
        }),
{
    let (noted, amplitude) = noted_tick(model, before, impulse, at, tuning);
    lemma_tick_adds_its_amplitude(model, noted, amplitude, at, tuning.duration);
    let set_out = placed(model, noted, amplitude, at, tuning.duration);
    lemma_settling_keeps_the_destination(model, set_out.settled, set_out.pulses, at);
}

/// Settling the pulses that are over at `at` does not move the position at any
/// later time.
pub(crate) proof fn lemma_settling_keeps_later_positions<S>(
    model: Model<S>,
    settled: WheelDelta<S>,
    pulses: Seq<Pulse<S>>,
    at: u64,
    later: u64,
)
    requires
        model.exact(),
        ends_exactly(model),
        at <= later,
    ensures
        position(model, settled_at(model, settled, pulses, at), live(pulses, at), later)
            == position(model, settled, pulses, later),
        live(live(pulses, at), later) == live(pulses, later),
    decreases pulses.len(),
{
    if pulses.len() > 0 {
        let before = pulses.drop_last();
        let last = pulses.last();
        lemma_settling_keeps_later_positions(model, settled, before, at, later);
        if at >= pulse_end(last) {
            lemma_position_shifts(
                model,
                settled_at(model, settled, before, at),
                last.amplitude,
                live(before, at),
                later,
            );
            assert(pulse_position(model, last, later) == last.amplitude);
        } else {
            assert(live(pulses, at).drop_last() =~= live(before, at));
        }
    }
}

/// Motion follows the clock, not the frames: an evaluation in between changes
/// nothing of what has been handed out by a later one.
pub proof fn lemma_motion_follows_the_clock<S>(
    model: Model<S>,
    before: MotionView<S>,
    between: u64,
    at: u64,
)
    requires
        model.exact(),
        ends_exactly(model),
        between <= at,
    ensures
        ({
            let dense = evaluated(model, evaluated(model, before, between).0, at);
            let sparse = evaluated(model, before, at);
            &&& dense.0.emitted == sparse.0.emitted
            &&& dense.0.pulses == sparse.0.pulses
            &&& is_last(dense.1) == is_last(sparse.1)
        }),
{
    lemma_settling_keeps_later_positions(model, before.settled, before.pulses, between, at);
}

/// Whether `le` orders distances in a way that adding respects.
#[verifier::opaque]
pub open spec fn respects_sums<S>(model: Model<S>, le: spec_fn(WheelDelta<S>, WheelDelta<S>) -> bool) -> bool {
    &&& forall|a: WheelDelta<S>| #[trigger] le(a, a)
    &&& forall|a: WheelDelta<S>, b: WheelDelta<S>, c: WheelDelta<S>, d: WheelDelta<S>|
        #![trigger le(a, b), le(c, d)]
        le(a, b) && le(c, d) ==> le(model.sum(a, c), model.sum(b, d))
}

pub(crate) proof fn lemma_sums_are_ordered<S>(
    model: Model<S>,
    le: spec_fn(WheelDelta<S>, WheelDelta<S>) -> bool,
    a: WheelDelta<S>,
    b: WheelDelta<S>,
    c: WheelDelta<S>,
    d: WheelDelta<S>,
)
    requires
        respects_sums(model, le),
        le(a, b),
        le(c, d),
    ensures
        le(model.sum(a, c), model.sum(b, d)),
{
    reveal(respects_sums);
}

pub(crate) proof fn lemma_order_is_reflexive<S>(
    model: Model<S>,
    le: spec_fn(WheelDelta<S>, WheelDelta<S>) -> bool,
    a: WheelDelta<S>,
)
    requires
        respects_sums(model, le),
    ensures
        le(a, a),
{
    reveal(respects_sums);
}

/// Motion whose pulses all go one way goes that way: where no pulse ever goes
/// back, neither does the position.
pub proof fn lemma_motion_never_turns_by_itself<S>(
    model: Model<S>,
    le: spec_fn(WheelDelta<S>, WheelDelta<S>) -> bool,
    settled: WheelDelta<S>,
    pulses: Seq<Pulse<S>>,
    at: u64,
    later: u64,
)
    requires
        respects_sums(model, le),
        forall|i: int|
            0 <= i < pulses.len() ==> le(
                pulse_position(model, #[trigger] pulses[i], at),
                pulse_position(model, pulses[i], later),
            ),
    ensures
        le(position(model, settled, pulses, at), position(model, settled, pulses, later)),
    decreases pulses.len(),
{
    if pulses.len() > 0 {
        let before = pulses.drop_last();
        assert forall|i: int| 0 <= i < before.len() implies le(
            pulse_position(model, #[trigger] before[i], at),
            pulse_position(model, before[i], later),
        ) by {
            assert(before[i] == pulses[i]);
        }
        assert(pulses[pulses.len() - 1] == pulses.last());
        lemma_motion_never_turns_by_itself(model, le, settled, before, at, later);
        lemma_sums_are_ordered(
            model,
            le,
            position(model, settled, before, at),
            position(model, settled, before, later),
            pulse_position(model, pulses.last(), at),
            pulse_position(model, pulses.last(), later),
        );
    } else {
        lemma_order_is_reflexive(model, le, settled);
    }
}

/// Something that happens to a motion.
pub enum MotionStep<S> {
    Tick { impulse: WheelDelta<S>, at: u64, tuning: MotionTuning<S> },
    Advance { at: u64 },
}

/// A motion after `steps`.
pub open spec fn after_steps<S>(
    model: Model<S>,
    start: MotionView<S>,
    steps: Seq<MotionStep<S>>,
) -> MotionView<S>
    decreases steps.len(),
{
    if steps.len() == 0 {
        start
    } else {
        let before = after_steps(model, start, steps.drop_last());
        match steps.last() {
            MotionStep::Tick { impulse, at, tuning } => ticked(
                model,
                before,
                impulse,
                at,
                tuning,
            ).0,
            MotionStep::Advance { at } => advanced(model, before, at).0,
        }
    }
}

/// All the amplitude that `steps` put into a motion.
pub open spec fn put_in<S>(
    model: Model<S>,
    start: MotionView<S>,
    steps: Seq<MotionStep<S>>,
) -> WheelDelta<S>
    decreases steps.len(),
{
    if steps.len() == 0 {
        model.rest()
    } else {
        let earlier = put_in(model, start, steps.drop_last());
        match steps.last() {
            MotionStep::Tick { impulse, at, tuning } => model.sum(
                earlier,
                noted_tick(
                    model,
                    after_steps(model, start, steps.drop_last()),
                    impulse,
                    at,
                    tuning,
                ).1,
            ),
            MotionStep::Advance { .. } => earlier,
        }
    }
}

/// Whatever happens to a motion, where it will end up is where it would have
/// ended up, and what was put in since.
pub proof fn lemma_motion_conserves_input<S>(
    model: Model<S>,
    start: MotionView<S>,
    steps: Seq<MotionStep<S>>,
)
    requires
        model.exact(),
    ensures
        ({
            let after = after_steps(model, start, steps);
            destination(model, after.settled, after.pulses) == model.sum(
                destination(model, start.settled, start.pulses),
                put_in(model, start, steps),
            )
        }),
    decreases steps.len(),
{
    let origin = destination(model, start.settled, start.pulses);
    if steps.len() == 0 {
        lemma_sums(model, origin, origin, origin);
    } else {
        let before = after_steps(model, start, steps.drop_last());
        let earlier = put_in(model, start, steps.drop_last());
        lemma_motion_conserves_input(model, start, steps.drop_last());
        match steps.last() {
            MotionStep::Tick { impulse, at, tuning } => {
                lemma_ticks_are_conserved(model, before, impulse, at, tuning);
                let amplitude = noted_tick(model, before, impulse, at, tuning).1;
                lemma_sums(model, origin, earlier, amplitude);
            },
            MotionStep::Advance { at } => {
                lemma_settling_keeps_the_destination(model, before.settled, before.pulses, at);
            },
        }
    }
}

} // verus!
