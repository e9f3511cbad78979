//! What a tick is worth: the distance that it was turned by, times the step,
//! times what its own axis gains by its own rate.

use crate::scroll::curve::gain_for;
use crate::scroll::glide::{lemma_unit_cap_disables_acceleration, orders};
use crate::scroll::math::{Model, WheelDelta};
use crate::scroll::motion::{noted_tick, MotionTuning, MotionView};
use crate::scroll::reversal::attenuated;
use crate::scroll::window::{covered, recent, recorded, ACCEL_WINDOW, ACCEL_WINDOW_MAX_TICKS};
use vstd::prelude::*;

verus! {

/// Whether a tick that arrived at `then` has aged out of the window at `at`.
pub open spec fn aged(then: u64, at: u64) -> bool {
    at - then > ACCEL_WINDOW
}

/// A window keeps exactly the ticks that have not aged: of ticks in the order
/// of their times, those from the first that has not aged on.
pub proof fn lemma_window_keeps_what_has_not_aged<S>(ticks: Seq<(u64, S)>, at: u64) -> (kept: int)
    requires
        forall|i: int, j: int|
            0 <= i < j < ticks.len() ==> (#[trigger] ticks[i]).0 <= (#[trigger] ticks[j]).0,
    ensures
        0 <= kept <= ticks.len(),
        recent(ticks, at) == ticks.skip(kept),
        forall|i: int| 0 <= i < kept ==> aged((#[trigger] ticks[i]).0, at),
        forall|i: int| kept <= i < ticks.len() ==> !aged((#[trigger] ticks[i]).0, at),
    decreases ticks.len(),
{
    if ticks.len() > 0 && aged(ticks[0].0, at) {
        let rest = ticks.drop_first();
        assert forall|i: int, j: int| 0 <= i < j < rest.len() implies (#[trigger] rest[i]).0 <= (
        #[trigger] rest[j]).0 by {
            assert(rest[i] == ticks[i + 1] && rest[j] == ticks[j + 1]);
        }
        let more = lemma_window_keeps_what_has_not_aged(rest, at);
        assert(rest.skip(more) =~= ticks.skip(more + 1));
        assert forall|i: int| 0 <= i < more + 1 implies aged((#[trigger] ticks[i]).0, at) by {
            if i > 0 {
                assert(ticks[i] == rest[i - 1]);
            }
        }
        assert forall|i: int| more + 1 <= i < ticks.len() implies !aged(
            (#[trigger] ticks[i]).0,
            at,
        ) by {
            assert(ticks[i] == rest[i - 1]);
        }
        more + 1
    } else {
        assert(ticks.skip(0) =~= ticks);
        0
    }
}

/// Where every remembered tick has aged, the window holds the new one alone.
pub proof fn lemma_aged_window_starts_over<S>(ticks: Seq<(u64, S)>, at: u64, distance: S)
    requires
        forall|i: int| 0 <= i < ticks.len() ==> aged((#[trigger] ticks[i]).0, at),
    ensures
        recorded(ticks, at, distance) == seq![(at, distance)],
    decreases ticks.len(),
{
    if ticks.len() > 0 {
        assert(aged(ticks[0].0, at));
        let rest = ticks.drop_first();
        assert forall|i: int| 0 <= i < rest.len() implies aged((#[trigger] rest[i]).0, at) by {
            assert(rest[i] == ticks[i + 1]);
        }
        lemma_aged_window_starts_over(rest, at, distance);
    } else {
        assert(recent(ticks, at).push((at, distance)) =~= seq![(at, distance)]);
    }
}

/// Where no remembered tick has aged, the new one joins them all, but for the
/// oldest where there would be too many.
pub proof fn lemma_fresh_window_grows<S>(ticks: Seq<(u64, S)>, at: u64, distance: S)
    requires
        ticks.len() <= ACCEL_WINDOW_MAX_TICKS,
        forall|i: int| 0 <= i < ticks.len() ==> !aged((#[trigger] ticks[i]).0, at),
    ensures
        recorded(ticks, at, distance) == if ticks.len() < ACCEL_WINDOW_MAX_TICKS {
            ticks.push((at, distance))
        } else {
            ticks.skip(1).push((at, distance))
        },
{
    if ticks.len() > 0 {
        assert(!aged(ticks[0].0, at));
    }
    assert(recent(ticks, at) == ticks);
    assert(ticks.len() == ACCEL_WINDOW_MAX_TICKS ==> ticks.push((at, distance)).drop_first()
        =~= ticks.skip(1).push((at, distance)));
}

/// The distance of a window is that of its ticks, each counted once, the
/// newest last.
pub proof fn lemma_every_tick_of_a_window_counts<S>(
    model: Model<S>,
    ticks: Seq<(u64, S)>,
    newest: (u64, S),
)
    ensures
        covered(model, Seq::empty()) == model.zero,
        covered(model, ticks.push(newest)) == (model.plus)(covered(model, ticks), newest.1),
{
    assert(ticks.push(newest).drop_last() =~= ticks);
}

/// What one axis of a tick comes to after cooling.
pub open spec fn let_through<S>(
    model: Model<S>,
    before: MotionView<S>,
    impulse: WheelDelta<S>,
    at: u64,
    tuning: MotionTuning<S>,
) -> WheelDelta<S> {
    if tuning.preaccelerated {
        WheelDelta {
            x: attenuated(model, before.reversal_x, impulse.x, at).1,
            y: attenuated(model, before.reversal_y, impulse.y, at).1,
        }
    } else {
        impulse
    }
}

/// Along each axis a tick is worth its distance times the step times the gain
/// of that axis's own window with the tick in it, capped by the tick's own
/// tuning; and an axis along which it goes nowhere is left as it was.
pub proof fn lemma_what_a_tick_is_worth<S>(
    model: Model<S>,
    before: MotionView<S>,
    impulse: WheelDelta<S>,
    at: u64,
    tuning: MotionTuning<S>,
)
    ensures
        ({
            let (after, amplitude) = noted_tick(model, before, impulse, at, tuning);
            let turned = let_through(model, before, impulse, at, tuning);
            &&& (model.is_zero)(turned.x) ==> amplitude.x == turned.x && after.window_x
                == before.window_x
            &&& (model.is_zero)(turned.y) ==> amplitude.y == turned.y && after.window_y
                == before.window_y
            &&& !(model.is_zero)(turned.x) ==> {
                let window = recorded(before.window_x, at, (model.magnitude)(turned.x));
                let gain = gain_for(model, covered(model, window), tuning.max_gain);
                after.window_x == window && amplitude.x == (model.times)(
                    turned.x,
                    (model.times)(tuning.step, gain),
                )
            }
            &&& !(model.is_zero)(turned.y) ==> {
                let window = recorded(before.window_y, at, (model.magnitude)(turned.y));
                let gain = gain_for(model, covered(model, window), tuning.max_gain);
                after.window_y == window && amplitude.y == (model.times)(
                    turned.y,
                    (model.times)(tuning.step, gain),
                )
            }
        }),
{
}

/// What a tick is worth along one axis has nothing to do with the other: not
/// with where the tick goes along it, nor with what came along it before.
pub proof fn lemma_axes_are_independent<S>(
    model: Model<S>,
    one: MotionView<S>,
    other: MotionView<S>,
    impulse: WheelDelta<S>,
    elsewhere: WheelDelta<S>,
    at: u64,
    tuning: MotionTuning<S>,
)
    ensures
        one.window_x == other.window_x && one.reversal_x == other.reversal_x && impulse.x
            == elsewhere.x ==> noted_tick(model, one, impulse, at, tuning).1.x == noted_tick(
            model,
            other,
            elsewhere,
            at,
            tuning,
        ).1.x,
        one.window_y == other.window_y && one.reversal_y == other.reversal_y && impulse.y
            == elsewhere.y ==> noted_tick(model, one, impulse, at, tuning).1.y == noted_tick(
            model,
            other,
            elsewhere,
            at,
            tuning,
        ).1.y,
{
}

/// A wheel that has been still for longer than the window gains as if it had
/// never turned: only the tick itself counts.
pub proof fn lemma_still_wheel_gains_by_its_tick_alone<S>(
    model: Model<S>,
    before: MotionView<S>,
    impulse: WheelDelta<S>,
    at: u64,
    tuning: MotionTuning<S>,
)
    requires
        !tuning.preaccelerated,
        !(model.is_zero)(impulse.x),
        !(model.is_zero)(impulse.y),
        forall|i: int|
            0 <= i < before.window_x.len() ==> aged((#[trigger] before.window_x[i]).0, at),
        forall|i: int|
            0 <= i < before.window_y.len() ==> aged((#[trigger] before.window_y[i]).0, at),
    ensures
        ({
            let amplitude = noted_tick(model, before, impulse, at, tuning).1;
            let alone_x = (model.plus)(model.zero, (model.magnitude)(impulse.x));
            let alone_y = (model.plus)(model.zero, (model.magnitude)(impulse.y));
            &&& amplitude.x == (model.times)(
                impulse.x,
                (model.times)(tuning.step, gain_for(model, alone_x, tuning.max_gain)),
            )
            &&& amplitude.y == (model.times)(
                impulse.y,
                (model.times)(tuning.step, gain_for(model, alone_y, tuning.max_gain)),
            )
        }),
{
    lemma_aged_window_starts_over(before.window_x, at, (model.magnitude)(impulse.x));
    lemma_aged_window_starts_over(before.window_y, at, (model.magnitude)(impulse.y));
    let x = (at, (model.magnitude)(impulse.x));
    let y = (at, (model.magnitude)(impulse.y));
    assert(seq![x] =~= Seq::empty().push(x));
    assert(seq![y] =~= Seq::empty().push(y));
    lemma_every_tick_of_a_window_counts(model, Seq::empty(), x);
    lemma_every_tick_of_a_window_counts(model, Seq::empty(), y);
}

/// Without acceleration every tick is worth its distance times its own step,
/// whatever came before it.
pub proof fn lemma_unaccelerated_tick_is_worth_its_step<S>(
    model: Model<S>,
    before: MotionView<S>,
    impulse: WheelDelta<S>,
    at: u64,
    tuning: MotionTuning<S>,
)
    requires
        orders(model),
        !tuning.preaccelerated,
        tuning.max_gain == model.one(),
    ensures
        ({
            let amplitude = noted_tick(model, before, impulse, at, tuning).1;
            let factor = (model.times)(tuning.step, model.one());
            &&& !(model.is_zero)(impulse.x) ==> amplitude.x == (model.times)(impulse.x, factor)
            &&& !(model.is_zero)(impulse.y) ==> amplitude.y == (model.times)(impulse.y, factor)
        }),
{
    let x = recorded(before.window_x, at, (model.magnitude)(impulse.x));
    let y = recorded(before.window_y, at, (model.magnitude)(impulse.y));
    lemma_unit_cap_disables_acceleration(model, covered(model, x));
    lemma_unit_cap_disables_acceleration(model, covered(model, y));
}

/// A tick leaves a motion's pulses, and what it has shown, to be settled by the
/// clock; it is on record with its own time and hold, and cools a wheel only
/// where the wheel is pre-accelerated.
pub proof fn lemma_a_tick_is_noted<S>(
    model: Model<S>,
    before: MotionView<S>,
    impulse: WheelDelta<S>,
    at: u64,
    tuning: MotionTuning<S>,
)
    ensures
        ({
            let after = noted_tick(model, before, impulse, at, tuning).0;
            &&& after.stream == before.stream
            &&& after.pulses == before.pulses
            &&& after.settled == before.settled
            &&& after.emitted == before.emitted
            &&& after.next_frame == before.next_frame
            &&& after.last_tick_at == at
            &&& after.hold == tuning.hold
            &&& !tuning.preaccelerated ==> after.reversal_x == before.reversal_x
                && after.reversal_y == before.reversal_y
            &&& tuning.preaccelerated ==> after.reversal_x == attenuated(
                model,
                before.reversal_x,
                impulse.x,
                at,
            ).0 && after.reversal_y == attenuated(model, before.reversal_y, impulse.y, at).0
        }),
{
}

} // verus!
