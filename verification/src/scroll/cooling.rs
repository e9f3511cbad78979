//! How a wheel that is turned around is cooled, tick by tick: what is left of
//! each tick goes by the time since the direction that was departed from had
//! its last one, from the first opposing tick to the end of the recovery.

use crate::scroll::math::Model;
use crate::scroll::reversal::{
    attenuated, record_after, tames, Heading, ReversalCooldown, REVERSAL_COOLDOWN,
    REVERSAL_KNEE, REVERSAL_KNEE_RATIO, REVERSAL_RECOVERY,
};
use vstd::prelude::*;

verus! {

/// Whether a distance goes somewhere, in direction `heading`.
pub open spec fn goes<S>(model: Model<S>, heading: Heading, value: S) -> bool {
    !(model.is_zero)(value) && match heading {
        Heading::Rest => false,
        Heading::Forward => (model.exceeds)(value, model.zero),
        Heading::Backward => !(model.exceeds)(value, model.zero),
    }
}

/// The other direction.
pub open spec fn opposite(heading: Heading) -> Heading {
    match heading {
        Heading::Rest => Heading::Rest,
        Heading::Forward => Heading::Backward,
        Heading::Backward => Heading::Forward,
    }
}

/// Whether all of `ticks` go in one direction, none later than `by`.
pub open spec fn all_go<S>(
    model: Model<S>,
    heading: Heading,
    ticks: Seq<(S, u64)>,
    by: int,
) -> bool {
    forall|i: int|
        0 <= i < ticks.len() ==> goes(model, heading, (#[trigger] ticks[i]).0) && ticks[i].1 < by
}

/// When a reversal began: with the first of its ticks.
pub open spec fn begun_at<S>(ticks: Seq<(S, u64)>, at: u64) -> u64 {
    if ticks.len() == 0 {
        at
    } else {
        ticks[0].1
    }
}

/// No more of `span` than `limit`.
pub open spec fn up_to(span: int, limit: int) -> int {
    if span < 0 {
        0
    } else if span > limit {
        limit
    } else {
        span
    }
}

/// What a tick that comes this long after the last one of the departed
/// direction is slowed to.
pub open spec fn ramped<S>(model: Model<S>, value: S, last_at: u64, at: u64) -> S {
    (model.times)(
        (model.magnitude)(value),
        (model.fraction)(up_to(at - last_at, REVERSAL_COOLDOWN as int) as u64, REVERSAL_COOLDOWN),
    )
}

/// What a wheel has on record of a reversal while it goes on: since when, from
/// when it is measured, and in which direction.
proof fn lemma_reversal_under_way<S>(
    model: Model<S>,
    before: ReversalCooldown<S>,
    last_at: u64,
    ticks: Seq<(S, u64)>,
)
    requires
        before.heading != Heading::Rest,
        before.last_at == Some(last_at),
        before.flip matches Some(flip) ==> flip.committed,
        ticks.len() > 0,
        all_go(model, opposite(before.heading), ticks, ticks[0].1 + REVERSAL_RECOVERY),
    ensures
        ({
            let during = record_after(model, before, ticks);
            &&& during.flip matches Some(flip) && {
                &&& flip.departed_at == last_at
                &&& flip.started_at == ticks[0].1
                &&& flip.committed ==> during.heading == opposite(before.heading)
                &&& !flip.committed ==> during.heading == before.heading && during.last_at
                    == before.last_at
            }
        }),
    decreases ticks.len(),
{
    let earlier = ticks.drop_last();
    assert(ticks.last() == ticks[ticks.len() - 1]);
    if earlier.len() > 0 {
        assert(earlier[0] == ticks[0]);
        assert forall|i: int| 0 <= i < earlier.len() implies goes(
            model,
            opposite(before.heading),
            (#[trigger] earlier[i]).0,
        ) && earlier[i].1 < ticks[0].1 + REVERSAL_RECOVERY by {
            assert(earlier[i] == ticks[i]);
        }
        lemma_reversal_under_way(model, before, last_at, earlier);
    } else {
        assert(record_after(model, before, earlier) == before);
    }
}

/// A reversal is measured from the departed direction: of the first opposing
/// tick and of every later one, until the recovery is over, there is left the
/// part that the time since the departed direction's last tick is of the
/// cooldown. What of that is past the knee is cut to its ratio, and comes back
/// in step with the time since the reversal began. No tick is turned around.
pub proof fn lemma_reversal_is_measured_from_the_departed_direction<S>(
    model: Model<S>,
    le: spec_fn(S, S) -> bool,
    before: ReversalCooldown<S>,
    last_at: u64,
    ticks: Seq<(S, u64)>,
    value: S,
    at: u64,
)
    requires
        model.exact(),
        tames(model, le),
        before.heading != Heading::Rest,
        before.last_at == Some(last_at),
        before.flip matches Some(flip) ==> flip.committed,
        all_go(
            model,
            opposite(before.heading),
            ticks.push((value, at)),
            begun_at(ticks, at) + REVERSAL_RECOVERY,
        ),
    ensures
        ({
            let cooled = attenuated(model, record_after(model, before, ticks), value, at).1;
            let size = (model.magnitude)(cooled);
            let slowed = ramped(model, value, last_at, at);
            let knee = (model.whole)(REVERSAL_KNEE);
            let cut = (model.plus)(
                knee,
                (model.over)((model.minus)(slowed, knee), (model.whole)(REVERSAL_KNEE_RATIO)),
            );
            let regained = (model.fraction)(
                up_to(at - begun_at(ticks, at), REVERSAL_RECOVERY as int) as u64,
                REVERSAL_RECOVERY,
            );
            &&& le(size, slowed)
            &&& le(slowed, (model.magnitude)(value))
            &&& (model.exceeds)(slowed, knee) ==> le(cut, size) && size == (model.plus)(
                cut,
                (model.times)((model.minus)(slowed, cut), regained),
            )
            &&& !(model.exceeds)(slowed, knee) ==> le(slowed, size)
            &&& (model.is_zero)(cooled) || goes(model, opposite(before.heading), cooled)
        }),
{
    let all = ticks.push((value, at));
    let during = record_after(model, before, ticks);
    assert(all[ticks.len() as int] == (value, at));
    if ticks.len() > 0 {
        assert forall|i: int| 0 <= i < ticks.len() implies goes(
            model,
            opposite(before.heading),
            (#[trigger] ticks[i]).0,
        ) && ticks[i].1 < ticks[0].1 + REVERSAL_RECOVERY by {
            assert(all[i] == ticks[i]);
        }
        lemma_reversal_under_way(model, before, last_at, ticks);
    } else {
        assert(during == before);
    }
    let began = begun_at(ticks, at);
    let cooldown = up_to(at - last_at, REVERSAL_COOLDOWN as int) as u64;
    let recovery = up_to(at - began, REVERSAL_RECOVERY as int) as u64;
    let size = (model.magnitude)(value);
    let slowed = (model.times)(size, (model.fraction)(cooldown, REVERSAL_COOLDOWN));
    let knee = (model.whole)(REVERSAL_KNEE);
    let cut = (model.plus)(
        knee,
        (model.over)((model.minus)(slowed, knee), (model.whole)(REVERSAL_KNEE_RATIO)),
    );
    let kept = if (model.exceeds)(slowed, knee) {
        cut
    } else {
        slowed
    };
    let gap = (model.minus)(slowed, kept);
    let regained = (model.times)(gap, (model.fraction)(recovery, REVERSAL_RECOVERY));
    let left = (model.plus)(kept, regained);
    let cooled = attenuated(model, during, value, at).1;
    assert(cooled == (model.directed)(left, value));
    assert(le(model.zero, size));
    assert(le(model.zero, slowed) && le(slowed, size));
    if (model.exceeds)(slowed, knee) {
        let past = (model.minus)(slowed, knee);
        let rest = (model.over)(past, (model.whole)(REVERSAL_KNEE_RATIO));
        assert(le(knee, slowed));
        assert(le(model.zero, past));
        assert(le(model.zero, rest) && le(rest, past));
        lemma_add_up(model, slowed, knee);
        assert(le((model.plus)(knee, model.zero), (model.plus)(knee, rest)));
        assert(le((model.plus)(knee, rest), (model.plus)(knee, past)));
        assert(le(model.zero, knee));
    }
    assert(le(model.zero, kept) && le(kept, slowed));
    assert(le(model.zero, gap));
    assert(le(model.zero, regained) && le(regained, gap));
    lemma_add_up(model, slowed, kept);
    assert(le((model.plus)(kept, model.zero), left));
    assert(le(left, (model.plus)(kept, gap)));
    assert(le(model.zero, left));
    assert((model.magnitude)(cooled) == left);
}

proof fn lemma_add_up<S>(model: Model<S>, whole: S, part: S)
    requires
        model.exact(),
    ensures
        (model.plus)(part, (model.minus)(whole, part)) == whole,
        (model.plus)(part, model.zero) == part,
{
    reveal(Model::exact);
}

/// All the distance of `ticks`.
pub open spec fn distance<S>(model: Model<S>, ticks: Seq<(S, u64)>) -> S
    decreases ticks.len(),
{
    if ticks.len() == 0 {
        model.zero
    } else {
        (model.plus)(distance(model, ticks.drop_last()), (model.magnitude)(ticks.last().0))
    }
}

/// Whether some stretch of `ticks` from the first on makes half a tick.
pub open spec fn makes_half_a_tick<S>(model: Model<S>, ticks: Seq<(S, u64)>) -> bool {
    exists|n: int|
        1 <= n <= ticks.len() && !(model.exceeds)(
            (model.over)((model.whole)(1), (model.whole)(2)),
            #[trigger] distance(model, ticks.take(n)),
        )
}

/// A wheel is taken to have turned around exactly once its opposing ticks, all
/// together, make half a tick; until then it keeps its direction and the time
/// of its last tick in it.
pub proof fn lemma_half_a_tick_turns_the_wheel_around<S>(
    model: Model<S>,
    before: ReversalCooldown<S>,
    ticks: Seq<(S, u64)>,
)
    requires
        before.heading != Heading::Rest,
        before.flip matches Some(flip) ==> flip.committed,
        forall|i: int|
            0 <= i < ticks.len() ==> goes(
                model,
                opposite(before.heading),
                (#[trigger] ticks[i]).0,
            ),
    ensures
        ({
            let after = record_after(model, before, ticks);
            &&& makes_half_a_tick(model, ticks) ==> after.heading == opposite(before.heading)
                && after.last_at == Some(ticks.last().1)
            &&& !makes_half_a_tick(model, ticks) ==> after.heading == before.heading
                && after.last_at == before.last_at
        }),
{
    lemma_turning(model, before, ticks);
}

proof fn lemma_turning<S>(
    model: Model<S>,
    before: ReversalCooldown<S>,
    ticks: Seq<(S, u64)>,
)
    requires
        before.heading != Heading::Rest,
        before.flip matches Some(flip) ==> flip.committed,
        forall|i: int|
            0 <= i < ticks.len() ==> goes(
                model,
                opposite(before.heading),
                (#[trigger] ticks[i]).0,
            ),
    ensures
        ({
            let after = record_after(model, before, ticks);
            &&& makes_half_a_tick(model, ticks) ==> after.heading == opposite(before.heading)
                && after.last_at == Some(ticks.last().1)
            &&& !makes_half_a_tick(model, ticks) ==> {
                &&& after.heading == before.heading
                &&& after.last_at == before.last_at
                &&& ticks.len() > 0 ==> (after.flip matches Some(flip) && !flip.committed
                    && flip.pending == distance(model, ticks))
                &&& ticks.len() == 0 ==> after == before
            }
        }),
    decreases ticks.len(),
{
    if ticks.len() > 0 {
        let earlier = ticks.drop_last();
        assert(ticks.last() == ticks[ticks.len() - 1]);
        assert forall|i: int| 0 <= i < earlier.len() implies goes(
            model,
            opposite(before.heading),
            (#[trigger] earlier[i]).0,
        ) by {
            assert(earlier[i] == ticks[i]);
        }
        lemma_turning(model, before, earlier);
        let half = (model.over)((model.whole)(1), (model.whole)(2));
        assert(ticks.take(ticks.len() as int) =~= ticks);
        if makes_half_a_tick(model, earlier) {
            let n = choose|n: int|
                1 <= n <= earlier.len() && !(model.exceeds)(
                    half,
                    #[trigger] distance(model, earlier.take(n)),
                );
            assert(ticks.take(n) =~= earlier.take(n));
            assert(makes_half_a_tick(model, ticks));
        } else if makes_half_a_tick(model, ticks) {
            let n = choose|n: int|
                1 <= n <= ticks.len() && !(model.exceeds)(
                    half,
                    #[trigger] distance(model, ticks.take(n)),
                );
            if n < ticks.len() {
                assert(ticks.take(n) =~= earlier.take(n));
                assert(makes_half_a_tick(model, earlier));
            }
        } else {
            assert((model.exceeds)(half, distance(model, ticks.take(ticks.len() as int))));
        }
        reveal_with_fuel(distance, 2);
    } else {
        assert(!makes_half_a_tick(model, ticks));
    }
}

/// A wheel that goes on in its direction is untouched, and forgets opposing
/// ticks that were not enough to turn it around.
pub proof fn lemma_steady_wheel_is_untouched<S>(
    model: Model<S>,
    before: ReversalCooldown<S>,
    value: S,
    at: u64,
)
    requires
        goes(model, before.heading, value),
        before.flip matches Some(flip) ==> !flip.committed || at >= flip.started_at
            + REVERSAL_RECOVERY,
    ensures
        ({
            let (after, tick) = attenuated(model, before, value, at);
            &&& tick == value
            &&& after.heading == before.heading
            &&& after.last_at == Some(at)
            &&& after.flip is None
        }),
{
}

/// A wheel at rest takes the direction of its first tick, which is untouched;
/// and a tick that goes nowhere changes nothing.
pub proof fn lemma_first_tick_sets_the_direction<S>(
    model: Model<S>,
    before: ReversalCooldown<S>,
    value: S,
    at: u64,
)
    ensures
        ({
            let (after, tick) = attenuated(model, before, value, at);
            &&& (model.is_zero)(value) ==> after == before && tick == value
            &&& !(model.is_zero)(value) && before.heading == Heading::Rest ==> {
                &&& tick == value
                &&& goes(model, after.heading, value)
                &&& after.last_at == Some(at)
                &&& after.flip == before.flip
            }
        }),
{
}

/// The time of the last tick is that of the last tick in the direction that
/// the wheel is taken to turn in.
pub proof fn lemma_direction_remembers_its_last_tick<S>(
    model: Model<S>,
    before: ReversalCooldown<S>,
    value: S,
    at: u64,
)
    requires
        !(model.is_zero)(value),
    ensures
        ({
            let after = attenuated(model, before, value, at).0;
            &&& goes(model, after.heading, value) ==> after.last_at == Some(at)
            &&& !goes(model, after.heading, value) ==> after.last_at == before.last_at
                && after.heading == before.heading
        }),
{
}

} // verus!
