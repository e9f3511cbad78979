//! The shape of a pulse: it sets out from nothing, never turns back, and ends
//! at its whole amplitude. Shown for every arithmetic that orders, multiplies
//! and divides exactly and has an exponential function.

use crate::scroll::conservation::{
    ends_exactly, lemma_associative, lemma_commutative, lemma_zero_and_minus, starts_from_rest,
};
use crate::scroll::curve::{
    clamped, gain_for, pulse_part, pulse_reach, spent, unscaled_pulse, PULSE_TAIL_RATIO,
};
use crate::scroll::math::Model;
use vstd::prelude::*;

verus! {

/// Whether `a` is no more than `b`.
pub open spec fn within<S>(model: Model<S>, a: S, b: S) -> bool {
    !(model.exceeds)(a, b)
}

/// Whether of two values one is more than the other unless they are the same,
/// and what is more than more is more.
#[verifier::opaque]
pub open spec fn orders<S>(model: Model<S>) -> bool {
    &&& forall|a: S, b: S| #[trigger] (model.exceeds)(a, b) ==> !(model.exceeds)(b, a)
    &&& forall|a: S, b: S|
        #![trigger (model.exceeds)(a, b), (model.exceeds)(b, a)]
        within(model, a, b) && within(model, b, a) ==> a == b
    &&& forall|a: S, b: S, c: S|
        #![trigger (model.exceeds)(a, b), (model.exceeds)(b, c)]
        within(model, a, b) && within(model, b, c) ==> within(model, a, c)
}

/// Whether the arithmetic is that of numbers: adding, and multiplying and
/// dividing by what is positive, keep the order, multiplying distributes over
/// adding, one is neutral, and a whole number is positive.
#[verifier::opaque]
pub open spec fn computes<S>(model: Model<S>) -> bool {
    &&& forall|a: S, b: S, c: S|
        within(model, a, b) ==> within(
            model,
            #[trigger] (model.plus)(c, a),
            #[trigger] (model.plus)(c, b),
        )
    &&& forall|a: S, b: S, c: S|
        within(model, a, b) && within(model, model.zero, c) ==> within(
            model,
            #[trigger] (model.times)(c, a),
            #[trigger] (model.times)(c, b),
        )
    &&& forall|a: S, b: S| #[trigger] (model.times)(a, b) == (model.times)(b, a)
    &&& forall|a: S, b: S, c: S| #[trigger]
        (model.times)((model.plus)(a, b), c) == (model.plus)(
            (model.times)(a, c),
            (model.times)(b, c),
        )
    &&& forall|a: S| #[trigger] (model.times)(a, model.one()) == a
    &&& forall|a: S| #[trigger] (model.times)(a, model.zero) == model.zero
    &&& forall|a: S, b: S, c: S|
        within(model, a, b) && (model.exceeds)(c, model.zero) ==> within(
            model,
            #[trigger] (model.over)(a, c),
            #[trigger] (model.over)(b, c),
        )
    &&& forall|c: S|
        (model.exceeds)(c, model.zero) ==> #[trigger] (model.over)(c, c) == model.one()
            && (model.over)(model.zero, c) == model.zero
    &&& forall|count: u64| count > 0 ==> (model.exceeds)(#[trigger] (model.whole)(count), model.zero)
    &&& forall|count: u64| count > 0 ==> within(model, model.one(), #[trigger] (model.whole)(count))
}

/// Whether the exponential function is that of numbers, as far as what is not
/// positive goes: it is positive, one at zero, and grows, but no faster than
/// its argument.
#[verifier::opaque]
pub open spec fn grows_gently<S>(model: Model<S>) -> bool {
    &&& (model.exponential)(model.zero) == model.one()
    &&& forall|a: S| (model.exceeds)(#[trigger] (model.exponential)(a), model.zero)
    &&& forall|a: S, b: S|
        #![trigger (model.exponential)(a), (model.exponential)(b)]
        within(model, a, b) && within(model, b, model.zero) ==> {
            &&& within(model, (model.exponential)(a), (model.exponential)(b))
            &&& within(
                model,
                (model.minus)((model.exponential)(b), (model.exponential)(a)),
                (model.minus)(b, a),
            )
        }
}

/// Whether none of a whole is nothing, more of it is more, and all of it is at
/// least one.
#[verifier::opaque]
pub open spec fn divides_time<S>(model: Model<S>) -> bool {
    &&& forall|whole: u64| whole > 0 ==> #[trigger] (model.fraction)(0, whole) == model.zero
    &&& forall|part: u64, more: u64, whole: u64|
        #![trigger (model.fraction)(part, whole), (model.fraction)(more, whole)]
        part <= more && whole > 0 ==> within(
            model,
            (model.fraction)(part, whole),
            (model.fraction)(more, whole),
        )
    &&& forall|part: u64, whole: u64|
        part >= whole ==> within(model, model.one(), #[trigger] (model.fraction)(part, whole))
}

pub(crate) proof fn lemma_reflexive<S>(model: Model<S>, a: S, b: S)
    requires
        orders(model),
    ensures
        within(model, a, a),
        (model.exceeds)(a, b) ==> within(model, b, a),
        within(model, a, b) && within(model, b, a) ==> a == b,
{
    reveal(orders);
}

pub(crate) proof fn lemma_transitive<S>(model: Model<S>, a: S, b: S, c: S)
    requires
        orders(model),
        within(model, a, b),
        within(model, b, c),
    ensures
        within(model, a, c),
{
    reveal(orders);
}

/// The gain of a wheel lies between one and its cap.
pub proof fn lemma_gain_stays_in_its_limits<S>(model: Model<S>, window: S, max_gain: S)
    requires
        orders(model),
        within(model, model.one(), max_gain),
    ensures
        within(model, model.one(), gain_for(model, window, max_gain)),
        within(model, gain_for(model, window, max_gain), max_gain),
{
    lemma_reflexive(model, model.one(), max_gain);
    lemma_reflexive(model, max_gain, model.one());
}

/// A cap of one disables acceleration.
pub proof fn lemma_unit_cap_disables_acceleration<S>(model: Model<S>, window: S)
    requires
        orders(model),
    ensures
        gain_for(model, window, model.one()) == model.one(),
{
    lemma_reflexive(model, model.one(), model.one());
    lemma_gain_stays_in_its_limits(model, window, model.one());
    lemma_reflexive(model, model.one(), gain_for(model, window, model.one()));
}

/// Clamping keeps to its limits, and to what lies between them.
proof fn lemma_clamped<S>(model: Model<S>, a: S, low: S, high: S)
    requires
        orders(model),
        (model.exceeds)(high, low),
    ensures
        within(model, low, clamped(model, a, low, high)),
        within(model, clamped(model, a, low, high), high),
        within(model, a, low) ==> clamped(model, a, low, high) == low,
        within(model, high, a) ==> clamped(model, a, low, high) == high,
        within(model, low, a) && within(model, a, high) ==> clamped(model, a, low, high) == a,
{
    lemma_reflexive(model, high, low);
    lemma_reflexive(model, low, a);
    lemma_reflexive(model, a, high);
    if within(model, high, a) && within(model, a, low) {
        lemma_transitive(model, high, a, low);
    }
}

/// Clamping keeps the order.
proof fn lemma_clamped_in_order<S>(model: Model<S>, a: S, b: S, low: S, high: S)
    requires
        orders(model),
        (model.exceeds)(high, low),
        within(model, a, b),
    ensures
        within(model, clamped(model, a, low, high), clamped(model, b, low, high)),
{
    lemma_clamped(model, a, low, high);
    lemma_clamped(model, b, low, high);
    if !within(model, a, low) && !within(model, high, b) {
        lemma_reflexive(model, a, low);
        lemma_reflexive(model, high, b);
        lemma_transitive(model, low, a, b);
        lemma_transitive(model, a, b, high);
    }
}

/// The part that a pulse has covered lies between nothing and all of it, and
/// before its start and past its end it is what it is there.
pub proof fn lemma_pulse_is_clamped<S>(model: Model<S>, progress: S)
    requires
        orders(model),
        (model.exceeds)(model.one(), model.zero),
    ensures
        within(model, model.zero, pulse_part(model, progress)),
        within(model, pulse_part(model, progress), model.one()),
        within(model, progress, model.zero) ==> pulse_part(model, progress) == pulse_part(
            model,
            model.zero,
        ),
        within(model, model.one(), progress) ==> pulse_part(model, progress) == pulse_part(
            model,
            model.one(),
        ),
{
    let zero = model.zero;
    let one = model.one();
    let reach = pulse_reach(model);
    let inside = clamped(model, progress, zero, one);
    let part = (model.over)(
        unscaled_pulse(model, (model.times)(inside, reach)),
        unscaled_pulse(model, reach),
    );
    lemma_reflexive(model, zero, one);
    lemma_reflexive(model, one, zero);
    lemma_clamped(model, progress, zero, one);
    lemma_clamped(model, zero, zero, one);
    lemma_clamped(model, one, zero, one);
    lemma_clamped(model, part, zero, one);
}

/// Adding the opposite of `b` takes it off.
proof fn lemma_opposite<S>(model: Model<S>, b: S)
    requires
        model.exact(),
    ensures
        (model.plus)(b, (model.minus)(model.zero, b)) == model.zero,
        (model.plus)((model.minus)(model.zero, b), b) == model.zero,
        (model.minus)(b, b) == model.zero,
        (model.plus)(b, model.zero) == b,
        (model.plus)(model.zero, b) == b,
{
    let back = (model.minus)(model.zero, b);
    lemma_zero_and_minus(model, model.zero, b);
    lemma_zero_and_minus(model, b, b);
    lemma_commutative(model, b, back);
    lemma_commutative(model, b, model.zero);
    lemma_cancel(model, b, (model.minus)(b, b), model.zero);
}

/// What adds up to the same on top of the same is the same.
proof fn lemma_cancel<S>(model: Model<S>, a: S, b: S, c: S)
    requires
        model.exact(),
        (model.plus)(a, b) == (model.plus)(a, c),
    ensures
        b == c,
{
    let back = (model.minus)(model.zero, a);
    lemma_zero_and_minus(model, model.zero, a);
    lemma_commutative(model, back, a);
    lemma_associative(model, back, a, b);
    lemma_associative(model, back, a, c);
    lemma_commutative(model, model.zero, b);
    lemma_commutative(model, model.zero, c);
    lemma_zero_and_minus(model, b, b);
    lemma_zero_and_minus(model, c, c);
}

/// Taking off is adding the opposite.
proof fn lemma_take_off<S>(model: Model<S>, a: S, b: S)
    requires
        model.exact(),
    ensures
        (model.minus)(a, b) == (model.plus)(a, (model.minus)(model.zero, b)),
{
    let back = (model.minus)(model.zero, b);
    lemma_zero_and_minus(model, a, b);
    lemma_zero_and_minus(model, a, a);
    lemma_opposite(model, b);
    lemma_associative(model, a, back, b);
    lemma_commutative(model, b, (model.plus)(a, back));
    lemma_cancel(model, b, (model.minus)(a, b), (model.plus)(a, back));
}

/// What is taken off what is taken off comes back.
proof fn lemma_opposite_of_opposite<S>(model: Model<S>, b: S)
    requires
        model.exact(),
    ensures
        (model.minus)(model.zero, (model.minus)(model.zero, b)) == b,
{
    let back = (model.minus)(model.zero, b);
    lemma_opposite(model, b);
    lemma_opposite(model, back);
    lemma_cancel(model, back, (model.minus)(model.zero, back), b);
}

proof fn lemma_adding_keeps_order<S>(model: Model<S>, a: S, b: S, c: S)
    requires
        model.exact(),
        computes(model),
        within(model, a, b),
    ensures
        within(model, (model.plus)(c, a), (model.plus)(c, b)),
        within(model, (model.plus)(a, c), (model.plus)(b, c)),
{
    lemma_commutative(model, a, c);
    lemma_commutative(model, b, c);
    reveal(computes);
}

/// More taken off leaves less.
proof fn lemma_taking_off_turns_order<S>(model: Model<S>, a: S, b: S, c: S)
    requires
        model.exact(),
        computes(model),
        within(model, a, b),
    ensures
        within(model, (model.minus)(c, b), (model.minus)(c, a)),
{
    let less = (model.minus)(model.zero, a);
    let more = (model.minus)(model.zero, b);
    let both = (model.plus)(less, more);
    lemma_take_off(model, c, a);
    lemma_take_off(model, c, b);
    lemma_opposite(model, a);
    lemma_opposite(model, b);
    lemma_opposite(model, less);
    lemma_opposite(model, more);
    lemma_adding_keeps_order(model, a, b, both);
    lemma_commutative(model, less, more);
    lemma_associative(model, more, less, a);
    lemma_associative(model, less, more, b);
    lemma_adding_keeps_order(model, more, less, c);
}

proof fn lemma_multiplying_keeps_order<S>(model: Model<S>, a: S, b: S, c: S)
    requires
        computes(model),
        within(model, a, b),
        within(model, model.zero, c),
    ensures
        within(model, (model.times)(c, a), (model.times)(c, b)),
        (model.times)(c, model.zero) == model.zero,
        (model.times)(model.zero, c) == model.zero,
        (model.times)(c, model.one()) == c,
        (model.times)(model.one(), c) == c,
        (model.times)(a, c) == (model.times)(c, a),
        (model.times)(b, c) == (model.times)(c, b),
{
    reveal(computes);
    assert((model.times)(c, model.zero) == (model.times)(model.zero, c));
    assert((model.times)(c, model.one()) == (model.times)(model.one(), c));
}

proof fn lemma_dividing_keeps_order<S>(model: Model<S>, a: S, b: S, c: S)
    requires
        computes(model),
        within(model, a, b),
        (model.exceeds)(c, model.zero),
    ensures
        within(model, (model.over)(a, c), (model.over)(b, c)),
        (model.over)(c, c) == model.one(),
        (model.over)(model.zero, c) == model.zero,
{
    reveal(computes);
}

proof fn lemma_exponential<S>(model: Model<S>, a: S, b: S)
    requires
        grows_gently(model),
        within(model, a, b),
        within(model, b, model.zero),
    ensures
        within(model, (model.exponential)(a), (model.exponential)(b)),
        within(
            model,
            (model.minus)((model.exponential)(b), (model.exponential)(a)),
            (model.minus)(b, a),
        ),
        (model.exponential)(model.zero) == model.one(),
        (model.exceeds)((model.exponential)(a), model.zero),
{
    reveal(grows_gently);
}

/// The head of a pulse.
spec fn head<S>(model: Model<S>, u: S) -> S {
    (model.plus)((model.minus)(u, model.one()), (model.exponential)((model.minus)(model.zero, u)))
}

/// The tail of a pulse.
spec fn tail<S>(model: Model<S>, u: S) -> S {
    let one = model.one();
    let head_end = (model.exponential)((model.minus)(model.zero, one));
    (model.plus)(
        head_end,
        (model.times)(
            (model.minus)(one, head_end),
            (model.minus)(one, (model.exponential)((model.minus)(one, u))),
        ),
    )
}

/// From `u` to `v` is as far as from the opposite of `v` to that of `u`.
proof fn lemma_way<S>(model: Model<S>, u: S, v: S)
    requires
        model.exact(),
    ensures
        (model.minus)((model.minus)(model.zero, u), (model.minus)(model.zero, v)) == (model.minus)(
            v,
            u,
        ),
{
    let b = (model.minus)(model.zero, u);
    let a = (model.minus)(model.zero, v);
    lemma_take_off(model, b, a);
    lemma_opposite_of_opposite(model, v);
    lemma_take_off(model, v, u);
    lemma_commutative(model, b, v);
}

/// The way from `u` to `v`, on top of `u` less one, is `v` less one.
proof fn lemma_regroup<S>(model: Model<S>, u: S, v: S, low: S)
    requires
        model.exact(),
    ensures
        (model.plus)(
            (model.minus)(u, model.one()),
            (model.plus)(low, (model.minus)(v, u)),
        ) == (model.plus)((model.minus)(v, model.one()), low),
{
    let back = (model.minus)(model.zero, model.one());
    let way = (model.minus)(v, u);
    let u1 = (model.minus)(u, model.one());
    lemma_take_off(model, u, model.one());
    lemma_take_off(model, v, model.one());
    lemma_commutative(model, u, back);
    lemma_commutative(model, v, back);
    lemma_zero_and_minus(model, v, u);
    lemma_associative(model, back, u, way);
    lemma_commutative(model, low, way);
    lemma_associative(model, u1, way, low);
}

proof fn lemma_head_grows<S>(model: Model<S>, u: S, v: S)
    requires
        model.exact(),
        orders(model),
        computes(model),
        grows_gently(model),
        within(model, model.zero, u),
        within(model, u, v),
    ensures
        within(model, head(model, u), head(model, v)),
{
    let zero = model.zero;
    let a = (model.minus)(zero, v);
    let b = (model.minus)(zero, u);
    let low = (model.exponential)(a);
    let high = (model.exponential)(b);
    lemma_taking_off_turns_order(model, u, v, zero);
    lemma_taking_off_turns_order(model, zero, u, zero);
    lemma_opposite(model, zero);
    lemma_exponential(model, a, b);
    lemma_way(model, u, v);
    let rise = (model.minus)(high, low);
    let way = (model.minus)(v, u);
    lemma_adding_keeps_order(model, rise, way, low);
    lemma_zero_and_minus(model, high, low);
    lemma_adding_keeps_order(
        model,
        high,
        (model.plus)(low, way),
        (model.minus)(u, model.one()),
    );
    lemma_regroup(model, u, v, low);
}

proof fn lemma_tail_grows<S>(model: Model<S>, u: S, v: S)
    requires
        model.exact(),
        orders(model),
        computes(model),
        grows_gently(model),
        (model.exceeds)(model.one(), model.zero),
        within(model, model.one(), u),
        within(model, u, v),
    ensures
        within(model, tail(model, u), tail(model, v)),
        within(
            model,
            (model.exponential)((model.minus)(model.zero, model.one())),
            tail(model, u),
        ),
{
    let zero = model.zero;
    let one = model.one();
    let head_end = (model.exponential)((model.minus)(zero, one));
    let early = (model.exponential)((model.minus)(one, u));
    let late = (model.exponential)((model.minus)(one, v));
    lemma_taking_off_turns_order(model, one, u, one);
    lemma_taking_off_turns_order(model, u, v, one);
    lemma_opposite(model, one);
    lemma_opposite(model, zero);
    lemma_reflexive(model, one, zero);
    lemma_reflexive(model, zero, zero);
    lemma_taking_off_turns_order(model, zero, one, zero);
    lemma_exponential(model, (model.minus)(one, v), (model.minus)(one, u));
    lemma_exponential(model, (model.minus)(one, u), zero);
    lemma_exponential(model, (model.minus)(zero, one), zero);
    lemma_taking_off_turns_order(model, late, early, one);
    lemma_taking_off_turns_order(model, early, one, one);
    lemma_taking_off_turns_order(model, head_end, one, one);
    let room = (model.minus)(one, head_end);
    let sooner = (model.minus)(one, early);
    let later = (model.minus)(one, late);
    lemma_multiplying_keeps_order(model, sooner, later, room);
    lemma_multiplying_keeps_order(model, zero, sooner, room);
    lemma_adding_keeps_order(
        model,
        (model.times)(room, sooner),
        (model.times)(room, later),
        head_end,
    );
    lemma_adding_keeps_order(model, zero, (model.times)(room, sooner), head_end);
    lemma_opposite(model, head_end);
}

/// The phases of a pulse join, and neither turns back.
proof fn lemma_raw_pulse_grows<S>(model: Model<S>, u: S, v: S)
    requires
        model.exact(),
        orders(model),
        computes(model),
        grows_gently(model),
        (model.exceeds)(model.one(), model.zero),
        within(model, model.zero, u),
        within(model, u, v),
    ensures
        within(model, unscaled_pulse(model, u), unscaled_pulse(model, v)),
{
    let one = model.one();
    if (model.exceeds)(one, v) {
        if within(model, one, u) {
            lemma_transitive(model, one, u, v);
        }
        lemma_head_grows(model, u, v);
    } else if (model.exceeds)(one, u) {
        let head_end = (model.exponential)((model.minus)(model.zero, one));
        lemma_reflexive(model, one, u);
        lemma_reflexive(model, v, v);
        lemma_head_grows(model, u, one);
        lemma_opposite(model, one);
        lemma_opposite(model, head_end);
        lemma_tail_grows(model, v, v);
        lemma_transitive(model, head(model, u), head_end, tail(model, v));
    } else {
        lemma_tail_grows(model, u, v);
    }
}

/// The two phases set out from nothing, and get somewhere.
proof fn lemma_raw_pulse_ends<S>(model: Model<S>)
    requires
        model.exact(),
        orders(model),
        computes(model),
        grows_gently(model),
    ensures
        unscaled_pulse(model, model.zero) == model.zero,
        (model.exceeds)(unscaled_pulse(model, pulse_reach(model)), model.zero),
        (model.exceeds)(model.one(), model.zero),
        within(model, model.zero, pulse_reach(model)),
{
    let zero = model.zero;
    let one = model.one();
    let reach = pulse_reach(model);
    assert((model.exceeds)(one, zero) && (model.exceeds)(reach, zero) && within(model, one, reach))
        by {
        reveal(computes);
        assert((model.exceeds)((model.whole)(1), zero));
        assert((model.exceeds)((model.whole)((1 + PULSE_TAIL_RATIO) as u64), zero));
    }
    lemma_reflexive(model, one, zero);
    lemma_reflexive(model, reach, zero);
    lemma_reflexive(model, zero, zero);
    lemma_opposite(model, zero);
    lemma_opposite(model, one);
    lemma_taking_off_turns_order(model, zero, one, zero);
    let back = (model.minus)(zero, one);
    lemma_exponential(model, back, zero);
    lemma_tail_grows(model, reach, reach);
    let head_end = (model.exponential)(back);
    if within(model, tail(model, reach), zero) {
        lemma_transitive(model, head_end, tail(model, reach), zero);
    }
}

/// A pulse sets out from nothing and ends at its whole amplitude.
pub proof fn lemma_pulse_runs_from_nothing_to_all<S>(model: Model<S>)
    requires
        model.exact(),
        orders(model),
        computes(model),
        grows_gently(model),
    ensures
        pulse_part(model, model.zero) == model.zero,
        pulse_part(model, model.one()) == model.one(),
{
    let zero = model.zero;
    let one = model.one();
    let reach = pulse_reach(model);
    let end = unscaled_pulse(model, reach);
    lemma_raw_pulse_ends(model);
    lemma_reflexive(model, zero, one);
    lemma_reflexive(model, one, zero);
    lemma_clamped(model, zero, zero, one);
    lemma_clamped(model, one, zero, one);
    lemma_multiplying_keeps_order(model, zero, one, reach);
    lemma_dividing_keeps_order(model, zero, zero, end);
}

/// The part that a pulse has covered never shrinks.
pub proof fn lemma_pulse_never_turns_back<S>(model: Model<S>, earlier: S, later: S)
    requires
        model.exact(),
        orders(model),
        computes(model),
        grows_gently(model),
        within(model, earlier, later),
    ensures
        within(model, pulse_part(model, earlier), pulse_part(model, later)),
{
    let zero = model.zero;
    let one = model.one();
    let reach = pulse_reach(model);
    let end = unscaled_pulse(model, reach);
    lemma_raw_pulse_ends(model);
    let a = clamped(model, earlier, zero, one);
    let b = clamped(model, later, zero, one);
    lemma_clamped(model, earlier, zero, one);
    lemma_clamped(model, later, zero, one);
    lemma_clamped_in_order(model, earlier, later, zero, one);
    let u = (model.times)(a, reach);
    let v = (model.times)(b, reach);
    lemma_multiplying_keeps_order(model, a, b, reach);
    lemma_multiplying_keeps_order(model, zero, a, reach);
    lemma_raw_pulse_grows(model, u, v);
    let p = (model.over)(unscaled_pulse(model, u), end);
    let q = (model.over)(unscaled_pulse(model, v), end);
    lemma_dividing_keeps_order(model, unscaled_pulse(model, u), unscaled_pulse(model, v), end);
    lemma_clamped_in_order(model, p, q, zero, one);
}

/// Pulses start from rest and end exactly.
pub proof fn lemma_pulses_are_whole<S>(model: Model<S>)
    requires
        model.exact(),
        orders(model),
        computes(model),
        grows_gently(model),
        divides_time(model),
    ensures
        starts_from_rest(model),
        ends_exactly(model),
{
    let zero = model.zero;
    let one = model.one();
    lemma_raw_pulse_ends(model);
    lemma_pulse_runs_from_nothing_to_all(model);
    assert forall|a: S, duration: u64| duration > 0 implies #[trigger] (model.times)(
        a,
        spent(model, 0, duration),
    ) == zero by {
        reveal(divides_time);
        reveal(computes);
        assert((model.fraction)(0, duration) == zero);
    }
    assert forall|a: S, elapsed: u64, duration: u64|
        elapsed >= duration implies #[trigger] (model.times)(
        a,
        spent(model, elapsed, duration),
    ) == a by {
        lemma_over_is_over(model, elapsed, duration);
        reveal(computes);
    }
}

/// A pulse whose time is up has covered all of its amplitude.
proof fn lemma_over_is_over<S>(model: Model<S>, elapsed: u64, duration: u64)
    requires
        model.exact(),
        orders(model),
        computes(model),
        grows_gently(model),
        divides_time(model),
        elapsed >= duration,
    ensures
        spent(model, elapsed, duration) == model.one(),
{
    assert(within(model, model.one(), (model.fraction)(elapsed, duration))) by {
        reveal(divides_time);
    }
    lemma_raw_pulse_ends(model);
    lemma_pulse_runs_from_nothing_to_all(model);
    lemma_pulse_is_clamped(model, (model.fraction)(elapsed, duration));
}

/// The part that a pulse has covered never shrinks, and stays between nothing
/// and all of it.
pub(crate) proof fn lemma_spending<S>(model: Model<S>, elapsed: u64, later: u64, duration: u64)
    requires
        model.exact(),
        orders(model),
        computes(model),
        grows_gently(model),
        divides_time(model),
        elapsed <= later,
    ensures
        within(model, spent(model, elapsed, duration), spent(model, later, duration)),
        within(model, model.zero, spent(model, elapsed, duration)),
        within(model, spent(model, elapsed, duration), model.one()),
{
    lemma_raw_pulse_ends(model);
    lemma_pulse_is_clamped(model, (model.fraction)(elapsed, duration));
    if duration == 0 {
        lemma_over_is_over(model, elapsed, duration);
        lemma_over_is_over(model, later, duration);
        lemma_reflexive(model, model.one(), model.one());
    } else {
        assert(within(
            model,
            (model.fraction)(elapsed, duration),
            (model.fraction)(later, duration),
        )) by {
            reveal(divides_time);
        }
        lemma_pulse_never_turns_back(
            model,
            (model.fraction)(elapsed, duration),
            (model.fraction)(later, duration),
        );
    }
}

/// Multiples of what is positive keep the order, and those of what is negative
/// turn it around.
pub(crate) proof fn lemma_multiples<S>(model: Model<S>, a: S, p: S, q: S)
    requires
        model.exact(),
        orders(model),
        computes(model),
        within(model, p, q),
    ensures
        within(model, model.zero, a) ==> within(model, (model.times)(a, p), (model.times)(a, q)),
        within(model, a, model.zero) ==> within(model, (model.times)(a, q), (model.times)(a, p)),
        (model.times)(a, model.one()) == a,
        (model.times)(a, model.zero) == model.zero,
        (model.times)(model.zero, a) == model.zero,
{
    let zero = model.zero;
    if within(model, zero, a) {
        lemma_multiplying_keeps_order(model, p, q, a);
    }
    if within(model, a, zero) {
        let back = (model.minus)(zero, a);
        lemma_taking_off_turns_order(model, a, zero, zero);
        lemma_opposite(model, zero);
        lemma_multiplying_keeps_order(model, p, q, back);
        lemma_opposite_multiple(model, a, p);
        lemma_opposite_multiple(model, a, q);
        lemma_taking_off_turns_order(model, (model.times)(back, p), (model.times)(back, q), zero);
        lemma_opposite_of_opposite(model, (model.times)(a, p));
        lemma_opposite_of_opposite(model, (model.times)(a, q));
    }
    reveal(computes);
    assert((model.times)(a, zero) == (model.times)(zero, a));
}

/// A multiple of the opposite is the opposite of the multiple.
proof fn lemma_opposite_multiple<S>(model: Model<S>, a: S, p: S)
    requires
        model.exact(),
        computes(model),
    ensures
        (model.times)((model.minus)(model.zero, a), p) == (model.minus)(
            model.zero,
            (model.times)(a, p),
        ),
{
    let back = (model.minus)(model.zero, a);
    lemma_opposite(model, a);
    assert((model.times)((model.plus)(a, back), p) == (model.plus)(
        (model.times)(a, p),
        (model.times)(back, p),
    ) && (model.times)(model.zero, p) == model.zero) by {
        reveal(computes);
        assert((model.times)(p, model.zero) == (model.times)(model.zero, p));
    }
    lemma_opposite(model, (model.times)(a, p));
    lemma_cancel(
        model,
        (model.times)(a, p),
        (model.times)(back, p),
        (model.minus)(model.zero, (model.times)(a, p)),
    );
}

/// What a distance is multiplied by is not negative.
pub(crate) proof fn lemma_factor_is_positive<S>(model: Model<S>, step: S, window: S, max_gain: S)
    requires
        model.exact(),
        orders(model),
        computes(model),
        within(model, model.zero, step),
        within(model, model.one(), max_gain),
    ensures
        within(
            model,
            model.zero,
            (model.times)(step, gain_for(model, window, max_gain)),
        ),
{
    let gain = gain_for(model, window, max_gain);
    lemma_gain_stays_in_its_limits(model, window, max_gain);
    assert((model.exceeds)(model.one(), model.zero)) by {
        reveal(computes);
        assert((model.exceeds)((model.whole)(1), model.zero));
    }
    lemma_reflexive(model, model.one(), model.zero);
    lemma_transitive(model, model.zero, model.one(), gain);
    lemma_multiples(model, step, model.zero, gain);
}

/// Adding along one order keeps it.
pub(crate) proof fn lemma_order_adds<S>(model: Model<S>, a: S, b: S, c: S, d: S)
    requires
        model.exact(),
        orders(model),
        computes(model),
        within(model, a, b),
        within(model, c, d),
    ensures
        within(model, (model.plus)(a, c), (model.plus)(b, d)),
{
    lemma_adding_keeps_order(model, a, b, c);
    lemma_adding_keeps_order(model, c, d, b);
    lemma_transitive(model, (model.plus)(a, c), (model.plus)(b, c), (model.plus)(b, d));
}

/// The gain before its limits: the mean of one and the rate.
pub open spec fn unlimited_gain<S>(model: Model<S>, window: S) -> S {
    (model.over)(
        (model.plus)(
            (model.whole)(1),
            (model.times)((model.whole)(30), (model.over)(window, (model.whole)(70))),
        ),
        (model.whole)(2),
    )
}

/// Where neither limit binds, the gain is the mean of one and thirty times the
/// distance per millisecond of the window.
pub proof fn lemma_gain_follows_the_rate<S>(model: Model<S>, window: S, max_gain: S)
    requires
        orders(model),
        within(model, model.one(), max_gain),
    ensures
        ({
            let mean = unlimited_gain(model, window);
            let gain = gain_for(model, window, max_gain);
            &&& within(model, mean, model.one()) ==> gain == model.one()
            &&& within(model, max_gain, mean) ==> gain == max_gain
            &&& within(model, model.one(), mean) && within(model, mean, max_gain) ==> gain == mean
        }),
{
    let mean = unlimited_gain(model, window);
    lemma_reflexive(model, model.one(), mean);
    lemma_reflexive(model, mean, max_gain);
    lemma_reflexive(model, model.one(), max_gain);
    lemma_reflexive(model, max_gain, model.one());
    if within(model, max_gain, mean) && within(model, mean, model.one()) {
        lemma_transitive(model, max_gain, mean, model.one());
    }
}

/// A wheel that has turned farther of late gains no less.
pub proof fn lemma_faster_wheel_gains_no_less<S>(model: Model<S>, slow: S, fast: S, max_gain: S)
    requires
        model.exact(),
        orders(model),
        computes(model),
        within(model, model.one(), max_gain),
        within(model, slow, fast),
    ensures
        within(model, gain_for(model, slow, max_gain), gain_for(model, fast, max_gain)),
{
    let one = model.one();
    assert((model.exceeds)((model.whole)(70), model.zero) && (model.exceeds)(
        (model.whole)(2),
        model.zero,
    ) && (model.exceeds)((model.whole)(30), model.zero)) by {
        reveal(computes);
    }
    lemma_reflexive(model, (model.whole)(30), model.zero);
    lemma_dividing_keeps_order(model, slow, fast, (model.whole)(70));
    let a = (model.over)(slow, (model.whole)(70));
    let b = (model.over)(fast, (model.whole)(70));
    lemma_multiplying_keeps_order(model, a, b, (model.whole)(30));
    let c = (model.times)((model.whole)(30), a);
    let d = (model.times)((model.whole)(30), b);
    lemma_adding_keeps_order(model, c, d, one);
    lemma_dividing_keeps_order(
        model,
        (model.plus)(one, c),
        (model.plus)(one, d),
        (model.whole)(2),
    );
    if (model.exceeds)(max_gain, one) {
        lemma_clamped_in_order(
            model,
            unlimited_gain(model, slow),
            unlimited_gain(model, fast),
            one,
            max_gain,
        );
    } else {
        lemma_reflexive(model, one, max_gain);
        lemma_unit_cap_disables_acceleration(model, slow);
        lemma_unit_cap_disables_acceleration(model, fast);
    }
}

} // verus!
