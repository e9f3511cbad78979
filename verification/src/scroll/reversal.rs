//! Cold starts after quick direction reversals.
//!
//! Input that carries an OS acceleration curve stays as fast across a quick
//! flip of the wheel as it was before it. The ticks of a reversal are therefore
//! scaled down, until the new direction has proved itself for long enough.

use crate::scroll::math::{follows, Model, ScrollMath};
use vstd::prelude::*;

verus! {

/// How long the acceleration of a departed direction takes to decay.
pub const REVERSAL_COOLDOWN: u64 = 400_000_000;

/// How long after its first opposing tick a reversal is compressed.
pub const REVERSAL_RECOVERY: u64 = 2_000_000_000;

/// Size above which the tick of a reversal is compressed.
pub const REVERSAL_KNEE: u64 = 3;

/// What is left of the part of a tick that is past the knee, at the moment of
/// the reversal: one part in so many.
pub const REVERSAL_KNEE_RATIO: u64 = 4;

/// The direction a wheel is held to be turning in.
#[derive(Debug, Clone, Copy, PartialEq, Eq, Structural)]
pub enum Heading {
    Rest,
    Forward,
    Backward,
}

/// A change of direction under way.
#[derive(Debug)]
pub struct Flip<S> {
    /// When the departed direction had its last tick.
    pub departed_at: u64,
    /// When the first opposing tick arrived.
    pub started_at: u64,
    /// Opposing distance so far.
    pub pending: S,
    /// Whether the opposing distance was enough to change direction.
    pub committed: bool,
}

impl<S: Copy> Clone for Flip<S> {
    fn clone(&self) -> (copy: Self)
        ensures
            copy == *self,
    {
        *self
    }
}

impl<S: Copy> Copy for Flip<S> {

}

/// Reversals along one axis.
#[derive(Debug)]
pub struct ReversalCooldown<S> {
    pub heading: Heading,
    /// When the current direction had its last tick.
    pub last_at: Option<u64>,
    pub flip: Option<Flip<S>>,
}

impl<S: Copy> Clone for ReversalCooldown<S> {
    fn clone(&self) -> (copy: Self)
        ensures
            copy == *self,
    {
        *self
    }
}

impl<S: Copy> Copy for ReversalCooldown<S> {

}

/// The time from `earlier` to `at`; none, where `at` is not later.
pub open spec fn time_since(at: u64, earlier: u64) -> u64 {
    if at >= earlier {
        (at - earlier) as u64
    } else {
        0
    }
}

/// The time from `earlier` to `at`; none, where `at` is not later.
pub fn since(at: u64, earlier: u64) -> (span: u64)
    ensures
        span == time_since(at, earlier),
{
    if at >= earlier {
        at - earlier
    } else {
        0
    }
}

/// The direction of a distance that goes somewhere.
pub open spec fn heading_of<S>(model: Model<S>, value: S) -> Heading {
    if (model.exceeds)(value, model.zero) {
        Heading::Forward
    } else {
        Heading::Backward
    }
}

/// Whether this much opposing distance turns a wheel's direction around: half
/// a tick does.
pub open spec fn commits<S>(model: Model<S>, opposing: S) -> bool {
    !(model.exceeds)((model.over)(model.one(), (model.whole)(2)), opposing)
}

/// Whether a tick this large is compressed during a reversal.
pub open spec fn past_knee<S>(model: Model<S>, size: S) -> bool {
    (model.exceeds)(size, (model.whole)(REVERSAL_KNEE))
}

/// A size past the knee, fully compressed.
pub open spec fn compressed<S>(model: Model<S>, size: S) -> S {
    let knee = (model.whole)(REVERSAL_KNEE);
    (model.plus)(
        knee,
        (model.over)((model.minus)(size, knee), (model.whole)(REVERSAL_KNEE_RATIO)),
    )
}

/// A tick's size after a reversal has slowed and compressed it: `cooldown` of
/// the cooldown has passed since the departed direction's last tick, and
/// `recovery` of the recovery since the first opposing one. What is past the
/// knee is compressed, and comes back as the reversal recovers.
pub open spec fn cooled_size<S>(model: Model<S>, size: S, cooldown: u64, recovery: u64) -> S {
    let slowed = (model.times)(size, (model.fraction)(cooldown, REVERSAL_COOLDOWN));
    let kept = if past_knee(model, slowed) {
        compressed(model, slowed)
    } else {
        slowed
    };
    (model.plus)(
        kept,
        (model.times)(
            (model.minus)(slowed, kept),
            (model.fraction)(recovery, REVERSAL_RECOVERY),
        ),
    )
}

/// `span`, but no more than `limit`.
pub open spec fn capped(span: u64, limit: u64) -> u64 {
    if span < limit {
        span
    } else {
        limit
    }
}

/// A tick of a reversal in progress, scaled down.
pub open spec fn cooled_tick<S>(model: Model<S>, value: S, flip: Flip<S>, at: u64) -> S {
    (model.directed)(
        cooled_size(
            model,
            (model.magnitude)(value),
            capped(time_since(at, flip.departed_at), REVERSAL_COOLDOWN),
            capped(time_since(at, flip.started_at), REVERSAL_RECOVERY),
        ),
        value,
    )
}

/// The flip an opposing tick belongs to: the pending one, or a fresh one that
/// departs from the current direction's last tick.
pub open spec fn opposing_flip<S>(model: Model<S>, before: ReversalCooldown<S>, at: u64) -> Flip<S> {
    match before.flip {
        Some(flip) if !flip.committed => flip,
        _ => Flip {
            departed_at: match before.last_at {
                Some(last_at) => last_at,
                None => at,
            },
            started_at: at,
            pending: model.zero,
            committed: false,
        },
    }
}

/// What becomes of one tick, and of the record of the axis.
///
/// - A tick that goes nowhere changes nothing.
/// - The first tick sets the direction.
/// - A tick in the current direction passes as it is and drops a flip that is
///   over or never took; while a reversal is still recovering it is scaled.
/// - An opposing tick is scaled, and turns the direction around once the
///   opposing distance is enough.
pub open spec fn attenuated<S>(
    model: Model<S>,
    before: ReversalCooldown<S>,
    value: S,
    at: u64,
) -> (ReversalCooldown<S>, S) {
    let heading = heading_of(model, value);
    if (model.is_zero)(value) {
        (before, value)
    } else if before.heading == Heading::Rest {
        (ReversalCooldown { heading, last_at: Some(at), flip: before.flip }, value)
    } else if heading == before.heading {
        match before.flip {
            Some(flip) if flip.committed && time_since(at, flip.started_at) < REVERSAL_RECOVERY => (
                ReversalCooldown { heading, last_at: Some(at), flip: before.flip },
                cooled_tick(model, value, flip, at),
            ),
            _ => (ReversalCooldown { heading, last_at: Some(at), flip: None }, value),
        }
    } else {
        let flip = opposing_flip(model, before, at);
        let pending = (model.plus)(flip.pending, (model.magnitude)(value));
        (
            if commits(model, pending) {
                ReversalCooldown {
                    heading,
                    last_at: Some(at),
                    flip: Some(Flip { pending, committed: true, ..flip }),
                }
            } else {
                ReversalCooldown { flip: Some(Flip { pending, ..flip }), ..before }
            },
            cooled_tick(model, value, flip, at),
        )
    }
}

/// A wheel that has turned has a last tick, and a flip that did not take yet
/// departs from it.
pub open spec fn consistent<S>(record: ReversalCooldown<S>) -> bool {
    &&& record.heading == Heading::Rest ==> record.flip is None
    &&& record.heading != Heading::Rest ==> record.last_at is Some
    &&& record.flip matches Some(flip) ==> !flip.committed ==> record.last_at == Some(
        flip.departed_at,
    )
}

/// Scale down one tick of a reversal.
fn rescale<S: Copy, M: ScrollMath<S>>(math: &M, value: S, flip: &Flip<S>, at: u64) -> (cooled: S)
    ensures
        forall|model: Model<S>| #[trigger]
            follows(math, model) ==> cooled == cooled_tick(model, value, *flip, at),
{
    let mut cooldown = since(at, flip.departed_at);
    if cooldown >= REVERSAL_COOLDOWN {
        cooldown = REVERSAL_COOLDOWN;
    }
    let mut recovery = since(at, flip.started_at);
    if recovery >= REVERSAL_RECOVERY {
        recovery = REVERSAL_RECOVERY;
    }
    let slowed = math.times(math.magnitude(value), math.fraction(cooldown, REVERSAL_COOLDOWN));
    let knee = math.whole(REVERSAL_KNEE);
    let kept = if math.exceeds(slowed, knee) {
        let rest = math.over(math.minus(slowed, knee), math.whole(REVERSAL_KNEE_RATIO));
        math.plus(knee, rest)
    } else {
        slowed
    };
    let regained = math.times(
        math.minus(slowed, kept),
        math.fraction(recovery, REVERSAL_RECOVERY),
    );
    math.directed(math.plus(kept, regained), value)
}

impl<S> Default for ReversalCooldown<S> {
    fn default() -> (cooldown: Self)
        ensures
            cooldown == (ReversalCooldown::<S> {
                heading: Heading::Rest,
                last_at: None,
                flip: None,
            }),
            consistent(cooldown),
    {
        ReversalCooldown { heading: Heading::Rest, last_at: None, flip: None }
    }
}

impl<S: Copy> ReversalCooldown<S> {
    /// Take in one tick and return what is to be made of it.
    pub fn attenuate<M: ScrollMath<S>>(&mut self, value: S, at: u64, math: &M) -> (cooled: S)
        ensures
            consistent(*old(self)) ==> consistent(*final(self)),
            forall|model: Model<S>| #[trigger]
                follows(math, model) ==> (*final(self), cooled) == attenuated(
                    model,
                    *old(self),
                    value,
                    at,
                ),
    {
        if math.is_zero(value) {
            return value;
        }
        let heading = if math.exceeds(value, math.zero()) {
            Heading::Forward
        } else {
            Heading::Backward
        };
        if self.heading == Heading::Rest {
            self.heading = heading;
            self.last_at = Some(at);
            return value;
        }
        if heading == self.heading {
            self.last_at = Some(at);
            if let Some(flip) = self.flip {
                if flip.committed && since(at, flip.started_at) < REVERSAL_RECOVERY {
                    return rescale(math, value, &flip, at);
                }
            }
            self.flip = None;
            return value;
        }
        let mut flip = match self.flip {
            Some(flip) if !flip.committed => flip,
            _ => Flip {
                departed_at: match self.last_at {
                    Some(last_at) => last_at,
                    None => at,
                },
                started_at: at,
                pending: math.zero(),
                committed: false,
            },
        };
        let cooled = rescale(math, value, &flip, at);
        flip.pending = math.plus(flip.pending, math.magnitude(value));
        let threshold = math.over(math.whole(1), math.whole(2));
        if !math.exceeds(threshold, flip.pending) {
            self.heading = heading;
            self.last_at = Some(at);
            flip.committed = true;
        }
        self.flip = Some(flip);
        cooled
    }
}

/// The record of an axis after `ticks`, each with its time.
pub open spec fn record_after<S>(
    model: Model<S>,
    start: ReversalCooldown<S>,
    ticks: Seq<(S, u64)>,
) -> ReversalCooldown<S>
    decreases ticks.len(),
{
    if ticks.len() == 0 {
        start
    } else {
        attenuated(
            model,
            record_after(model, start, ticks.drop_last()),
            ticks.last().0,
            ticks.last().1,
        ).0
    }
}

/// Whatever ticks a wheel gets from rest, its record stays consistent.
pub proof fn lemma_record_stays_consistent<S>(
    model: Model<S>,
    start: ReversalCooldown<S>,
    ticks: Seq<(S, u64)>,
)
    requires
        consistent(start),
    ensures
        consistent(record_after(model, start, ticks)),
    decreases ticks.len(),
{
    if ticks.len() > 0 {
        lemma_record_stays_consistent(model, start, ticks.drop_last());
    }
}

/// The first tick that goes somewhere passes untouched.
pub proof fn lemma_first_tick_is_untouched<S>(
    model: Model<S>,
    before: ReversalCooldown<S>,
    value: S,
    at: u64,
)
    requires
        before.heading == Heading::Rest,
    ensures
        attenuated(model, before, value, at).1 == value,
{
}

/// Whether `jitters` all oppose the direction of `start`, and never add up to
/// enough to commit.
pub open spec fn only_jitters<S>(
    model: Model<S>,
    start: ReversalCooldown<S>,
    jitters: Seq<(S, u64)>,
) -> bool
    decreases jitters.len(),
{
    jitters.len() == 0 || {
        let earlier = jitters.drop_last();
        let (value, at) = jitters.last();
        &&& only_jitters(model, start, earlier)
        &&& !(model.is_zero)(value)
        &&& heading_of(model, value) != start.heading
        &&& !commits(
            model,
            (model.plus)(
                opposing_flip(model, record_after(model, start, earlier), at).pending,
                (model.magnitude)(value),
            ),
        )
    }
}

proof fn lemma_jitters_keep_the_direction<S>(
    model: Model<S>,
    start: ReversalCooldown<S>,
    jitters: Seq<(S, u64)>,
)
    requires
        start.heading != Heading::Rest,
        only_jitters(model, start, jitters),
    ensures
        ({
            let during = record_after(model, start, jitters);
            &&& during.heading == start.heading
            &&& during.last_at == start.last_at
            &&& jitters.len() > 0 ==> (during.flip matches Some(flip) && !flip.committed)
        }),
    decreases jitters.len(),
{
    if jitters.len() > 0 {
        lemma_jitters_keep_the_direction(model, start, jitters.drop_last());
    }
}

/// A wheel that jitters backwards by too little to commit keeps its direction,
/// and the next tick onwards passes untouched and leaves no trace of the
/// jitter.
pub proof fn lemma_jitter_leaves_the_direction_alone<S>(
    model: Model<S>,
    before: ReversalCooldown<S>,
    jitters: Seq<(S, u64)>,
    onward: S,
    at: u64,
)
    requires
        before.heading != Heading::Rest,
        jitters.len() > 0,
        only_jitters(model, before, jitters),
        !(model.is_zero)(onward),
        heading_of(model, onward) == before.heading,
    ensures
        ({
            let during = record_after(model, before, jitters);
            let (after, tick) = attenuated(model, during, onward, at);
            &&& during.heading == before.heading
            &&& during.last_at == before.last_at
            &&& tick == onward
            &&& after == ReversalCooldown::<S> {
                heading: before.heading,
                last_at: Some(at),
                flip: None,
            }
        }),
{
    lemma_jitters_keep_the_direction(model, before, jitters);
}

/// Whether the arithmetic takes a whole as it is, a part of nothing as
/// nothing, and a distance in its own direction as itself.
pub open spec fn keeps_wholes<S>(model: Model<S>) -> bool {
    &&& forall|a: S|
        #[trigger] (model.times)(a, (model.fraction)(REVERSAL_COOLDOWN, REVERSAL_COOLDOWN)) == a
    &&& forall|b: S| #[trigger] (model.times)(model.zero, b) == model.zero
    &&& forall|a: S| #[trigger] (model.directed)((model.magnitude)(a), a) == a
}

/// A wheel turned around only after the departed direction has cooled down
/// passes untouched, unless it comes back fast enough to be compressed.
pub proof fn lemma_leisurely_reversal_is_untouched<S>(
    model: Model<S>,
    before: ReversalCooldown<S>,
    value: S,
    last_at: u64,
    at: u64,
)
    requires
        model.exact(),
        keeps_wholes(model),
        consistent(before),
        before.last_at == Some(last_at),
        heading_of(model, value) != before.heading,
        at >= last_at + REVERSAL_COOLDOWN,
        !past_knee(model, (model.magnitude)(value)),
    ensures
        attenuated(model, before, value, at).1 == value,
{
    if !(model.is_zero)(value) && before.heading != Heading::Rest {
        let size = (model.magnitude)(value);
        let gap = (model.minus)(size, size);
        lemma_nothing_from_itself(model, size);
        assert(gap == model.zero);
        let flip = opposing_flip(model, before, at);
        let recovery = capped(time_since(at, flip.started_at), REVERSAL_RECOVERY);
        assert((model.times)(gap, (model.fraction)(recovery, REVERSAL_RECOVERY)) == model.zero);
        assert(cooled_size(model, size, REVERSAL_COOLDOWN, recovery) == size);
    }
}

/// Nothing is left of a distance without itself.
proof fn lemma_nothing_from_itself<S>(model: Model<S>, a: S)
    requires
        model.exact(),
    ensures
        (model.minus)(a, a) == model.zero,
        (model.plus)(a, model.zero) == a,
{
    reveal(Model::exact);
    let gap = (model.minus)(a, a);
    let back = (model.minus)(model.zero, a);
    assert((model.plus)(a, gap) == a);
    assert((model.plus)(a, back) == model.zero);
    assert((model.plus)((model.plus)(back, a), gap) == (model.plus)(back, (model.plus)(a, gap)));
    assert((model.plus)(back, a) == model.zero);
    assert((model.plus)(model.zero, gap) == (model.plus)(gap, model.zero));
}

/// Whether `le` orders sizes, and parts of a size are no larger than it.
pub open spec fn tames<S>(model: Model<S>, le: spec_fn(S, S) -> bool) -> bool {
    &&& forall|a: S| #[trigger] le(a, a)
    &&& forall|a: S, b: S, c: S| #[trigger] le(a, b) && #[trigger] le(b, c) ==> le(a, c)
    &&& forall|a: S, b: S, c: S|
        le(a, b) ==> le(#[trigger] (model.plus)(c, a), #[trigger] (model.plus)(c, b))
    &&& forall|a: S, b: S| le(b, a) ==> le(model.zero, #[trigger] (model.minus)(a, b))
    &&& forall|a: S, part: u64, whole: u64|
        le(model.zero, a) && part <= whole ==> {
            &&& le(model.zero, #[trigger] (model.times)(a, (model.fraction)(part, whole)))
            &&& le((model.times)(a, (model.fraction)(part, whole)), a)
        }
    &&& forall|a: S, count: u64|
        le(model.zero, a) && count > 0 ==> {
            &&& le(model.zero, #[trigger] (model.over)(a, (model.whole)(count)))
            &&& le((model.over)(a, (model.whole)(count)), a)
        }
    &&& forall|count: u64| le(model.zero, #[trigger] (model.whole)(count))
    &&& forall|a: S, b: S| #[trigger] (model.exceeds)(a, b) ==> le(b, a)
    &&& forall|a: S| le(model.zero, #[trigger] (model.magnitude)(a))
    &&& forall|size: S, a: S|
        le(model.zero, size) && !(model.is_zero)(a) ==> {
            &&& (model.magnitude)(#[trigger] (model.directed)(size, a)) == size
            &&& (model.is_zero)((model.directed)(size, a)) || heading_of(
                model,
                (model.directed)(size, a),
            ) == heading_of(model, a)
        }
}

proof fn lemma_cooled_size_is_no_larger<S>(
    model: Model<S>,
    le: spec_fn(S, S) -> bool,
    size: S,
    cooldown: u64,
    recovery: u64,
)
    requires
        model.exact(),
        tames(model, le),
        le(model.zero, size),
        cooldown <= REVERSAL_COOLDOWN,
        recovery <= REVERSAL_RECOVERY,
    ensures
        le(model.zero, cooled_size(model, size, cooldown, recovery)),
        le(cooled_size(model, size, cooldown, recovery), size),
{
    let slowed = (model.times)(size, (model.fraction)(cooldown, REVERSAL_COOLDOWN));
    let kept = if past_knee(model, slowed) {
        compressed(model, slowed)
    } else {
        slowed
    };
    let gap = (model.minus)(slowed, kept);
    let regained = (model.times)(gap, (model.fraction)(recovery, REVERSAL_RECOVERY));
    assert(le(model.zero, slowed) && le(slowed, size));
    if past_knee(model, slowed) {
        let knee = (model.whole)(REVERSAL_KNEE);
        let past = (model.minus)(slowed, knee);
        let rest = (model.over)(past, (model.whole)(REVERSAL_KNEE_RATIO));
        assert(le(model.zero, past));
        assert(le(model.zero, rest) && le(rest, past));
        assert((model.plus)(knee, past) == slowed && (model.plus)(knee, model.zero) == knee) by {
            reveal(Model::exact);
        }
        assert(le((model.plus)(knee, model.zero), (model.plus)(knee, rest)));
        assert(le((model.plus)(knee, rest), (model.plus)(knee, past)));
        assert(le(model.zero, knee));
    }
    assert(le(model.zero, kept) && le(kept, slowed));
    assert(le(model.zero, gap));
    assert(le(model.zero, regained) && le(regained, gap));
    assert((model.plus)(kept, gap) == slowed && (model.plus)(kept, model.zero)
        == kept) by {
        reveal(Model::exact);
    }
    assert(le((model.plus)(kept, model.zero), (model.plus)(kept, regained)));
    assert(le((model.plus)(kept, regained), (model.plus)(kept, gap)));
}

/// Whatever came before, no tick is made larger or turned around.
pub proof fn lemma_tick_never_grows_or_turns<S>(
    model: Model<S>,
    le: spec_fn(S, S) -> bool,
    before: ReversalCooldown<S>,
    value: S,
    at: u64,
)
    requires
        model.exact(),
        tames(model, le),
    ensures
        ({
            let cooled = attenuated(model, before, value, at).1;
            &&& le((model.magnitude)(cooled), (model.magnitude)(value))
            &&& (model.is_zero)(cooled) || heading_of(model, cooled) == heading_of(model, value)
        }),
{
    let size = (model.magnitude)(value);
    assert forall|flip: Flip<S>| !(model.is_zero)(value) implies ({
        let cooled = #[trigger] cooled_tick(model, value, flip, at);
        &&& le((model.magnitude)(cooled), size)
        &&& (model.is_zero)(cooled) || heading_of(model, cooled) == heading_of(model, value)
    }) by {
        lemma_cooled_size_is_no_larger(
            model,
            le,
            size,
            capped(time_since(at, flip.departed_at), REVERSAL_COOLDOWN),
            capped(time_since(at, flip.started_at), REVERSAL_RECOVERY),
        );
    }
}

/// Once a committed reversal has lasted for the whole recovery, ticks in its
/// direction pass untouched again.
pub proof fn lemma_sustained_reversal_recovers<S>(
    model: Model<S>,
    before: ReversalCooldown<S>,
    value: S,
    at: u64,
)
    requires
        heading_of(model, value) == before.heading,
        before.flip matches Some(flip) && at >= flip.started_at + REVERSAL_RECOVERY,
    ensures
        attenuated(model, before, value, at).1 == value,
{
}

} // verus!
