//! How fast a wheel has been turning of late, along one axis.

use crate::scroll::math::{follows, Model, ScrollMath};
use crate::scroll::reversal::{since, time_since};
use std::collections::VecDeque;
use vstd::prelude::*;

verus! {

/// The time over which a wheel's recent ticks make up its rate.
pub const ACCEL_WINDOW: u64 = 70_000_000;

/// Ticks remembered at most; past that the oldest is dropped, which can only
/// understate the rate.
pub const ACCEL_WINDOW_MAX_TICKS: usize = 128;

/// Recent ticks, oldest first: when each arrived and how far it went.
pub struct RateWindow<S> {
    ticks: VecDeque<(u64, S)>,
}

impl<S> View for RateWindow<S> {
    type V = Seq<(u64, S)>;

    closed spec fn view(&self) -> Seq<(u64, S)> {
        self.ticks@
    }
}

/// What is left of a window at `at`, once the oldest ticks that have aged out
/// of it are dropped.
pub open spec fn recent<S>(ticks: Seq<(u64, S)>, at: u64) -> Seq<(u64, S)>
    decreases ticks.len(),
{
    if ticks.len() > 0 && time_since(at, ticks.first().0) > ACCEL_WINDOW {
        recent(ticks.drop_first(), at)
    } else {
        ticks
    }
}

/// A window with one more tick.
pub open spec fn recorded<S>(ticks: Seq<(u64, S)>, at: u64, distance: S) -> Seq<(u64, S)> {
    let all = recent(ticks, at).push((at, distance));
    if all.len() > ACCEL_WINDOW_MAX_TICKS {
        all.drop_first()
    } else {
        all
    }
}

/// The distance covered in a window.
pub open spec fn covered<S>(model: Model<S>, ticks: Seq<(u64, S)>) -> S
    decreases ticks.len(),
{
    if ticks.len() == 0 {
        model.zero
    } else {
        (model.plus)(covered(model, ticks.drop_last()), ticks.last().1)
    }
}

proof fn lemma_recent_is_no_longer<S>(ticks: Seq<(u64, S)>, at: u64)
    ensures
        recent(ticks, at).len() <= ticks.len(),
    decreases ticks.len(),
{
    if ticks.len() > 0 && time_since(at, ticks.first().0) > ACCEL_WINDOW {
        lemma_recent_is_no_longer(ticks.drop_first(), at);
    }
}

impl<S: Copy> RateWindow<S> {
    /// The window never holds more ticks than it may.
    pub open spec fn wf(&self) -> bool {
        self@.len() <= ACCEL_WINDOW_MAX_TICKS
    }

    /// A window that has seen nothing.
    pub fn new() -> (window: Self)
        ensures
            window.wf(),
            window@ == Seq::<(u64, S)>::empty(),
    {
        RateWindow { ticks: VecDeque::new() }
    }

    /// Remember one tick.
    pub fn record(&mut self, at: u64, distance: S)
        requires
            old(self).wf(),
        ensures
            final(self).wf(),
            final(self)@ == recorded(old(self)@, at, distance),
    {
        while self.ticks.len() > 0 && since(at, self.ticks[0].0) > ACCEL_WINDOW
            invariant
                recent(self.ticks@, at) == recent(old(self).ticks@, at),
                self.ticks@.len() <= ACCEL_WINDOW_MAX_TICKS,
            decreases self.ticks@.len(),
        {
            let ghost before = self.ticks@;
            self.ticks.pop_front();
            assert(self.ticks@ =~= before.drop_first());
        }
        self.ticks.push_back((at, distance));
        if self.ticks.len() > ACCEL_WINDOW_MAX_TICKS {
            let ghost before = self.ticks@;
            self.ticks.pop_front();
            assert(self.ticks@ =~= before.drop_first());
        }
    }

    /// The distance covered in the window.
    pub fn distance<M: ScrollMath<S>>(&self, math: &M) -> (distance: S)
        ensures
            forall|model: Model<S>| #[trigger]
                follows(math, model) ==> distance == covered(model, self@),
    {
        let mut distance = math.zero();
        assert(self.ticks@.take(0) =~= Seq::empty());
        for i in 0..self.ticks.len()
            invariant
                forall|model: Model<S>| #[trigger]
                    follows(math, model) ==> distance == covered(
                        model,
                        self.ticks@.take(i as int),
                    ),
        {
            assert(self.ticks@.take(i + 1).drop_last() =~= self.ticks@.take(i as int));
            distance = math.plus(distance, self.ticks[i].1);
        }
        assert(self.ticks@.take(self.ticks@.len() as int) =~= self.ticks@);
        distance
    }
}

/// A window never outgrows its bound, ends with the tick just recorded, and
/// what it keeps of the past starts within the window.
pub proof fn lemma_window_is_recent<S>(ticks: Seq<(u64, S)>, at: u64, distance: S)
    requires
        ticks.len() <= ACCEL_WINDOW_MAX_TICKS,
    ensures
        recorded(ticks, at, distance).len() <= ACCEL_WINDOW_MAX_TICKS,
        recent(ticks, at).len() > 0 ==> time_since(at, recent(ticks, at).first().0) <= ACCEL_WINDOW,
        recorded(ticks, at, distance).last() == (at, distance),
    decreases ticks.len(),
{
    if ticks.len() > 0 && time_since(at, ticks.first().0) > ACCEL_WINDOW {
        lemma_window_is_recent(ticks.drop_first(), at, distance);
    }
    lemma_recent_is_no_longer(ticks, at);
}

} // verus!
