//! Wheel distances, over an arithmetic supplied from outside.

use vstd::prelude::*;

verus! {

/// Arithmetic on the distance travelled along one axis. Nothing is assumed of
/// it: what the motion model computes is stated for every [`Model`] that the
/// arithmetic follows.
pub trait ScrollMath<S: Copy> {
    fn zero(&self) -> S;

    fn is_zero(&self, a: S) -> bool;

    fn is_finite(&self, a: S) -> bool;

    fn plus(&self, a: S, b: S) -> S;

    fn minus(&self, a: S, b: S) -> S;

    fn times(&self, a: S, b: S) -> S;

    fn over(&self, a: S, b: S) -> S;

    fn magnitude(&self, a: S) -> S;

    /// Whether `a` is more than `b`.
    fn exceeds(&self, a: S, b: S) -> bool;

    /// A whole number.
    fn whole(&self, count: u64) -> S;

    /// `part` of `whole`.
    fn fraction(&self, part: u64, whole: u64) -> S;

    /// This much distance in the direction of `a`.
    fn directed(&self, distance: S, a: S) -> S;

    /// The exponential function.
    fn exponential(&self, a: S) -> S;
}

/// A mathematical reading of an arithmetic on distances.
#[verifier::reject_recursive_types(S)]
pub ghost struct Model<S> {
    pub zero: S,
    pub is_zero: spec_fn(S) -> bool,
    pub is_finite: spec_fn(S) -> bool,
    pub plus: spec_fn(S, S) -> S,
    pub minus: spec_fn(S, S) -> S,
    pub times: spec_fn(S, S) -> S,
    pub over: spec_fn(S, S) -> S,
    pub magnitude: spec_fn(S) -> S,
    pub exceeds: spec_fn(S, S) -> bool,
    pub whole: spec_fn(u64) -> S,
    pub fraction: spec_fn(u64, u64) -> S,
    pub directed: spec_fn(S, S) -> S,
    pub exponential: spec_fn(S) -> S,
}

/// Whether an arithmetic always computes what the model says.
pub open spec fn follows<S: Copy, M: ScrollMath<S>>(math: &M, model: Model<S>) -> bool {
    &&& forall|r: S| #[trigger] call_ensures(M::zero, (math,), r) ==> r == model.zero
    &&& forall|a: S, r: bool| #[trigger]
        call_ensures(M::is_zero, (math, a), r) ==> r == (model.is_zero)(a)
    &&& forall|a: S, r: bool| #[trigger]
        call_ensures(M::is_finite, (math, a), r) ==> r == (model.is_finite)(a)
    &&& forall|a: S, b: S, r: S| #[trigger]
        call_ensures(M::plus, (math, a, b), r) ==> r == (model.plus)(a, b)
    &&& forall|a: S, b: S, r: S| #[trigger]
        call_ensures(M::minus, (math, a, b), r) ==> r == (model.minus)(a, b)
    &&& forall|a: S, b: S, r: S| #[trigger]
        call_ensures(M::times, (math, a, b), r) ==> r == (model.times)(a, b)
    &&& forall|a: S, b: S, r: S| #[trigger]
        call_ensures(M::over, (math, a, b), r) ==> r == (model.over)(a, b)
    &&& forall|a: S, r: S| #[trigger]
        call_ensures(M::magnitude, (math, a), r) ==> r == (model.magnitude)(a)
    &&& forall|a: S, b: S, r: bool| #[trigger]
        call_ensures(M::exceeds, (math, a, b), r) ==> r == (model.exceeds)(a, b)
    &&& forall|n: u64, r: S| #[trigger]
        call_ensures(M::whole, (math, n), r) ==> r == (model.whole)(n)
    &&& forall|p: u64, w: u64, r: S| #[trigger]
        call_ensures(M::fraction, (math, p, w), r) ==> r == (model.fraction)(p, w)
    &&& forall|a: S, b: S, r: S| #[trigger]
        call_ensures(M::directed, (math, a, b), r) ==> r == (model.directed)(a, b)
    &&& forall|a: S, r: S| #[trigger]
        call_ensures(M::exponential, (math, a), r) ==> r == (model.exponential)(a)
}

/// A distance along both axes.
#[derive(Debug, PartialEq)]
pub struct WheelDelta<S> {
    pub x: S,
    pub y: S,
}

impl<S: Copy> Clone for WheelDelta<S> {
    fn clone(&self) -> (copy: Self)
        ensures
            copy == *self,
    {
        *self
    }
}

impl<S: Copy> Copy for WheelDelta<S> {

}

/// A scroll distance as it arrives.
#[derive(Debug, PartialEq)]
pub enum ScrollDelta<S> {
    /// Ticks of a wheel.
    WheelTicks { x: S, y: S },
    /// Pixels, from a device that scrolls continuously.
    Pixels { x: S, y: S },
}

impl<S: Copy> Clone for ScrollDelta<S> {
    fn clone(&self) -> (copy: Self)
        ensures
            copy == *self,
    {
        *self
    }
}

impl<S: Copy> Copy for ScrollDelta<S> {

}

impl<S> Model<S> {
    /// The number one.
    pub open spec fn one(self) -> S {
        (self.whole)(1)
    }

    /// No distance at all.
    pub open spec fn rest(self) -> WheelDelta<S> {
        WheelDelta { x: self.zero, y: self.zero }
    }

    /// Whether there is no distance on either axis.
    pub open spec fn vanishes(self, a: WheelDelta<S>) -> bool {
        (self.is_zero)(a.x) && (self.is_zero)(a.y)
    }

    /// The sum of two distances.
    pub open spec fn sum(self, a: WheelDelta<S>, b: WheelDelta<S>) -> WheelDelta<S> {
        WheelDelta { x: (self.plus)(a.x, b.x), y: (self.plus)(a.y, b.y) }
    }

    /// The difference of two distances.
    pub open spec fn difference(self, a: WheelDelta<S>, b: WheelDelta<S>) -> WheelDelta<S> {
        WheelDelta { x: (self.minus)(a.x, b.x), y: (self.minus)(a.y, b.y) }
    }

    /// A distance with both axes multiplied.
    pub open spec fn scaled(self, a: WheelDelta<S>, factor: S) -> WheelDelta<S> {
        WheelDelta { x: (self.times)(a.x, factor), y: (self.times)(a.y, factor) }
    }

    /// Whether distances add and subtract exactly, and only the zero distance
    /// counts as none.
    #[verifier::opaque]
    pub open spec fn exact(self) -> bool {
        &&& forall|a: S, b: S| #[trigger] (self.plus)(a, b) == (self.plus)(b, a)
        &&& forall|a: S, b: S, c: S| #[trigger]
            (self.plus)((self.plus)(a, b), c) == (self.plus)(a, (self.plus)(b, c))
        &&& forall|a: S| #[trigger] (self.plus)(a, self.zero) == a
        &&& forall|a: S, b: S| (self.plus)(b, #[trigger] (self.minus)(a, b)) == a
        &&& forall|a: S| #[trigger] (self.is_zero)(a) <==> a == self.zero
    }
}

/// No distance at all.
pub fn rest<S: Copy, M: ScrollMath<S>>(math: &M) -> (delta: WheelDelta<S>)
    ensures
        forall|model: Model<S>| #[trigger] follows(math, model) ==> delta == model.rest(),
{
    WheelDelta { x: math.zero(), y: math.zero() }
}

impl<S: Copy> WheelDelta<S> {
    /// Whether there is no distance on either axis.
    pub fn is_zero<M: ScrollMath<S>>(self, math: &M) -> (zero: bool)
        ensures
            forall|model: Model<S>| #[trigger]
                follows(math, model) ==> zero == model.vanishes(self),
    {
        let x = math.is_zero(self.x);
        let y = math.is_zero(self.y);
        x && y
    }

    /// The sum of two distances.
    pub fn plus<M: ScrollMath<S>>(self, other: Self, math: &M) -> (sum: Self)
        ensures
            forall|model: Model<S>| #[trigger]
                follows(math, model) ==> sum == model.sum(self, other),
    {
        WheelDelta { x: math.plus(self.x, other.x), y: math.plus(self.y, other.y) }
    }

    /// The difference of two distances.
    pub fn minus<M: ScrollMath<S>>(self, other: Self, math: &M) -> (difference: Self)
        ensures
            forall|model: Model<S>| #[trigger]
                follows(math, model) ==> difference == model.difference(self, other),
    {
        WheelDelta { x: math.minus(self.x, other.x), y: math.minus(self.y, other.y) }
    }

    /// A distance with both axes multiplied.
    pub fn scale<M: ScrollMath<S>>(self, factor: S, math: &M) -> (scaled: Self)
        ensures
            forall|model: Model<S>| #[trigger]
                follows(math, model) ==> scaled == model.scaled(self, factor),
    {
        WheelDelta { x: math.times(self.x, factor), y: math.times(self.y, factor) }
    }

    /// A distance with the vertical axis multiplied, where that stays finite.
    pub fn with_vertical_scale<M: ScrollMath<S>>(self, factor: S, math: &M) -> (scaled: Option<Self>)
        ensures
            forall|model: Model<S>| #[trigger]
                follows(math, model) ==> scaled == if (model.is_finite)(
                    (model.times)(self.y, factor),
                ) {
                    Some(WheelDelta { x: self.x, y: (model.times)(self.y, factor) })
                } else {
                    None
                },
    {
        let y = math.times(self.y, factor);
        if math.is_finite(y) {
            Some(WheelDelta { x: self.x, y })
        } else {
            None
        }
    }

    /// The wheel distance of a scroll: only finite wheel ticks that go
    /// somewhere are one.
    pub fn try_from<M: ScrollMath<S>>(delta: ScrollDelta<S>, math: &M) -> (wheel: Result<Self, ()>)
        ensures
            forall|model: Model<S>| #[trigger]
                follows(math, model) ==> wheel == match delta {
                    ScrollDelta::WheelTicks { x, y } => if (model.is_finite)(x)
                        && (model.is_finite)(y) && !model.vanishes(WheelDelta { x, y }) {
                        Ok(WheelDelta { x, y })
                    } else {
                        Err(())
                    },
                    ScrollDelta::Pixels { .. } => Err(()),
                },
    {
        match delta {
            ScrollDelta::WheelTicks { x, y } => {
                let delta = WheelDelta { x, y };
                let x_finite = math.is_finite(x);
                let y_finite = math.is_finite(y);
                if x_finite && y_finite && !delta.is_zero(math) {
                    Ok(delta)
                } else {
                    Err(())
                }
            },
            ScrollDelta::Pixels { .. } => Err(()),
        }
    }
}

} // verus!
