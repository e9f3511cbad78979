//! Output frames and the phases they carry.
//!
//! All motions bound for one stream share that stream's single lifecycle: a
//! stretch of output begins once, changes, and ends or is cancelled once.

use crate::scroll::math::{follows, rest, Model, ScrollMath, WheelDelta};
use crate::scroll::motion::ScrollStream;
use vstd::prelude::*;

verus! {

/// Where in its stretch of output a frame stands.
#[derive(Debug, Clone, Copy, PartialEq, Eq, Structural)]
pub enum SmoothScrollPhase {
    Began,
    Changed,
    Ended,
    Cancelled,
}

/// One output frame.
#[derive(Debug, PartialEq)]
pub struct ScrollFrame<S> {
    pub stream: ScrollStream,
    pub delta: WheelDelta<S>,
    pub phase: SmoothScrollPhase,
}

impl<S: Copy> Clone for ScrollFrame<S> {
    fn clone(&self) -> (copy: Self)
        ensures
            copy == *self,
    {
        *self
    }
}

impl<S: Copy> Copy for ScrollFrame<S> {

}

/// Whether a stream is under way after a frame with this phase, or `None`
/// where the phase is out of turn.
pub open spec fn phase_step(active: bool, phase: SmoothScrollPhase) -> Option<bool> {
    match phase {
        SmoothScrollPhase::Began => if active {
            None
        } else {
            Some(true)
        },
        SmoothScrollPhase::Changed => if active {
            Some(true)
        } else {
            None
        },
        SmoothScrollPhase::Ended | SmoothScrollPhase::Cancelled => if active {
            Some(false)
        } else {
            None
        },
    }
}

/// Whether `stream` is under way after `frames`, or `None` where a phase of
/// its frames is out of turn.
pub open spec fn lifecycle<S>(active: bool, frames: Seq<ScrollFrame<S>>, stream: ScrollStream) -> Option<
    bool,
>
    decreases frames.len(),
{
    if frames.len() == 0 {
        Some(active)
    } else {
        match lifecycle(active, frames.drop_last(), stream) {
            None => None,
            Some(on) => if frames.last().stream == stream {
                phase_step(on, frames.last().phase)
            } else {
                Some(on)
            },
        }
    }
}

/// Two stretches of frames that each keep the phases in turn do so together.
pub proof fn lemma_lifecycle_continues<S>(
    active: bool,
    first: Seq<ScrollFrame<S>>,
    second: Seq<ScrollFrame<S>>,
    stream: ScrollStream,
)
    requires
        lifecycle(active, first, stream) is Some,
    ensures
        lifecycle(active, first + second, stream) == lifecycle(
            lifecycle(active, first, stream)->0,
            second,
            stream,
        ),
    decreases second.len(),
{
    if second.len() == 0 {
        assert(first + second =~= first);
    } else {
        lemma_lifecycle_continues(active, first, second.drop_last(), stream);
        assert((first + second).drop_last() =~= first + second.drop_last());
    }
}

/// A stretch of output on one stream.
pub struct OutputStream {
    pub stream: ScrollStream,
    pub active: bool,
}

/// The frames for a distance along the way; none for no distance.
pub open spec fn progressed<S>(
    model: Model<S>,
    stream: ScrollStream,
    active: bool,
    delta: WheelDelta<S>,
) -> (bool, Seq<ScrollFrame<S>>) {
    if model.vanishes(delta) {
        (active, Seq::empty())
    } else {
        let phase = if active {
            SmoothScrollPhase::Changed
        } else {
            SmoothScrollPhase::Began
        };
        (true, seq![ScrollFrame { stream, delta, phase }])
    }
}

/// The frames for a last distance: the stretch ends, and where it had not
/// begun it begins and ends, unless there is nothing to show.
pub open spec fn finished<S>(
    model: Model<S>,
    stream: ScrollStream,
    active: bool,
    delta: WheelDelta<S>,
) -> Seq<ScrollFrame<S>> {
    if active {
        seq![ScrollFrame { stream, delta, phase: SmoothScrollPhase::Ended }]
    } else if model.vanishes(delta) {
        Seq::empty()
    } else {
        seq![
            ScrollFrame { stream, delta, phase: SmoothScrollPhase::Began },
            ScrollFrame { stream, delta: model.rest(), phase: SmoothScrollPhase::Ended },
        ]
    }
}

/// The frames for a stretch that is given up; none where it had not begun.
pub open spec fn cancelled<S>(
    model: Model<S>,
    stream: ScrollStream,
    active: bool,
) -> Seq<ScrollFrame<S>> {
    if active {
        seq![
            ScrollFrame { stream, delta: model.rest(), phase: SmoothScrollPhase::Cancelled },
        ]
    } else {
        Seq::empty()
    }
}

impl OutputStream {
    /// A stream that has not begun.
    pub fn new(stream: ScrollStream) -> (output: OutputStream)
        ensures
            output == (OutputStream { stream, active: false }),
    {
        OutputStream { stream, active: false }
    }

    /// Show a distance along the way.
    pub fn progress<S: Copy, M: ScrollMath<S>>(&mut self, delta: WheelDelta<S>, math: &M) -> (frames: Vec<ScrollFrame<S>>)
        ensures
            final(self).stream == old(self).stream,
            old(self).active ==> final(self).active,
            all_on(frames@, old(self).stream),
            lifecycle(old(self).active, frames@, old(self).stream) == Some(final(self).active),
            forall|model: Model<S>| #[trigger]
                follows(math, model) ==> (final(self).active, frames@) == progressed(
                    model,
                    old(self).stream,
                    old(self).active,
                    delta,
                ),
    {
        let mut frames: Vec<ScrollFrame<S>> = Vec::new();
        proof {
            reveal_with_fuel(lifecycle, 3);
        }
        if delta.is_zero(math) {
            return frames;
        }
        let phase = if self.active {
            SmoothScrollPhase::Changed
        } else {
            SmoothScrollPhase::Began
        };
        self.active = true;
        frames.push(ScrollFrame { stream: self.stream, delta, phase });
        assert(frames@.drop_last() =~= Seq::empty());
        frames
    }

    /// Show a last distance and end the stretch.
    pub fn finish<S: Copy, M: ScrollMath<S>>(&mut self, delta: WheelDelta<S>, math: &M) -> (frames: Vec<ScrollFrame<S>>)
        ensures
            *final(self) == (OutputStream { stream: old(self).stream, active: false }),
            all_on(frames@, old(self).stream),
            lifecycle(old(self).active, frames@, old(self).stream) == Some(false),
            forall|model: Model<S>| #[trigger]
                follows(math, model) ==> frames@ == finished(
                    model,
                    old(self).stream,
                    old(self).active,
                    delta,
                ),
    {
        let mut frames: Vec<ScrollFrame<S>> = Vec::new();
        proof {
            reveal_with_fuel(lifecycle, 3);
        }
        if self.active {
            frames.push(
                ScrollFrame { stream: self.stream, delta, phase: SmoothScrollPhase::Ended },
            );
            assert(frames@.drop_last() =~= Seq::empty());
        } else if !delta.is_zero(math) {
            frames.push(
                ScrollFrame { stream: self.stream, delta, phase: SmoothScrollPhase::Began },
            );
            let ghost first = frames@;
            assert(first.drop_last() =~= Seq::empty());
            frames.push(
                ScrollFrame {
                    stream: self.stream,
                    delta: rest(math),
                    phase: SmoothScrollPhase::Ended,
                },
            );
            assert(frames@.drop_last() =~= first);
        }
        self.active = false;
        frames
    }

    /// Give the stretch up.
    pub fn cancel<S: Copy, M: ScrollMath<S>>(&mut self, math: &M) -> (frames: Vec<ScrollFrame<S>>)
        ensures
            *final(self) == (OutputStream { stream: old(self).stream, active: false }),
            all_on(frames@, old(self).stream),
            lifecycle(old(self).active, frames@, old(self).stream) == Some(false),
            forall|model: Model<S>| #[trigger]
                follows(math, model) ==> frames@ == cancelled(
                    model,
                    old(self).stream,
                    old(self).active,
                ),
    {
        let mut frames: Vec<ScrollFrame<S>> = Vec::new();
        proof {
            reveal_with_fuel(lifecycle, 3);
        }
        if self.active {
            frames.push(
                ScrollFrame {
                    stream: self.stream,
                    delta: rest(math),
                    phase: SmoothScrollPhase::Cancelled,
                },
            );
            assert(frames@.drop_last() =~= Seq::empty());
        }
        self.active = false;
        frames
    }
}

/// Whether every frame is on `stream`.
pub open spec fn all_on<S>(frames: Seq<ScrollFrame<S>>, stream: ScrollStream) -> bool {
    forall|i: int| 0 <= i < frames.len() ==> (#[trigger] frames[i]).stream == stream
}

/// Frames on one stream leave every other stream as it is.
pub proof fn lemma_other_streams_are_left_alone<S>(
    active: bool,
    frames: Seq<ScrollFrame<S>>,
    stream: ScrollStream,
    other: ScrollStream,
)
    requires
        all_on(frames, stream),
        other != stream,
    ensures
        lifecycle(active, frames, other) == Some(active),
    decreases frames.len(),
{
    if frames.len() > 0 {
        let before = frames.drop_last();
        assert forall|i: int| 0 <= i < before.len() implies (#[trigger] before[i]).stream
            == stream by {
            assert(before[i] == frames[i]);
        }
        assert(frames[frames.len() - 1].stream == stream);
        lemma_other_streams_are_left_alone(active, before, stream, other);
    }
}

} // verus!
