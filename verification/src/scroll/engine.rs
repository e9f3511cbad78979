//! All wheels at once.
//!
//! A wheel that is not known here is idle, so an idle wheel keeps neither a
//! target nor a deadline. Every motion feeds the output of its stream.

use crate::node_set::{absent_nodes, lemma_push_contains, lemma_take_contains};
use crate::scroll::math::{follows, Model, ScrollMath, WheelDelta};
use crate::scroll::motion::{
    advanced, bounded, started, tick_fits, ticked, ActiveMotion, MotionTuning, MotionUpdate,
    MotionView, ScrollStream, FRAME_INTERVAL,
};
use crate::scroll::output::{
    all_on, cancelled, finished, lemma_lifecycle_continues, lemma_other_streams_are_left_alone,
    lifecycle, progressed, OutputStream, ScrollFrame,
};
use std::collections::{HashMap, HashSet};
use vstd::prelude::*;

verus! {

/// The motions of all wheels, by source.
pub struct ScrollEngine<S> {
    active: HashMap<u64, ActiveMotion<S>>,
    wheel_output: OutputStream,
    gesture_output: OutputStream,
}

/// The value of an engine.
#[verifier::ext_equal]
pub struct EngineView<S> {
    pub sources: Map<u64, MotionView<S>>,
    /// Whether wheel output is under way.
    pub wheel: bool,
    /// Whether gesture output is under way.
    pub gesture: bool,
}

impl<S> View for ScrollEngine<S> {
    type V = EngineView<S>;

    closed spec fn view(&self) -> EngineView<S> {
        EngineView {
            sources: self.active@.map_values(|motion: ActiveMotion<S>| motion@),
            wheel: self.wheel_output.active,
            gesture: self.gesture_output.active,
        }
    }
}

/// Whether a motion feeds `stream`.
pub open spec fn feeds<S>(sources: Map<u64, MotionView<S>>, stream: ScrollStream) -> bool {
    exists|source: u64| #[trigger] sources.contains_key(source) && sources[source].stream == stream
}

impl<S> EngineView<S> {
    /// Whether output on `stream` is under way.
    pub open spec fn under_way(self, stream: ScrollStream) -> bool {
        match stream {
            ScrollStream::Wheel => self.wheel,
            ScrollStream::Gesture => self.gesture,
        }
    }

    /// The same motions, with output on `stream` under way or not.
    pub open spec fn with_output(self, stream: ScrollStream, active: bool) -> EngineView<S> {
        match stream {
            ScrollStream::Wheel => EngineView { wheel: active, ..self },
            ScrollStream::Gesture => EngineView { gesture: active, ..self },
        }
    }

    /// Every motion is within its bounds, and output is under way only while a
    /// motion feeds it.
    pub open spec fn valid(self) -> bool {
        &&& forall|source: u64| #[trigger]
            self.sources.contains_key(source) ==> bounded(self.sources[source])
        &&& forall|stream: ScrollStream| #[trigger]
            self.under_way(stream) ==> feeds(self.sources, stream)
    }
}

/// An engine that shows an update on `stream`: the stretch of output ends with
/// the last motion that feeds it.
pub open spec fn shown<S>(
    model: Model<S>,
    engine: EngineView<S>,
    stream: ScrollStream,
    update: MotionUpdate<S>,
) -> (EngineView<S>, Seq<ScrollFrame<S>>) {
    match update {
        MotionUpdate::Finished(delta) if !feeds(engine.sources, stream) => (
            engine.with_output(stream, false),
            finished(model, stream, engine.under_way(stream), delta),
        ),
        MotionUpdate::Finished(delta) | MotionUpdate::Active(delta) => {
            let (active, frames) = progressed(model, stream, engine.under_way(stream), delta);
            (engine.with_output(stream, active), frames)
        },
    }
}

/// An engine without the motion of `source`: output is cancelled where nothing
/// else feeds it.
pub open spec fn source_cancelled<S>(
    model: Model<S>,
    engine: EngineView<S>,
    source: u64,
) -> (EngineView<S>, Seq<ScrollFrame<S>>) {
    if engine.sources.contains_key(source) {
        let stream = engine.sources[source].stream;
        let rest = EngineView { sources: engine.sources.remove(source), ..engine };
        if feeds(rest.sources, stream) {
            (rest, Seq::empty())
        } else {
            (
                rest.with_output(stream, false),
                cancelled(model, stream, engine.under_way(stream)),
            )
        }
    } else {
        (engine, Seq::empty())
    }
}

/// An engine after one tick. A source that changes streams closes its old
/// motion first; a tick of an idle source starts a motion and shows nothing.
pub open spec fn impulsed<S>(
    model: Model<S>,
    engine: EngineView<S>,
    source: u64,
    stream: ScrollStream,
    impulse: WheelDelta<S>,
    at: u64,
    tuning: MotionTuning<S>,
) -> (EngineView<S>, Seq<ScrollFrame<S>>) {
    let (open, closing) = if engine.sources.contains_key(source) && engine.sources[source].stream
        != stream {
        source_cancelled(model, engine, source)
    } else {
        (engine, Seq::empty())
    };
    if open.sources.contains_key(source) {
        let (motion, update) = ticked(model, open.sources[source], impulse, at, tuning);
        let (after, frames) = shown(
            model,
            EngineView {
                sources: if update is Finished {
                    open.sources.remove(source)
                } else {
                    open.sources.insert(source, motion)
                },
                ..open
            },
            stream,
            update,
        );
        (after, closing + frames)
    } else {
        (
            EngineView {
                sources: open.sources.insert(source, started(model, stream, impulse, at, tuning)),
                ..open
            },
            closing,
        )
    }
}

/// An engine after one source's motion advanced to `at`.
pub open spec fn source_advanced<S>(
    model: Model<S>,
    engine: EngineView<S>,
    source: u64,
    at: u64,
) -> (EngineView<S>, Seq<ScrollFrame<S>>) {
    let (motion, update) = advanced(model, engine.sources[source], at);
    shown(
        model,
        EngineView {
            sources: if update is Finished {
                engine.sources.remove(source)
            } else {
                engine.sources.insert(source, motion)
            },
            ..engine
        },
        engine.sources[source].stream,
        update,
    )
}

/// An engine after the motions of `due` advanced to `at` one after the other.
pub open spec fn all_advanced<S>(
    model: Model<S>,
    engine: EngineView<S>,
    due: Seq<u64>,
    at: u64,
) -> (EngineView<S>, Seq<ScrollFrame<S>>)
    decreases due.len(),
{
    if due.len() == 0 {
        (engine, Seq::empty())
    } else {
        let (before, earlier) = all_advanced(model, engine, due.drop_last(), at);
        let (after, frames) = source_advanced(model, before, due.last(), at);
        (after, earlier + frames)
    }
}

/// Whether `due` lists, each once, the sources with a frame due at `at`.
pub open spec fn lists_due<S>(sources: Map<u64, MotionView<S>>, at: u64, due: Seq<u64>) -> bool {
    &&& due.no_duplicates()
    &&& forall|source: u64| #[trigger]
        due.contains(source) <==> sources.contains_key(source) && sources[source].next_frame <= at
}

/// Whether every stream's phases stay in turn over `frames`.
pub open spec fn in_turn<S>(
    before: EngineView<S>,
    frames: Seq<ScrollFrame<S>>,
    after: EngineView<S>,
) -> bool {
    forall|stream: ScrollStream|
        lifecycle(before.under_way(stream), frames, stream) == Some(
            #[trigger] after.under_way(stream),
        )
}

proof fn lemma_in_turn_continues<S>(
    before: EngineView<S>,
    first: Seq<ScrollFrame<S>>,
    between: EngineView<S>,
    second: Seq<ScrollFrame<S>>,
    after: EngineView<S>,
)
    requires
        in_turn(before, first, between),
        in_turn(between, second, after),
    ensures
        in_turn(before, first + second, after),
{
    assert forall|stream: ScrollStream|
        lifecycle(before.under_way(stream), first + second, stream) == Some(
            #[trigger] after.under_way(stream),
        ) by {
        assert(lifecycle(before.under_way(stream), first, stream) == Some(
            between.under_way(stream),
        ));
        lemma_lifecycle_continues(before.under_way(stream), first, second, stream);
    }
}

/// Frames on one stream that keep its phases in turn keep all phases in turn.
proof fn lemma_one_stream_in_turn<S>(
    before: EngineView<S>,
    frames: Seq<ScrollFrame<S>>,
    stream: ScrollStream,
    active: bool,
    sources: Map<u64, MotionView<S>>,
)
    requires
        all_on(frames, stream),
        lifecycle(before.under_way(stream), frames, stream) == Some(active),
    ensures
        in_turn(before, frames, EngineView { sources, ..before.with_output(stream, active) }),
{
    let after = EngineView { sources, ..before.with_output(stream, active) };
    assert forall|other: ScrollStream|
        lifecycle(before.under_way(other), frames, other) == Some(
            #[trigger] after.under_way(other),
        ) by {
        if other != stream {
            lemma_other_streams_are_left_alone(before.under_way(other), frames, stream, other);
        }
    }
}

impl<S: Copy> ScrollEngine<S> {
    /// The engine is valid, and each output knows its stream.
    pub closed spec fn wf(&self) -> bool {
        &&& self@.valid()
        &&& self.wheel_output.stream == ScrollStream::Wheel
        &&& self.gesture_output.stream == ScrollStream::Gesture
    }

    /// An engine whose wheels are all idle.
    pub fn new() -> (engine: Self)
        ensures
            engine.wf(),
            engine@ == (EngineView::<S> {
                sources: Map::empty(),
                wheel: false,
                gesture: false,
            }),
    {
        let engine = ScrollEngine {
            active: HashMap::new(),
            wheel_output: OutputStream::new(ScrollStream::Wheel),
            gesture_output: OutputStream::new(ScrollStream::Gesture),
        };
        assert(engine@.sources =~= Map::empty());
        engine
    }

    /// A well-formed engine is valid.
    pub proof fn lemma_valid(&self)
        requires
            self.wf(),
        ensures
            self@.valid(),
    {
    }

    /// The sources with a motion, each once.
    fn sources(&self) -> (sources: Vec<u64>)
        ensures
            sources@.no_duplicates(),
            forall|source: u64| #[trigger]
                sources@.contains(source) <==> self@.sources.contains_key(source),
    {
        absent_nodes(&self.active, &HashSet::new())
    }

    /// Whether a motion feeds `stream`.
    pub fn has_active(&self, stream: ScrollStream) -> (active: bool)
        ensures
            active == feeds(self@.sources, stream),
    {
        let sources = self.sources();
        for i in 0..sources.len()
            invariant
                forall|source: u64| #[trigger]
                    sources@.contains(source) <==> self@.sources.contains_key(source),
                forall|k: int|
                    0 <= k < i ==> self@.sources[#[trigger] sources@[k]].stream != stream,
        {
            assert(sources@.contains(sources@[i as int]));
            match self.active.get(&sources[i]) {
                Some(motion) => {
                    if motion.stream() == stream {
                        assert(self@.sources.contains_key(sources@[i as int]));
                        return true;
                    }
                },
                None => {},
            }
        }
        proof {
            if feeds(self@.sources, stream) {
                let source = choose|source: u64| #[trigger]
                    self@.sources.contains_key(source) && self@.sources[source].stream == stream;
                assert(sources@.contains(source));
                let k = choose|k: int| 0 <= k < sources@.len() && sources@[k] == source;
                assert(self@.sources[sources@[k]].stream != stream);
            }
        }
        false
    }

    /// Whether `source` has a motion.
    pub fn contains(&self, source: u64) -> (active: bool)
        ensures
            active == self@.sources.contains_key(source),
    {
        self.active.contains_key(&source)
    }

    /// Whether every wheel is idle.
    pub fn is_idle(&self) -> (idle: bool)
        ensures
            idle == (forall|source: u64| !#[trigger] self@.sources.contains_key(source)),
    {
        let sources = self.sources();
        proof {
            if sources@.len() > 0 {
                assert(sources@.contains(sources@[0]));
            }
            assert forall|source: u64| sources@.len() == 0 implies !#[trigger]
                self@.sources.contains_key(source) by {
                assert(!sources@.contains(source));
            }
        }
        sources.len() == 0
    }

    /// The motion of `source`.
    pub fn motion(&self, source: u64) -> (motion: Option<&ActiveMotion<S>>)
        ensures
            match motion {
                Some(motion) => self@.sources.contains_key(source) && motion@
                    == self@.sources[source],
                None => !self@.sources.contains_key(source),
            },
    {
        self.active.get(&source)
    }

    /// When the engine is to be advanced next.
    pub fn next_deadline(&self) -> (deadline: Option<u64>)
        ensures
            match deadline {
                Some(at) => {
                    &&& exists|source: u64| #[trigger]
                        self@.sources.contains_key(source) && self@.sources[source].next_frame
                            == at
                    &&& forall|source: u64| #[trigger]
                        self@.sources.contains_key(source) ==> at
                            <= self@.sources[source].next_frame
                },
                None => forall|source: u64| !#[trigger] self@.sources.contains_key(source),
            },
    {
        let sources = self.sources();
        let mut deadline: Option<u64> = None;
        for i in 0..sources.len()
            invariant
                forall|source: u64| #[trigger]
                    sources@.contains(source) <==> self@.sources.contains_key(source),
                i == 0 ==> deadline is None,
                i > 0 ==> (deadline matches Some(at) && {
                    &&& exists|source: u64| #[trigger]
                        self@.sources.contains_key(source) && self@.sources[source].next_frame
                            == at
                    &&& forall|k: int|
                        0 <= k < i ==> at <= self@.sources[#[trigger] sources@[k]].next_frame
                }),
        {
            assert(sources@.contains(sources@[i as int]));
            match self.active.get(&sources[i]) {
                Some(motion) => {
                    let next = motion.next_frame();
                    let sooner = match deadline {
                        Some(at) => next < at,
                        None => true,
                    };
                    if sooner {
                        assert(self@.sources.contains_key(sources@[i as int]));
                        deadline = Some(next);
                    }
                },
                None => {},
            }
        }
        proof {
            assert forall|source: u64| #[trigger] self@.sources.contains_key(source) implies
                sources@.len() > 0 && (deadline matches Some(at) && at
                <= self@.sources[source].next_frame) by {
                assert(sources@.contains(source));
                let k = choose|k: int| 0 <= k < sources@.len() && sources@[k] == source;
                assert(sources@[k] == source);
            }
        }
        deadline
    }

    /// Each output knows its stream, every motion is within its bounds, and
    /// output on any stream but `stream` is under way only while fed.
    spec fn settled_but(&self, stream: ScrollStream) -> bool {
        &&& self.wheel_output.stream == ScrollStream::Wheel
        &&& self.gesture_output.stream == ScrollStream::Gesture
        &&& forall|source: u64| #[trigger]
            self@.sources.contains_key(source) ==> bounded(self@.sources[source])
        &&& forall|other: ScrollStream| #[trigger]
            self@.under_way(other) && other != stream ==> feeds(self@.sources, other)
    }

    /// Cancel output on `stream`.
    fn cancel_output<M: ScrollMath<S>>(&mut self, stream: ScrollStream, math: &M) -> (frames: Vec<ScrollFrame<S>>)
        requires
            old(self).settled_but(stream),
        ensures
            final(self).wf(),
            final(self)@ == old(self)@.with_output(stream, false),
            in_turn(old(self)@, frames@, final(self)@),
            forall|model: Model<S>| #[trigger]
                follows(math, model) ==> frames@ == cancelled(
                    model,
                    stream,
                    old(self)@.under_way(stream),
                ),
    {
        let frames = match stream {
            ScrollStream::Wheel => self.wheel_output.cancel(math),
            ScrollStream::Gesture => self.gesture_output.cancel(math),
        };
        proof {
            lemma_one_stream_in_turn(old(self)@, frames@, stream, false, self@.sources);
            assert forall|other: ScrollStream| #[trigger] self@.under_way(other) implies feeds(
                self@.sources,
                other,
            ) by {
                assert(old(self)@.under_way(other) && other != stream);
            }
        }
        frames
    }

    /// Show an update on `stream`.
    fn emit_update<M: ScrollMath<S>>(
        &mut self,
        stream: ScrollStream,
        update: MotionUpdate<S>,
        math: &M,
    ) -> (frames: Vec<ScrollFrame<S>>)
        requires
            old(self).settled_but(stream),
            update is Active ==> feeds(old(self)@.sources, stream),
        ensures
            final(self).wf(),
            final(self)@.sources == old(self)@.sources,
            in_turn(old(self)@, frames@, final(self)@),
            forall|model: Model<S>| #[trigger]
                follows(math, model) ==> (final(self)@, frames@) == shown(
                    model,
                    old(self)@,
                    stream,
                    update,
                ),
    {
        let delta = update.delta();
        let last = update.is_finished() && !self.has_active(stream);
        let frames = match stream {
            ScrollStream::Wheel => if last {
                self.wheel_output.finish(delta, math)
            } else {
                self.wheel_output.progress(delta, math)
            },
            ScrollStream::Gesture => if last {
                self.gesture_output.finish(delta, math)
            } else {
                self.gesture_output.progress(delta, math)
            },
        };
        proof {
            let active = self@.under_way(stream);
            assert(self@ == EngineView {
                sources: self@.sources,
                ..old(self)@.with_output(stream, active)
            });
            lemma_one_stream_in_turn(old(self)@, frames@, stream, active, self@.sources);
            assert forall|other: ScrollStream| #[trigger] self@.under_way(other) implies feeds(
                self@.sources,
                other,
            ) by {
                if other != stream {
                    assert(old(self)@.under_way(other));
                }
            }
        }
        frames
    }

    /// Drop the motion of `source`. Output that something else feeds goes on.
    pub fn cancel_source<M: ScrollMath<S>>(&mut self, source: u64, math: &M) -> (frames: Vec<ScrollFrame<S>>)
        requires
            old(self).wf(),
        ensures
            final(self).wf(),
            final(self)@.sources == old(self)@.sources.remove(source),
            in_turn(old(self)@, frames@, final(self)@),
            forall|model: Model<S>| #[trigger]
                follows(math, model) ==> (final(self)@, frames@) == source_cancelled(
                    model,
                    old(self)@,
                    source,
                ),
    {
        match self.active.remove(&source) {
            None => {
                assert(self@.sources =~= old(self)@.sources);
                assert(self@.sources =~= old(self)@.sources.remove(source));
                proof {
                    assert(in_turn(old(self)@, Seq::<ScrollFrame<S>>::empty(), self@));
                }
                Vec::new()
            },
            Some(motion) => {
                let stream = motion.stream();
                proof {
                    assert(self@.sources =~= old(self)@.sources.remove(source));
                    lemma_fed_without(old(self)@.sources, source);
                }
                if self.has_active(stream) {
                    proof {
                        assert(in_turn(old(self)@, Seq::<ScrollFrame<S>>::empty(), self@));
                    }
                    Vec::new()
                } else {
                    let ghost between = self@;
                    assert forall|other: ScrollStream| #[trigger] self@.under_way(other) && other
                        != stream implies feeds(self@.sources, other) by {
                        assert(old(self)@.under_way(other));
                        assert(feeds(old(self)@.sources, other));
                    }
                    let frames = self.cancel_output(stream, math);
                    assert(in_turn(old(self)@, frames@, self@)) by {
                        assert forall|other: ScrollStream|
                            lifecycle(old(self)@.under_way(other), frames@, other) == Some(
                                #[trigger] self@.under_way(other),
                            ) by {
                            assert(between.under_way(other) == old(self)@.under_way(other));
                        }
                    }
                    frames
                }
            },
        }
    }

    /// Take in one tick of `source`, bound for `stream`.
    pub fn impulse<M: ScrollMath<S>>(
        &mut self,
        source: u64,
        stream: ScrollStream,
        impulse: WheelDelta<S>,
        at: u64,
        tuning: MotionTuning<S>,
        math: &M,
    ) -> (frames: Vec<ScrollFrame<S>>)
        requires
            old(self).wf(),
            tick_fits(at, tuning),
        ensures
            final(self).wf(),
            in_turn(old(self)@, frames@, final(self)@),
            forall|model: Model<S>| #[trigger]
                follows(math, model) ==> (final(self)@, frames@) == impulsed(
                    model,
                    old(self)@,
                    source,
                    stream,
                    impulse,
                    at,
                    tuning,
                ),
    {
        let changed = match self.active.get(&source) {
            Some(motion) => motion.stream() != stream,
            None => false,
        };
        let mut frames: Vec<ScrollFrame<S>> = Vec::new();
        if changed {
            frames = self.cancel_source(source, math);
        } else {
            assert(in_turn(old(self)@, frames@, self@));
        }
        let ghost open = self@;
        let ghost closing = frames@;
        match self.active.remove(&source) {
            Some(motion) => {
                let mut motion = motion;
                assert(open.sources.contains_key(source));
                assert(motion@ == open.sources[source]);
                let update = motion.add_tick(impulse, at, tuning, math);
                if !update.is_finished() {
                    self.active.insert(source, motion);
                    assert(self@.sources =~= open.sources.insert(source, motion@));
                    assert(self@.sources.contains_key(source));
                } else {
                    assert(self@.sources =~= open.sources.remove(source));
                }
                proof {
                    lemma_fed_without(open.sources, source);
                    lemma_fed_but(open.sources, self@.sources, source);
                }
                let ghost between = self@;
                assert forall|other: ScrollStream| #[trigger] self@.under_way(other) && other
                    != stream implies feeds(self@.sources, other) by {
                    assert(open.under_way(other));
                    assert(feeds(open.sources, other));
                }
                let mut shown_frames = self.emit_update(stream, update, math);
                proof {
                    assert(in_turn(open, shown_frames@, self@)) by {
                        assert forall|other: ScrollStream|
                            lifecycle(open.under_way(other), shown_frames@, other) == Some(
                                #[trigger] self@.under_way(other),
                            ) by {
                            assert(between.under_way(other) == open.under_way(other));
                        }
                    }
                    lemma_in_turn_continues(old(self)@, closing, open, shown_frames@, self@);
                }
                frames.append(&mut shown_frames);
            },
            None => {
                let motion = ActiveMotion::new(stream, impulse, at, tuning, math);
                self.active.insert(source, motion);
                proof {
                    assert(self@.sources =~= open.sources.insert(source, motion@));
                    lemma_fed_with(open.sources, source, motion@);
                    assert(in_turn(old(self)@, frames@, self@)) by {
                        assert forall|other: ScrollStream|
                            lifecycle(old(self)@.under_way(other), frames@, other) == Some(
                                #[trigger] self@.under_way(other),
                            ) by {
                            assert(open.under_way(other) == self@.under_way(other));
                        }
                    }
                    assert forall|other: ScrollStream| #[trigger] self@.under_way(
                        other,
                    ) implies feeds(self@.sources, other) by {
                        assert(open.under_way(other));
                    }
                }
            },
        }
        frames
    }

    /// Advance the motion of one source.
    fn advance_source<M: ScrollMath<S>>(&mut self, source: u64, at: u64, math: &M) -> (frames: Vec<ScrollFrame<S>>)
        requires
            old(self).wf(),
            old(self)@.sources.contains_key(source),
            at + FRAME_INTERVAL <= u64::MAX,
        ensures
            final(self).wf(),
            forall|other: u64|
                other != source ==> {
                    &&& #[trigger] final(self)@.sources.contains_key(other) == old(self)@.sources.contains_key(other)
                    &&& old(self)@.sources.contains_key(other) ==> final(self)@.sources[other]
                        == old(self)@.sources[other]
                },
            final(self)@.sources.contains_key(source) ==> final(self)@.sources[source].next_frame
                > at,
            final(self)@.sources.contains_key(source) && old(self)@.sources[source].next_frame
                <= at ==> final(self)@.sources[source].next_frame <= at + FRAME_INTERVAL,
            in_turn(old(self)@, frames@, final(self)@),
            forall|model: Model<S>| #[trigger]
                follows(math, model) ==> (final(self)@, frames@) == source_advanced(
                    model,
                    old(self)@,
                    source,
                    at,
                ),
    {
        let ghost open = self@;
        match self.active.remove(&source) {
            Some(motion) => {
                let mut motion = motion;
                let stream = motion.stream();
                assert(motion@ == open.sources[source]);
                let update = motion.advance(at, math);
                if !update.is_finished() {
                    self.active.insert(source, motion);
                    assert(self@.sources =~= open.sources.insert(source, motion@));
                    assert(self@.sources.contains_key(source));
                } else {
                    assert(self@.sources =~= open.sources.remove(source));
                }
                proof {
                    lemma_fed_but(open.sources, self@.sources, source);
                    assert forall|other: ScrollStream| #[trigger] self@.under_way(other) && other
                        != stream implies feeds(self@.sources, other) by {
                        assert(open.under_way(other));
                        assert(feeds(open.sources, other));
                    }
                }
                let ghost between = self@;
                let frames = self.emit_update(stream, update, math);
                proof {
                    assert forall|other: ScrollStream|
                        lifecycle(open.under_way(other), frames@, other) == Some(
                            #[trigger] self@.under_way(other),
                        ) by {
                        assert(between.under_way(other) == open.under_way(other));
                    }
                }
                frames
            },
            None => Vec::new(),
        }
    }

    /// Advance every motion with a frame due at `at`, one after the other.
    pub fn advance_due<M: ScrollMath<S>>(&mut self, at: u64, math: &M) -> (frames: Vec<ScrollFrame<S>>)
        requires
            old(self).wf(),
            at + FRAME_INTERVAL <= u64::MAX,
        ensures
            final(self).wf(),
            in_turn(old(self)@, frames@, final(self)@),
            forall|source: u64| #[trigger]
                final(self)@.sources.contains_key(source) ==> final(self)@.sources[source].next_frame > at,
            forall|source: u64| #[trigger]
                final(self)@.sources.contains_key(source) ==> old(self)@.sources.contains_key(source)
                    && (old(self)@.sources[source].next_frame <= at
                    ==> final(self)@.sources[source].next_frame <= at + FRAME_INTERVAL),
            exists|due: Seq<u64>| #[trigger]
                lists_due(old(self)@.sources, at, due) && forall|model: Model<S>| #[trigger]
                    follows(math, model) ==> (final(self)@, frames@) == all_advanced(
                        model,
                        old(self)@,
                        due,
                        at,
                    ),
    {
        let sources = self.sources();
        let mut due: Vec<u64> = Vec::new();
        for i in 0..sources.len()
            invariant
                sources@.no_duplicates(),
                forall|source: u64| #[trigger]
                    sources@.contains(source) <==> self@.sources.contains_key(source),
                due@.no_duplicates(),
                forall|source: u64| #[trigger]
                    due@.contains(source) <==> sources@.take(i as int).contains(source)
                        && self@.sources[source].next_frame <= at,
        {
            let source = sources[i];
            let ghost before = due@;
            proof {
                lemma_take_contains(sources@, i as int);
                let taken = sources@.take(i as int);
                if taken.contains(source) {
                    let k = choose|k: int| 0 <= k < taken.len() && taken[k] == source;
                    assert(sources@[k] == sources@[i as int]);
                }
                assert(!before.contains(source));
            }
            match self.active.get(&source) {
                Some(motion) => {
                    if motion.next_frame() <= at {
                        due.push(source);
                        proof {
                            lemma_push_contains(before, source);
                        }
                    }
                },
                None => {},
            }
        }
        assert(sources@.take(sources@.len() as int) =~= sources@);
        assert(lists_due(self@.sources, at, due@));
        let ghost start = self@;
        let mut frames: Vec<ScrollFrame<S>> = Vec::new();
        assert(due@.take(0) =~= Seq::empty());
        assert(in_turn(start, frames@, self@));
        for i in 0..due.len()
            invariant
                at + FRAME_INTERVAL <= u64::MAX,
                lists_due(start.sources, at, due@),
                self.wf(),
                in_turn(start, frames@, self@),
                forall|source: u64|
                    !due@.take(i as int).contains(source) ==> {
                        &&& #[trigger] self@.sources.contains_key(source)
                            == start.sources.contains_key(source)
                        &&& start.sources.contains_key(source) ==> self@.sources[source]
                            == start.sources[source]
                    },
                forall|source: u64| #[trigger]
                    self@.sources.contains_key(source) && due@.take(i as int).contains(source)
                        ==> at < self@.sources[source].next_frame <= at + FRAME_INTERVAL,
                forall|model: Model<S>| #[trigger]
                    follows(math, model) ==> (self@, frames@) == all_advanced(
                        model,
                        start,
                        due@.take(i as int),
                        at,
                    ),
        {
            let source = due[i];
            let ghost before = self@;
            let ghost earlier = frames@;
            proof {
                lemma_take_contains(due@, i as int);
                let taken = due@.take(i as int);
                if taken.contains(source) {
                    let k = choose|k: int| 0 <= k < taken.len() && taken[k] == source;
                    assert(due@[k] == due@[i as int]);
                }
                assert(due@.contains(source));
                assert(self@.sources.contains_key(source) == start.sources.contains_key(source));
                assert(due@.take(i + 1).drop_last() =~= due@.take(i as int));
            }
            let mut more = self.advance_source(source, at, math);
            proof {
                assert forall|other: u64| !due@.take(i + 1).contains(other) implies {
                    &&& #[trigger] self@.sources.contains_key(other)
                        == start.sources.contains_key(other)
                    &&& start.sources.contains_key(other) ==> self@.sources[other]
                        == start.sources[other]
                } by {
                    assert(!due@.take(i as int).contains(other) && other != source);
                    assert(before.sources.contains_key(other) == start.sources.contains_key(other));
                    assert(self@.sources.contains_key(other) == before.sources.contains_key(other));
                }
                assert forall|other: u64| #[trigger]
                    self@.sources.contains_key(other) && due@.take(i + 1).contains(
                        other,
                    ) implies at < self@.sources[other].next_frame <= at + FRAME_INTERVAL by {
                    if other == source {
                        assert(before.sources[source] == start.sources[source]);
                    } else {
                        assert(due@.take(i as int).contains(other));
                        assert(before.sources.contains_key(other));
                        assert(self@.sources[other] == before.sources[other]);
                    }
                }
                lemma_in_turn_continues(start, earlier, before, more@, self@);
            }
            frames.append(&mut more);
        }
        proof {
            assert(due@.take(due@.len() as int) =~= due@);
            assert forall|source: u64| #[trigger]
                self@.sources.contains_key(source) implies self@.sources[source].next_frame > at
                && start.sources.contains_key(source) && (start.sources[source].next_frame <= at
                ==> self@.sources[source].next_frame <= at + FRAME_INTERVAL) by {
                assert(due@.contains(source) <==> start.sources.contains_key(source)
                    && start.sources[source].next_frame <= at);
            }
        }
        frames
    }

    /// Drop every motion bound for `stream` and cancel its output.
    pub fn cancel_stream<M: ScrollMath<S>>(&mut self, stream: ScrollStream, math: &M) -> (frames: Vec<ScrollFrame<S>>)
        requires
            old(self).wf(),
        ensures
            final(self).wf(),
            forall|source: u64|
                {
                    &&& #[trigger] final(self)@.sources.contains_key(source) <==> old(self)@.sources.contains_key(source) && old(self)@.sources[source].stream != stream
                    &&& final(self)@.sources.contains_key(source) ==> final(self)@.sources[source]
                        == old(self)@.sources[source]
                },
            final(self)@ == (EngineView {
                sources: final(self)@.sources,
                ..old(self)@.with_output(stream, false)
            }),
            in_turn(old(self)@, frames@, final(self)@),
            forall|model: Model<S>| #[trigger]
                follows(math, model) ==> frames@ == cancelled(
                    model,
                    stream,
                    old(self)@.under_way(stream),
                ),
    {
        let sources = self.sources();
        let ghost start = self@;
        for i in 0..sources.len()
            invariant
                start.valid(),
                start == old(self)@,
                forall|source: u64| #[trigger]
                    sources@.contains(source) <==> start.sources.contains_key(source),
                forall|source: u64|
                    {
                        &&& #[trigger] self@.sources.contains_key(source)
                            <==> start.sources.contains_key(source) && !(sources@.take(
                            i as int,
                        ).contains(source) && start.sources[source].stream == stream)
                        &&& self@.sources.contains_key(source) ==> self@.sources[source]
                            == start.sources[source]
                    },
                self.wheel_output == old(self).wheel_output,
                self.gesture_output == old(self).gesture_output,
        {
            let source = sources[i];
            let ghost before = self@;
            proof {
                lemma_take_contains(sources@, i as int);
                assert(start.sources.contains_key(source));
            }
            let drop_it = match self.active.get(&source) {
                Some(motion) => motion.stream() == stream,
                None => false,
            };
            if drop_it {
                self.active.remove(&source);
                assert(self@.sources =~= before.sources.remove(source));
            }
            proof {
                assert(before.sources.contains_key(source) ==> before.sources[source]
                    == start.sources[source]);
                assert(drop_it <==> before.sources.contains_key(source)
                    && start.sources[source].stream == stream);
                assert forall|other: u64|
                    {
                        &&& #[trigger] self@.sources.contains_key(other)
                            <==> start.sources.contains_key(other) && !(sources@.take(
                            i + 1,
                        ).contains(other) && start.sources[other].stream == stream)
                        &&& self@.sources.contains_key(other) ==> self@.sources[other]
                            == start.sources[other]
                    } by {
                    assert(before.sources.contains_key(other) <==> start.sources.contains_key(other)
                        && !(sources@.take(i as int).contains(other)
                        && start.sources[other].stream == stream));
                }
            }
        }
        proof {
            assert(sources@.take(sources@.len() as int) =~= sources@);
            assert forall|other: ScrollStream| #[trigger] self@.under_way(other) && other
                != stream implies feeds(self@.sources, other) by {
                assert(start.under_way(other));
                let source = choose|source: u64| #[trigger]
                    start.sources.contains_key(source) && start.sources[source].stream == other;
                assert(self@.sources.contains_key(source));
            }
        }
        let ghost between = self@;
        let frames = self.cancel_output(stream, math);
        proof {
            assert forall|other: ScrollStream|
                lifecycle(start.under_way(other), frames@, other) == Some(
                    #[trigger] self@.under_way(other),
                ) by {
                assert(between.under_way(other) == start.under_way(other));
            }
            assert forall|source: u64|
                {
                    &&& #[trigger] self@.sources.contains_key(source)
                        <==> start.sources.contains_key(source) && start.sources[source].stream
                        != stream
                    &&& self@.sources.contains_key(source) ==> self@.sources[source]
                        == start.sources[source]
                } by {
                assert(sources@.contains(source) <==> start.sources.contains_key(source));
                assert(between.sources.contains_key(source) == self@.sources.contains_key(source));
            }
        }
        frames
    }

    /// Drop every motion and cancel all output.
    pub fn cancel_all<M: ScrollMath<S>>(&mut self, math: &M) -> (frames: Vec<ScrollFrame<S>>)
        requires
            old(self).wf(),
        ensures
            final(self).wf(),
            final(self)@ == (EngineView::<S> {
                sources: Map::empty(),
                wheel: false,
                gesture: false,
            }),
            in_turn(old(self)@, frames@, final(self)@),
            forall|model: Model<S>| #[trigger]
                follows(math, model) ==> frames@ == cancelled(
                    model,
                    ScrollStream::Wheel,
                    old(self)@.wheel,
                ) + cancelled(model, ScrollStream::Gesture, old(self)@.gesture),
    {
        let ghost start = self@;
        self.active = HashMap::new();
        let mut frames = self.wheel_output.cancel(math);
        let mut more = self.gesture_output.cancel(math);
        proof {
            let between = start.with_output(ScrollStream::Wheel, false);
            assert(self@.sources =~= Map::empty());
            lemma_one_stream_in_turn(start, frames@, ScrollStream::Wheel, false, between.sources);
            assert(EngineView { sources: between.sources, ..between } == between);
            lemma_one_stream_in_turn(
                between,
                more@,
                ScrollStream::Gesture,
                false,
                Map::<u64, MotionView<S>>::empty(),
            );
            lemma_in_turn_continues(start, frames@, between, more@, self@);
        }
        frames.append(&mut more);
        frames
    }
}

/// An engine whose wheels are all idle has no output under way.
pub proof fn lemma_idle_engine_is_quiet<S>(engine: EngineView<S>)
    requires
        engine.valid(),
        forall|source: u64| !#[trigger] engine.sources.contains_key(source),
    ensures
        !engine.wheel,
        !engine.gesture,
{
    assert(engine.under_way(ScrollStream::Wheel) == engine.wheel);
    assert(engine.under_way(ScrollStream::Gesture) == engine.gesture);
}

/// Without `source`, a stream that another source feeds is still fed.
proof fn lemma_fed_without<S>(sources: Map<u64, MotionView<S>>, source: u64)
    ensures
        forall|stream: ScrollStream| #[trigger]
            feeds(sources, stream) && sources.contains_key(source) && sources[source].stream
                != stream ==> feeds(sources.remove(source), stream),
{
    assert forall|stream: ScrollStream| #[trigger]
        feeds(sources, stream) && sources.contains_key(source) && sources[source].stream
            != stream implies feeds(sources.remove(source), stream) by {
        let other = choose|other: u64| #[trigger]
            sources.contains_key(other) && sources[other].stream == stream;
        assert(sources.remove(source).contains_key(other));
    }
}

/// Where only `source` may have changed, a stream that another source feeds is
/// still fed.
proof fn lemma_fed_but<S>(
    sources: Map<u64, MotionView<S>>,
    after: Map<u64, MotionView<S>>,
    source: u64,
)
    requires
        forall|other: u64|
            other != source && #[trigger] sources.contains_key(other) ==> after.contains_key(other)
                && after[other] == sources[other],
    ensures
        forall|stream: ScrollStream| #[trigger]
            feeds(sources, stream) && sources.contains_key(source) && sources[source].stream
                != stream ==> feeds(after, stream),
{
    assert forall|stream: ScrollStream| #[trigger]
        feeds(sources, stream) && sources.contains_key(source) && sources[source].stream
            != stream implies feeds(after, stream) by {
        let other = choose|other: u64| #[trigger]
            sources.contains_key(other) && sources[other].stream == stream;
        assert(after.contains_key(other));
    }
}

/// With a new source, every stream that was fed is still fed.
proof fn lemma_fed_with<S>(sources: Map<u64, MotionView<S>>, source: u64, motion: MotionView<S>)
    requires
        !sources.contains_key(source),
    ensures
        forall|stream: ScrollStream| #[trigger]
            feeds(sources, stream) ==> feeds(sources.insert(source, motion), stream),
{
    assert forall|stream: ScrollStream| #[trigger] feeds(sources, stream) implies feeds(
        sources.insert(source, motion),
        stream,
    ) by {
        let other = choose|other: u64| #[trigger]
            sources.contains_key(other) && sources[other].stream == stream;
        assert(sources.insert(source, motion).contains_key(other));
    }
}

} // verus!
