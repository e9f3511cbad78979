//! Synthetic motion traces.

use openlogi::scroll::curve::{accel_gain, pulse_curve};
use openlogi::scroll::engine::ScrollEngine;
use openlogi::scroll::math::{ScrollDelta, ScrollMath, WheelDelta};
use openlogi::scroll::motion::{
    MotionTuning, ScrollStream, FRAME_INTERVAL, GESTURE_HOLD, MAX_PULSES,
};
use openlogi::scroll::output::{OutputStream, ScrollFrame, SmoothScrollPhase};
use openlogi::scroll::reversal::{Heading, ReversalCooldown, REVERSAL_COOLDOWN, REVERSAL_RECOVERY};
use openlogi::scroll::window::{RateWindow, ACCEL_WINDOW, ACCEL_WINDOW_MAX_TICKS};

const PULSE_AT_EIGHTH: f64 = 0.109_992_273_800_805;
const PULSE_AT_QUARTER: f64 = 0.379_833_339_323_793;
const PULSE_AT_HALF: f64 = 0.792_393_601_411_713;

const MILLI: u64 = 1_000_000;
const BASE: u64 = 1_000_000_000;

/// Wheel arithmetic in floating point.
struct Floats;

impl ScrollMath<f64> for Floats {
    fn zero(&self) -> f64 {
        0.0
    }

    fn is_zero(&self, a: f64) -> bool {
        a == 0.0
    }

    fn is_finite(&self, a: f64) -> bool {
        a.is_finite()
    }

    fn plus(&self, a: f64, b: f64) -> f64 {
        a + b
    }

    fn minus(&self, a: f64, b: f64) -> f64 {
        a - b
    }

    fn times(&self, a: f64, b: f64) -> f64 {
        a * b
    }

    fn over(&self, a: f64, b: f64) -> f64 {
        a / b
    }

    fn magnitude(&self, a: f64) -> f64 {
        a.abs()
    }

    fn exceeds(&self, a: f64, b: f64) -> bool {
        a > b
    }

    fn whole(&self, count: u64) -> f64 {
        count as f64
    }

    fn fraction(&self, part: u64, whole: u64) -> f64 {
        part as f64 / whole as f64
    }

    fn directed(&self, distance: f64, a: f64) -> f64 {
        a.signum() * distance
    }

    fn exponential(&self, a: f64) -> f64 {
        a.exp()
    }
}

const SOURCE: u64 = 1;

type Engine = ScrollEngine<f64>;

fn wheel(x: f64, y: f64) -> WheelDelta<f64> {
    WheelDelta { x, y }
}

fn tuning(step: f64, duration_ms: u64, max_gain: f64) -> MotionTuning<f64> {
    MotionTuning {
        step,
        duration: duration_ms * MILLI,
        max_gain,
        preaccelerated: false,
        hold: 0,
    }
}

fn neutral() -> MotionTuning<f64> {
    tuning(1.0, 100, 1.0)
}

fn tick(
    engine: &mut Engine,
    source: u64,
    impulse: WheelDelta<f64>,
    at: u64,
    tuning: MotionTuning<f64>,
    frames: &mut Vec<ScrollFrame<f64>>,
) {
    frames.extend(engine.impulse(source, ScrollStream::Wheel, impulse, at, tuning, &Floats));
}

fn advance(engine: &mut Engine, at: u64, frames: &mut Vec<ScrollFrame<f64>>) {
    frames.extend(engine.advance_due(at, &Floats));
}

fn cumulative(frames: &[ScrollFrame<f64>]) -> WheelDelta<f64> {
    frames
        .iter()
        .fold(wheel(0.0, 0.0), |sum, frame| sum.plus(frame.delta, &Floats))
}

fn assert_delta(actual: WheelDelta<f64>, expected: WheelDelta<f64>) {
    assert!(
        (actual.x - expected.x).abs() < 1.0e-9,
        "x: {} != {}",
        actual.x,
        expected.x
    );
    assert!(
        (actual.y - expected.y).abs() < 1.0e-9,
        "y: {} != {}",
        actual.y,
        expected.y
    );
}

fn count(frames: &[ScrollFrame<f64>], phase: SmoothScrollPhase) -> usize {
    frames.iter().filter(|frame| frame.phase == phase).count()
}

#[test]
fn synthetic_ratchet_tick_travels_step_distance_and_finishes_exactly() {
    let mut engine = Engine::new();
    let mut frames = Vec::new();
    tick(
        &mut engine,
        SOURCE,
        wheel(0.0, 1.0),
        BASE,
        tuning(3.0, 100, 1.0),
        &mut frames,
    );

    advance(&mut engine, BASE + 25 * MILLI, &mut frames);
    assert_delta(cumulative(&frames), wheel(0.0, 3.0 * PULSE_AT_QUARTER));

    advance(&mut engine, BASE + 50 * MILLI, &mut frames);
    assert_delta(cumulative(&frames), wheel(0.0, 3.0 * PULSE_AT_HALF));

    advance(&mut engine, BASE + 100 * MILLI, &mut frames);
    assert_delta(cumulative(&frames), wheel(0.0, 3.0));
    assert_eq!(
        frames.first().map(|frame| frame.phase),
        Some(SmoothScrollPhase::Began)
    );
    assert_eq!(
        frames.last().map(|frame| frame.phase),
        Some(SmoothScrollPhase::Ended)
    );
    assert!(engine.is_idle());
}

#[test]
fn synthetic_burst_superposes_and_conserves_scaled_input() {
    let mut engine = Engine::new();
    let mut frames = Vec::new();
    for (millis, delta) in [(0, 0.25), (10, 0.25), (20, 0.25)] {
        tick(
            &mut engine,
            SOURCE,
            wheel(0.0, delta),
            BASE + millis * MILLI,
            tuning(2.0, 100, 1.0),
            &mut frames,
        );
    }
    advance(&mut engine, BASE + 200 * MILLI, &mut frames);

    assert_delta(cumulative(&frames), wheel(0.0, 1.5));
    assert!(engine.is_idle());
}

#[test]
fn synthetic_fast_ticks_gain_amplitude_deterministically() {
    let mut engine = Engine::new();
    let mut frames = Vec::new();
    for millis in (0..=70).step_by(10) {
        tick(
            &mut engine,
            SOURCE,
            wheel(0.0, 1.0),
            BASE + millis * MILLI,
            tuning(1.0, 100, 7.0),
            &mut frames,
        );
    }
    advance(&mut engine, BASE + 300 * MILLI, &mut frames);

    assert_delta(cumulative(&frames), wheel(0.0, 169.0 / 14.0));
    assert!(engine.is_idle());
}

#[test]
fn synthetic_frame_interval_ticks_coalesce_and_cap_at_max_gain() {
    let mut engine = Engine::new();
    let mut frames = Vec::new();
    for index in 0..40 {
        tick(
            &mut engine,
            SOURCE,
            wheel(0.0, 1.0),
            BASE + index * 400_000,
            tuning(1.0, 100, 7.0),
            &mut frames,
        );
    }
    assert_eq!(
        engine.motion(SOURCE).expect("source is live").pulse_count(),
        2,
        "the 16 ms burst merges into one pulse per frame interval"
    );
    advance(&mut engine, BASE + 300 * MILLI, &mut frames);

    assert_delta(cumulative(&frames), wheel(0.0, 185.0));
    assert!(engine.is_idle());
}

#[test]
fn synthetic_reversal_superposes_and_conserves_net_input() {
    let mut engine = Engine::new();
    let mut frames = Vec::new();
    tick(&mut engine, SOURCE, wheel(0.0, 1.0), BASE, neutral(), &mut frames);
    tick(
        &mut engine,
        SOURCE,
        wheel(0.0, -1.5),
        BASE + 40 * MILLI,
        neutral(),
        &mut frames,
    );

    advance(&mut engine, BASE + 200 * MILLI, &mut frames);
    assert_delta(cumulative(&frames), wheel(0.0, -0.5));
    assert_eq!(
        frames.last().map(|frame| frame.phase),
        Some(SmoothScrollPhase::Ended)
    );
    assert!(engine.is_idle());
}

#[test]
fn synthetic_opposing_impulses_cancel_before_output() {
    let mut engine = Engine::new();
    let mut frames = Vec::new();
    tick(&mut engine, SOURCE, wheel(0.0, 1.0), BASE, neutral(), &mut frames);
    tick(&mut engine, SOURCE, wheel(0.0, -1.0), BASE, neutral(), &mut frames);

    assert!(frames.is_empty());
    assert!(engine.is_idle());
}

#[test]
fn synthetic_delayed_frames_use_absolute_time_not_frame_count() {
    let mut dense = Engine::new();
    let mut dense_frames = Vec::new();
    tick(
        &mut dense,
        SOURCE,
        wheel(0.0, 1.0),
        BASE,
        tuning(2.0, 100, 1.0),
        &mut dense_frames,
    );
    for millis in (8..=80).step_by(8) {
        advance(&mut dense, BASE + millis * MILLI, &mut dense_frames);
    }

    let mut delayed = Engine::new();
    let mut delayed_frames = Vec::new();
    tick(
        &mut delayed,
        SOURCE,
        wheel(0.0, 1.0),
        BASE,
        tuning(2.0, 100, 1.0),
        &mut delayed_frames,
    );
    advance(&mut delayed, BASE + 80 * MILLI, &mut delayed_frames);
    assert_delta(cumulative(&dense_frames), cumulative(&delayed_frames));

    advance(&mut dense, BASE + 150 * MILLI, &mut dense_frames);
    advance(&mut delayed, BASE + 150 * MILLI, &mut delayed_frames);
    assert_delta(cumulative(&dense_frames), wheel(0.0, 2.0));
    assert_delta(cumulative(&delayed_frames), wheel(0.0, 2.0));
}

#[test]
fn synthetic_sparse_impulses_form_separate_finite_pulses() {
    let mut engine = Engine::new();
    let mut frames = Vec::new();
    tick(&mut engine, SOURCE, wheel(0.0, 1.0), BASE, neutral(), &mut frames);
    advance(&mut engine, BASE + 100 * MILLI, &mut frames);
    assert!(engine.is_idle());

    tick(
        &mut engine,
        SOURCE,
        wheel(0.0, 2.0),
        BASE + 300 * MILLI,
        neutral(),
        &mut frames,
    );
    advance(&mut engine, BASE + 400 * MILLI, &mut frames);
    assert_delta(cumulative(&frames), wheel(0.0, 3.0));
    assert!(engine.is_idle());
}

#[test]
fn only_finite_nonzero_wheel_ticks_enter_the_model() {
    let try_from = |delta| WheelDelta::try_from(delta, &Floats);
    assert_eq!(
        try_from(ScrollDelta::WheelTicks { x: 0.25, y: -1.0 }),
        Ok(wheel(0.25, -1.0))
    );
    try_from(ScrollDelta::Pixels { x: 0.0, y: 1.0 }).unwrap_err();
    try_from(ScrollDelta::WheelTicks { x: 0.0, y: 0.0 }).unwrap_err();
    try_from(ScrollDelta::WheelTicks {
        x: f64::NAN,
        y: 1.0,
    })
    .unwrap_err();
}

#[test]
fn cancellation_emits_one_terminal_phase_only_after_output_began() {
    let mut engine = Engine::new();
    let mut frames = Vec::new();
    tick(&mut engine, SOURCE, wheel(1.0, 0.0), BASE, neutral(), &mut frames);
    frames.extend(engine.cancel_all(&Floats));
    assert!(frames.is_empty());

    tick(&mut engine, SOURCE, wheel(1.0, 0.0), BASE, neutral(), &mut frames);
    advance(&mut engine, BASE + 25 * MILLI, &mut frames);
    frames.extend(engine.cancel_all(&Floats));
    assert_eq!(
        frames.last().map(|frame| frame.phase),
        Some(SmoothScrollPhase::Cancelled)
    );
    assert_delta(cumulative(&frames), wheel(PULSE_AT_QUARTER, 0.0));
}

#[test]
fn concurrent_sources_share_one_balanced_output_stream() {
    let mut engine = Engine::new();
    let mut frames = Vec::new();
    tick(&mut engine, 1, wheel(1.0, 0.0), BASE, neutral(), &mut frames);
    tick(&mut engine, 2, wheel(0.0, 1.0), BASE, neutral(), &mut frames);
    advance(&mut engine, BASE + 25 * MILLI, &mut frames);
    advance(&mut engine, BASE + 100 * MILLI, &mut frames);

    assert_delta(cumulative(&frames), wheel(1.0, 1.0));
    assert_eq!(count(&frames, SmoothScrollPhase::Began), 1);
    assert_eq!(count(&frames, SmoothScrollPhase::Ended), 1);
    assert_eq!(count(&frames, SmoothScrollPhase::Cancelled), 0);
    assert!(engine.is_idle());
}

#[test]
fn source_cancellation_does_not_interrupt_another_source() {
    let mut engine = Engine::new();
    let mut frames = Vec::new();
    tick(&mut engine, 1, wheel(1.0, 0.0), BASE, neutral(), &mut Vec::new());
    tick(&mut engine, 2, wheel(0.0, 1.0), BASE, neutral(), &mut Vec::new());
    advance(&mut engine, BASE + 25 * MILLI, &mut frames);

    frames.extend(engine.cancel_source(1, &Floats));
    assert!(!engine.contains(1));
    assert!(engine.contains(2));
    assert_eq!(
        count(&frames, SmoothScrollPhase::Cancelled),
        0,
        "a source-local cancellation cannot terminate the shared output stream"
    );

    advance(&mut engine, BASE + 100 * MILLI, &mut frames);
    assert!(engine.is_idle());
    assert_eq!(
        count(&frames, SmoothScrollPhase::Ended),
        1,
        "the other device completes normally"
    );
}

#[test]
fn same_sign_input_never_emits_an_opposing_frame() {
    let mut engine = Engine::new();
    let mut frames = Vec::new();
    for millis in [0, 10, 20, 50] {
        tick(
            &mut engine,
            SOURCE,
            wheel(0.0, 1.0),
            BASE + millis * MILLI,
            tuning(3.0, 360, 7.0),
            &mut frames,
        );
    }
    for millis in (8..=600).step_by(8) {
        advance(&mut engine, BASE + millis * MILLI, &mut frames);
    }

    assert!(frames.iter().all(|frame| frame.delta.y >= 0.0));
    assert_delta(cumulative(&frames), wheel(0.0, 3.0 * 4.5));
    assert!(engine.is_idle());
}

#[test]
fn free_spin_burst_keeps_the_pulse_count_bounded() {
    let mut engine = Engine::new();
    let mut frames = Vec::new();
    let long_glide = tuning(1.0, 1000, 1.0);
    for millis in 0..600 {
        tick(
            &mut engine,
            SOURCE,
            wheel(0.0, 0.1),
            BASE + millis * MILLI,
            long_glide,
            &mut frames,
        );
    }
    let pulses = engine.motion(SOURCE).map_or(0, |motion| motion.pulse_count());
    assert!(pulses <= MAX_PULSES, "{pulses} pulses exceed the bound");

    advance(&mut engine, BASE + 2000 * MILLI, &mut frames);
    assert_delta(cumulative(&frames), wheel(0.0, 60.0));
    assert!(engine.is_idle());
}

#[test]
fn a_tick_merged_past_the_pulse_cap_keeps_its_own_duration() {
    let mut engine = Engine::new();
    let mut frames = Vec::new();
    let long_glide = tuning(1.0, 1000, 1.0);
    for millis in (0..=512).step_by(8) {
        tick(
            &mut engine,
            SOURCE,
            wheel(0.0, 0.1),
            BASE + millis * MILLI,
            long_glide,
            &mut frames,
        );
    }
    let motion = engine.motion(SOURCE).expect("source is live");
    assert_eq!(motion.pulse_count(), MAX_PULSES);
    let before = cumulative(&frames);
    tick(
        &mut engine,
        SOURCE,
        wheel(0.0, 10.0),
        BASE + 900 * MILLI,
        long_glide,
        &mut frames,
    );
    let motion = engine.motion(SOURCE).expect("source is live");
    assert_eq!(motion.pulse_count(), MAX_PULSES);
    assert_eq!(motion.ends_at(), Some(BASE + 1900 * MILLI));
    let at_arrival = cumulative(&frames).minus(before, &Floats);
    assert!(at_arrival.y < 10.0 * 0.5, "{} jumped ahead", at_arrival.y);

    advance(&mut engine, BASE + 2000 * MILLI, &mut frames);
    assert_delta(cumulative(&frames), wheel(0.0, 65.0 * 0.1 + 10.0));
    assert!(engine.is_idle());
}

#[test]
fn a_live_duration_change_applies_to_a_tick_merged_within_the_frame() {
    let mut engine = Engine::new();
    let mut frames = Vec::new();
    tick(&mut engine, SOURCE, wheel(0.0, 1.0), BASE, neutral(), &mut frames);
    tick(
        &mut engine,
        SOURCE,
        wheel(0.0, 1.0),
        BASE + 4 * MILLI,
        tuning(1.0, 500, 1.0),
        &mut frames,
    );
    let motion = engine.motion(SOURCE).expect("source is live");
    assert_eq!(motion.pulse_count(), 1);
    assert_eq!(motion.ends_at(), Some(BASE + 504 * MILLI));

    advance(&mut engine, BASE + 600 * MILLI, &mut frames);
    assert_delta(cumulative(&frames), wheel(0.0, 2.0));
    assert!(engine.is_idle());
}

#[test]
fn acceleration_windows_are_kept_per_axis() {
    let mut engine = Engine::new();
    let mut frames = Vec::new();
    for millis in (0..=70).step_by(10) {
        tick(
            &mut engine,
            SOURCE,
            wheel(0.0, 1.0),
            BASE + millis * MILLI,
            tuning(1.0, 100, 7.0),
            &mut frames,
        );
    }
    tick(
        &mut engine,
        SOURCE,
        wheel(1.0, 0.0),
        BASE + 72 * MILLI,
        tuning(1.0, 100, 7.0),
        &mut frames,
    );
    advance(&mut engine, BASE + 300 * MILLI, &mut frames);
    assert_delta(cumulative(&frames), wheel(1.0, 169.0 / 14.0));
    assert!(engine.is_idle());
}

#[test]
fn the_next_deadline_is_the_earliest_frame() {
    let mut engine = Engine::new();
    assert_eq!(engine.next_deadline(), None);
    tick(&mut engine, 1, wheel(1.0, 0.0), BASE + 5 * MILLI, neutral(), &mut Vec::new());
    tick(&mut engine, 2, wheel(1.0, 0.0), BASE, neutral(), &mut Vec::new());
    assert_eq!(engine.next_deadline(), Some(BASE + FRAME_INTERVAL));
    advance(&mut engine, BASE + 8 * MILLI, &mut Vec::new());
    assert_eq!(engine.next_deadline(), Some(BASE + 13 * MILLI));
    advance(&mut engine, BASE + 30 * MILLI, &mut Vec::new());
    assert_eq!(
        engine.next_deadline(),
        Some(BASE + 32 * MILLI),
        "the cadence is kept over a late wake"
    );
}

#[test]
fn a_gesture_stays_open_through_its_hold() {
    let mut engine = Engine::new();
    let tuning = MotionTuning::direct_gesture(1.0);
    assert_eq!(tuning.hold, GESTURE_HOLD);
    let mut frames =
        engine.impulse(SOURCE, ScrollStream::Gesture, wheel(1.0, 0.0), BASE, tuning, &Floats);
    advance(&mut engine, BASE + 8 * MILLI, &mut frames);
    assert_delta(cumulative(&frames), wheel(1.0, 0.0));
    assert_eq!(count(&frames, SmoothScrollPhase::Began), 1);
    advance(&mut engine, BASE + 100 * MILLI, &mut frames);
    assert_eq!(frames.len(), 1, "held open without a frame");
    advance(&mut engine, BASE + 150 * MILLI, &mut frames);
    assert_eq!(
        frames.last().map(|frame| (frame.stream, frame.phase)),
        Some((ScrollStream::Gesture, SmoothScrollPhase::Ended))
    );
    assert!(engine.is_idle());
    assert_eq!(MotionTuning::<f64>::hold_for(ScrollStream::Wheel), 0);
    assert_eq!(
        MotionTuning::<f64>::hold_for(ScrollStream::Gesture),
        GESTURE_HOLD
    );
}

#[test]
fn a_source_that_changes_streams_closes_its_old_output() {
    let mut engine = Engine::new();
    let mut frames = Vec::new();
    tick(&mut engine, SOURCE, wheel(1.0, 0.0), BASE, neutral(), &mut frames);
    advance(&mut engine, BASE + 25 * MILLI, &mut frames);
    let closing = engine.impulse(
        SOURCE,
        ScrollStream::Gesture,
        wheel(1.0, 0.0),
        BASE + 30 * MILLI,
        neutral(),
        &Floats,
    );
    assert_eq!(
        closing,
        vec![ScrollFrame {
            stream: ScrollStream::Wheel,
            delta: wheel(0.0, 0.0),
            phase: SmoothScrollPhase::Cancelled
        }]
    );
    assert!(engine.has_active(ScrollStream::Gesture));
    assert!(!engine.has_active(ScrollStream::Wheel));
}

#[test]
fn cancelling_a_stream_spares_the_other() {
    let mut engine = Engine::new();
    let mut frames = Vec::new();
    tick(&mut engine, 1, wheel(1.0, 0.0), BASE, neutral(), &mut frames);
    frames.extend(engine.impulse(
        2,
        ScrollStream::Gesture,
        wheel(1.0, 0.0),
        BASE,
        neutral(),
        &Floats,
    ));
    advance(&mut engine, BASE + 25 * MILLI, &mut frames);
    assert_eq!(count(&frames, SmoothScrollPhase::Began), 2);
    let cancelled = engine.cancel_stream(ScrollStream::Gesture, &Floats);
    assert_eq!(cancelled.len(), 1);
    assert_eq!(cancelled[0].stream, ScrollStream::Gesture);
    assert!(engine.contains(1));
    assert!(!engine.contains(2));
}

#[test]
fn an_output_that_never_began_begins_and_ends_at_once() {
    let mut output = OutputStream::new(ScrollStream::Wheel);
    assert!(output.finish(wheel(0.0, 0.0), &Floats).is_empty());
    let frames = output.finish(wheel(1.0, 0.0), &Floats);
    assert_eq!(
        frames
            .iter()
            .map(|frame| (frame.delta, frame.phase))
            .collect::<Vec<_>>(),
        vec![
            (wheel(1.0, 0.0), SmoothScrollPhase::Began),
            (wheel(0.0, 0.0), SmoothScrollPhase::Ended),
        ]
    );
    assert!(output.progress(wheel(0.0, 0.0), &Floats).is_empty());
    assert_eq!(
        output.progress(wheel(1.0, 0.0), &Floats)[0].phase,
        SmoothScrollPhase::Began
    );
    assert_eq!(
        output.progress(wheel(1.0, 0.0), &Floats)[0].phase,
        SmoothScrollPhase::Changed
    );
}

#[test]
fn a_quick_reversal_starts_cold() {
    let mut cooldown = ReversalCooldown::default();
    assert_eq!(cooldown.attenuate(0.0, BASE, &Floats), 0.0);
    assert_eq!(cooldown.heading, Heading::Rest);
    assert_eq!(cooldown.attenuate(8.0, BASE, &Floats), 8.0);
    let reversed = cooldown.attenuate(-8.0, BASE + 100 * MILLI, &Floats);
    assert_eq!(reversed, -2.0, "a quarter of the cooldown has passed");
    assert_eq!(cooldown.heading, Heading::Backward, "enough to commit");
    let recovering = cooldown.attenuate(-8.0, BASE + 400 * MILLI, &Floats);
    let compressed = 3.0 + 5.0 / 4.0;
    let expected = -(compressed + (8.0 - compressed) * 0.15);
    assert!((recovering - expected).abs() < 1.0e-9);
    assert_eq!(
        cooldown.attenuate(-8.0, BASE + 100 * MILLI + REVERSAL_RECOVERY, &Floats),
        -8.0,
        "a sustained reversal recovers"
    );
}

#[test]
fn jitter_below_the_commitment_leaves_the_direction_alone() {
    let mut cooldown = ReversalCooldown::default();
    cooldown.attenuate(1.0, BASE, &Floats);
    assert_eq!(cooldown.attenuate(-0.2, BASE + 200 * MILLI, &Floats), -0.1);
    assert_eq!(cooldown.attenuate(-0.2, BASE + 400 * MILLI, &Floats), -0.2);
    assert_eq!(cooldown.heading, Heading::Forward);
    assert_eq!(cooldown.attenuate(1.0, BASE + 410 * MILLI, &Floats), 1.0);
    assert!(cooldown.flip.is_none());
}

#[test]
fn pre_accelerated_input_is_cooled_in_the_engine() {
    let mut engine = Engine::new();
    let mut frames = Vec::new();
    let hot = MotionTuning {
        preaccelerated: true,
        ..neutral()
    };
    tick(&mut engine, SOURCE, wheel(0.0, 1.0), BASE, hot, &mut frames);
    tick(
        &mut engine,
        SOURCE,
        wheel(0.0, -1.0),
        BASE + 40 * MILLI,
        hot,
        &mut frames,
    );
    advance(&mut engine, BASE + 200 * MILLI, &mut frames);
    assert_delta(cumulative(&frames), wheel(0.0, 1.0 - 0.1));
}

#[test]
fn the_rate_window_forgets_and_is_bounded() {
    let mut window = RateWindow::new();
    for index in 0..200 {
        window.record(BASE + index, 1.0);
    }
    assert_eq!(window.distance(&Floats), ACCEL_WINDOW_MAX_TICKS as f64);
    window.record(BASE + 199 + ACCEL_WINDOW, 2.0);
    assert_eq!(window.distance(&Floats), 3.0, "a tick of just that age stays");
    window.record(BASE + 200 + ACCEL_WINDOW, 4.0);
    assert_eq!(window.distance(&Floats), 6.0);
}

#[test]
fn a_vertical_scale_must_stay_finite() {
    assert_eq!(
        wheel(1.0, 2.0).with_vertical_scale(3.0, &Floats),
        Some(wheel(1.0, 6.0))
    );
    assert_eq!(
        wheel(1.0, f64::MAX).with_vertical_scale(2.0, &Floats),
        None
    );
    assert_eq!(wheel(1.0, 2.0).scale(2.0, &Floats), wheel(2.0, 4.0));
}

#[test]
fn frames_of_several_wheels_add_up_to_their_ticks() {
    for frame_times in [vec![9, 17, 40, 300], vec![300], (1..60).map(|n| n * 5).collect()] {
        let mut engine = Engine::new();
        let mut frames = Vec::new();
        tick(&mut engine, 1, wheel(0.0, 1.0), BASE, neutral(), &mut frames);
        tick(&mut engine, 2, wheel(2.0, -0.5), BASE + MILLI, neutral(), &mut frames);
        tick(
            &mut engine,
            1,
            wheel(0.0, 1.0),
            BASE + 2 * MILLI,
            tuning(3.0, 50, 1.0),
            &mut frames,
        );
        for time in frame_times {
            advance(&mut engine, BASE + time * MILLI, &mut frames);
        }
        advance(&mut engine, BASE + 400 * MILLI, &mut frames);
        assert_delta(cumulative(&frames), wheel(2.0, 3.5));
        assert!(engine.is_idle());
        assert_eq!(
            frames.last().map(|frame| frame.phase),
            Some(SmoothScrollPhase::Ended)
        );
    }
}

#[test]
fn what_a_due_frame_has_shown_does_not_depend_on_the_frames_before() {
    let mut shown = Vec::new();
    for earlier in [vec![], vec![20], vec![9, 18, 27, 36]] {
        let mut engine = Engine::new();
        let mut frames = Vec::new();
        tick(&mut engine, SOURCE, wheel(0.0, 1.0), BASE, neutral(), &mut frames);
        for time in earlier {
            advance(&mut engine, BASE + time * MILLI, &mut frames);
        }
        advance(&mut engine, BASE + 50 * MILLI, &mut frames);
        shown.push(cumulative(&frames));
    }
    for delta in shown {
        assert_delta(delta, wheel(0.0, PULSE_AT_HALF));
    }
}

#[test]
fn the_next_frame_is_never_more_than_a_frame_away() {
    let mut engine = Engine::new();
    let mut frames = Vec::new();
    tick(&mut engine, SOURCE, wheel(0.0, 1.0), BASE, neutral(), &mut frames);
    for time in [8, 21, 22, 50, 99] {
        let at = BASE + time * MILLI;
        advance(&mut engine, at, &mut frames);
        let next = engine.next_deadline().unwrap_or(at);
        assert!(next > at && next <= at + FRAME_INTERVAL);
    }
    advance(&mut engine, BASE + 100 * MILLI, &mut frames);
    assert_eq!(engine.next_deadline(), None);
}

#[test]
fn a_small_leisurely_reversal_is_untouched_and_a_large_one_compressed() {
    let mut reversal = ReversalCooldown::default();
    assert_eq!(reversal.attenuate(5.0, BASE, &Floats), 5.0);
    let late = BASE + REVERSAL_COOLDOWN;
    assert_eq!(reversal.attenuate(-2.5, late, &Floats), -2.5);
    let mut reversal = ReversalCooldown::default();
    reversal.attenuate(5.0, BASE, &Floats);
    // 3 + (7 - 3) / 4
    assert_eq!(reversal.attenuate(-7.0, late, &Floats), -4.0);
    // half of the recovery gives half of the rest back
    let half = late + REVERSAL_RECOVERY / 2;
    assert_eq!(reversal.attenuate(-7.0, half, &Floats), -5.5);
}

#[test]
fn several_jitters_below_the_commitment_leave_the_direction_alone() {
    let mut reversal = ReversalCooldown::default();
    reversal.attenuate(1.0, BASE, &Floats);
    for n in 1..4 {
        let at = BASE + n * MILLI;
        let cooled = reversal.attenuate(-0.125, at, &Floats);
        assert!((-0.125..=0.0).contains(&cooled));
        assert_eq!(reversal.heading, Heading::Forward);
    }
    assert_eq!(reversal.attenuate(9.0, BASE + 9 * MILLI, &Floats), 9.0);
    assert!(reversal.flip.is_none());
}

fn pulse(progress: f64) -> f64 {
    pulse_curve(progress, &Floats)
}

#[test]
fn pulse_curve_is_normalized_clamped_and_monotone() {
    assert!(pulse(-1.0).abs() < f64::EPSILON);
    assert!(pulse(0.0).abs() < f64::EPSILON);
    assert!((pulse(1.0) - 1.0).abs() < f64::EPSILON);
    assert!((pulse(2.0) - 1.0).abs() < f64::EPSILON);
    assert!((pulse(0.125) - PULSE_AT_EIGHTH).abs() < 1.0e-9);
    assert!((pulse(0.25) - PULSE_AT_QUARTER).abs() < 1.0e-9);
    assert!((pulse(0.5) - PULSE_AT_HALF).abs() < 1.0e-9);

    let mut previous = 0.0;
    for sample in 1..=100 {
        let value = pulse(f64::from(sample) / 100.0);
        assert!(value > previous, "curve dips at sample {sample}");
        previous = value;
    }
}

fn gain(window_ticks: f64, max_gain: f64) -> f64 {
    accel_gain(window_ticks, max_gain, &Floats)
}

#[test]
fn accel_gain_follows_the_published_curve() {
    // A notched wheel at one tick per `dt` ms fills the window with `70/dt`
    // ticks, reproducing the classic per-interval fixtures.
    assert!((gain(7.0, 7.0) - 2.0).abs() < f64::EPSILON, "dt 10 ms");
    assert!((gain(14.0, 7.0) - 3.5).abs() < f64::EPSILON, "dt 5 ms");
    assert!((gain(3.5, 7.0) - 1.25).abs() < f64::EPSILON, "dt 20 ms");
    assert!(
        (gain(70.0 / 30.0, 7.0) - 1.0).abs() < f64::EPSILON,
        "dt 30 ms is the neutral rate"
    );
    assert!(
        (gain(1.0, 7.0) - 1.0).abs() < f64::EPSILON,
        "a lone tick never gains"
    );
    assert!(
        (gain(0.0, 7.0) - 1.0).abs() < f64::EPSILON,
        "an empty window never gains"
    );
    assert!((gain(70.0, 7.0) - 7.0).abs() < f64::EPSILON, "cap binds");
    assert!(
        (gain(70.0, 1.0) - 1.0).abs() < f64::EPSILON,
        "max_gain 1 disables acceleration"
    );
}

#[test]
fn half_a_tick_turns_a_wheel_around() {
    let mut reversal = ReversalCooldown::default();
    reversal.attenuate(1.0, BASE, &Floats);
    reversal.attenuate(-0.25, BASE + MILLI, &Floats);
    assert_eq!(reversal.heading, Heading::Forward);
    reversal.attenuate(-0.25, BASE + 2 * MILLI, &Floats);
    assert_eq!(reversal.heading, Heading::Backward);
}

#[test]
fn a_tick_past_the_knee_keeps_a_quarter_of_what_is_past_it() {
    let mut reversal = ReversalCooldown::default();
    reversal.attenuate(1.0, BASE, &Floats);
    assert_eq!(
        reversal.attenuate(-7.0, BASE + REVERSAL_COOLDOWN, &Floats),
        -4.0
    );
}

#[test]
fn wheels_turned_one_way_scroll_one_way() {
    let mut engine = Engine::new();
    let mut frames = Vec::new();
    let fast = tuning(2.0, 120, 7.0);
    let hot = MotionTuning {
        preaccelerated: true,
        ..fast
    };
    for n in 0..40 {
        let at = BASE + n * 11 * MILLI;
        tick(&mut engine, n % 3, wheel(0.0, -1.0), at, if n % 2 == 0 { fast } else { hot }, &mut frames);
        advance(&mut engine, at + (n % 5) * MILLI, &mut frames);
    }
    advance(&mut engine, BASE + 900 * MILLI, &mut frames);
    assert!(frames.len() > 40);
    assert!(frames.iter().all(|frame| frame.delta.y <= 0.0));
}
