//! What is configured is what is written: nothing is left out, and nothing
//! else is touched.

use crate::hardware::{
    came_to, settles, volatile_writes, write_of, DeviceWrite, Lighting, ScrollResolution,
    ScrollWheelModeChange, Skipped, SmartShiftApply, WriteError, WriteReport, WriteRequest,
};
use crate::haptics::HapticFeatureCache;
use vstd::prelude::*;

verus! {

/// The direction that a write gives a wheel.
pub open spec fn inversion_set(write: DeviceWrite) -> Option<bool> {
    match write {
        DeviceWrite::WheelMode(ScrollWheelModeChange::Inversion(inverted)) => Some(inverted),
        DeviceWrite::WheelMode(
            ScrollWheelModeChange::ResolutionAndInversion { inverted, .. },
        ) => Some(inverted),
        _ => None,
    }
}

/// The resolution that a write gives a wheel.
pub open spec fn resolution_set(write: DeviceWrite) -> Option<ScrollResolution> {
    match write {
        DeviceWrite::WheelMode(ScrollWheelModeChange::Resolution(resolution)) => Some(resolution),
        DeviceWrite::WheelMode(
            ScrollWheelModeChange::ResolutionAndInversion { resolution, .. },
        ) => Some(resolution),
        _ => None,
    }
}

/// Whether the writes set the wheel's direction.
pub open spec fn sets_inversion(writes: Seq<DeviceWrite>, inverted: bool) -> bool {
    exists|i: int| 0 <= i < writes.len() && inversion_set(#[trigger] writes[i]) == Some(inverted)
}

/// Whether the writes set the wheel's resolution.
pub open spec fn sets_resolution(writes: Seq<DeviceWrite>, resolution: ScrollResolution) -> bool {
    exists|i: int|
        0 <= i < writes.len() && resolution_set(#[trigger] writes[i]) == Some(resolution)
}

/// Every volatile setting that is configured is put back, and only to the
/// value that is configured, whichever others are: the wheel's direction and
/// resolution, the sensor's resolution where it fits the wire, and the wheel's
/// shift. No other write is made.
pub proof fn lemma_every_volatile_setting_is_put_back(
    resolution: Option<ScrollResolution>,
    inverted: Option<bool>,
    dpi: Option<u32>,
    smartshift: Option<SmartShiftApply>,
)
    ensures
        ({
            let writes = volatile_writes(resolution, inverted, dpi, smartshift);
            &&& forall|value: bool| #[trigger]
                sets_inversion(writes, value) <==> inverted == Some(value)
            &&& forall|value: ScrollResolution| #[trigger]
                sets_resolution(writes, value) <==> resolution == Some(value)
            &&& forall|value: u16| #[trigger]
                writes.contains(DeviceWrite::Dpi(value)) <==> (dpi matches Some(dpi) && dpi
                    == value)
            &&& forall|value: SmartShiftApply| #[trigger]
                writes.contains(DeviceWrite::SmartShift(value)) <==> smartshift == Some(value)
            &&& forall|i: int|
                0 <= i < writes.len() ==> {
                    ||| #[trigger] writes[i] is WheelMode
                    ||| writes[i] is Dpi
                    ||| writes[i] is SmartShift
                }
        }),
{
    let writes = volatile_writes(resolution, inverted, dpi, smartshift);
    let wheel: int = if resolution is Some || inverted is Some {
        1
    } else {
        0
    };
    let sensor: int = if dpi is Some && dpi->0 <= u16::MAX {
        1
    } else {
        0
    };
    assert(wheel == 1 ==> writes[0] is WheelMode && inversion_set(writes[0]) == inverted
        && resolution_set(writes[0]) == resolution);
    assert(sensor == 1 ==> writes[wheel] == DeviceWrite::Dpi(dpi->0 as u16));
    assert(smartshift is Some ==> writes[wheel + sensor] == DeviceWrite::SmartShift(
        smartshift->0,
    ));
    assert forall|i: int| 0 <= i < writes.len() implies {
        &&& #[trigger] writes[i] is WheelMode <==> i < wheel
        &&& writes[i] is Dpi <==> wheel <= i < wheel + sensor
        &&& writes[i] is SmartShift <==> i == wheel + sensor
    } by {}
    assert forall|value: bool| #[trigger] sets_inversion(writes, value) <==> inverted == Some(
        value,
    ) by {
        if inverted == Some(value) {
            assert(inversion_set(writes[0]) == Some(value));
        }
    }
    assert forall|value: ScrollResolution| #[trigger]
        sets_resolution(writes, value) <==> resolution == Some(value) by {
        if resolution == Some(value) {
            assert(resolution_set(writes[0]) == Some(value));
        }
    }
}

/// The settings are put back one after the other, the wheel's mode first and
/// its shift last, each in one write.
pub proof fn lemma_volatile_settings_are_put_back_in_order(
    resolution: Option<ScrollResolution>,
    inverted: Option<bool>,
    dpi: Option<u32>,
    smartshift: Option<SmartShiftApply>,
    i: int,
    k: int,
)
    requires
        0 <= i < k < volatile_writes(resolution, inverted, dpi, smartshift).len(),
    ensures
        ({
            let writes = volatile_writes(resolution, inverted, dpi, smartshift);
            &&& !(writes[k] is WheelMode)
            &&& !(writes[i] is SmartShift)
        }),
{
}

/// What one setting is put back to does not depend on the others.
pub proof fn lemma_volatile_settings_are_independent(
    resolution: Option<ScrollResolution>,
    inverted: Option<bool>,
    dpi: Option<u32>,
    smartshift: Option<SmartShiftApply>,
    other_resolution: Option<ScrollResolution>,
    other_dpi: Option<u32>,
    other_smartshift: Option<SmartShiftApply>,
    value: bool,
)
    ensures
        sets_inversion(volatile_writes(resolution, inverted, dpi, smartshift), value)
            == sets_inversion(
            volatile_writes(other_resolution, inverted, other_dpi, other_smartshift),
            value,
        ),
{
    lemma_every_volatile_setting_is_put_back(resolution, inverted, dpi, smartshift);
    lemma_every_volatile_setting_is_put_back(
        other_resolution,
        inverted,
        other_dpi,
        other_smartshift,
    );
}

/// A request for the wheel's mode writes exactly what is configured of it, in
/// one write, and nothing where nothing is.
pub proof fn lemma_wheel_request_writes_what_is_configured(
    resolution: Option<ScrollResolution>,
    inverted: Option<bool>,
)
    ensures
        ({
            let write = write_of(WriteRequest::WheelMode { resolution, inverted });
            &&& write is Ok <==> resolution is Some || inverted is Some
            &&& write matches Ok(write) ==> write is WheelMode && resolution_set(write)
                == resolution && inversion_set(write) == inverted
            &&& write matches Err(skipped) ==> skipped == Skipped::NothingConfigured
        }),
{
}

/// A single request writes what it names: a resolution as it is or not at all,
/// and every other setting as it is.
pub proof fn lemma_request_writes_what_it_names(dpi: u32, apply: SmartShiftApply, on: bool)
    ensures
        write_of(WriteRequest::Dpi(dpi)) matches Ok(write) ==> (write matches DeviceWrite::Dpi(wire)
            && wire == dpi),
        write_of(WriteRequest::Dpi(dpi)) is Ok <==> dpi <= 0xffff,
        write_of(WriteRequest::Dpi(dpi)) matches Err(skipped) ==> skipped == Skipped::OutOfRange,
        write_of(WriteRequest::SmartShift(apply)) == Ok::<DeviceWrite, Skipped>(
            DeviceWrite::SmartShift(apply),
        ),
        write_of(WriteRequest::FnLock(on)) == Ok::<DeviceWrite, Skipped>(DeviceWrite::FnLock(on)),
        write_of(WriteRequest::ToggleSmartShift) == Ok::<DeviceWrite, Skipped>(
            DeviceWrite::ToggleSmartShift,
        ),
{
}

/// Whether `scaled` is `component` at `brightness` percent, rounded down; past
/// the brightest the component stays as it is.
pub open spec fn is_dimmed(component: u8, brightness: u8, scaled: u8) -> bool {
    if component * brightness < 256 * 100 {
        scaled * 100 <= component * brightness < (scaled + 1) * 100
    } else {
        scaled == component
    }
}

/// Lighting that is on is written component by component at its brightness,
/// whatever the other components are; lighting that is off is written black.
pub proof fn lemma_lighting_is_written_as_configured(lighting: Lighting)
    ensures
        write_of(WriteRequest::Lighting(lighting)) matches Ok(DeviceWrite::Color {
            red,
            green,
            blue,
        }) && {
            &&& !lighting.enabled ==> red == 0 && green == 0 && blue == 0
            &&& lighting.enabled ==> {
                &&& is_dimmed(lighting.red, lighting.brightness, red)
                &&& is_dimmed(lighting.green, lighting.brightness, green)
                &&& is_dimmed(lighting.blue, lighting.brightness, blue)
            }
        },
{
    lemma_product_fits(lighting.red, lighting.brightness);
    lemma_product_fits(lighting.green, lighting.brightness);
    lemma_product_fits(lighting.blue, lighting.brightness);
}

proof fn lemma_product_fits(component: u8, brightness: u8)
    ensures
        0 <= component * brightness <= 255 * 255,
{
    assert(0 <= component * brightness <= 255 * 255) by (nonlinear_arith)
        requires
            component <= 255,
            brightness <= 255,
    ;
}

/// A write has come to something exactly where the device said so; one that
/// was cut off is told from one that failed; and a device that lacks a feature
/// is only to be expected where the wheel's mode was written.
pub proof fn lemma_reports_tell_outcomes_apart(
    write: DeviceWrite,
    outcome: Option<Result<(), WriteError>>,
)
    ensures
        came_to(write, outcome) == WriteReport::Written <==> (outcome matches Some(result)
            && result is Ok),
        came_to(write, outcome) == WriteReport::TimedOut <==> outcome is None,
        came_to(write, outcome) is Unsupported <==> write is WheelMode && (outcome matches Some(
            Err(error),
        ) && error is FeatureUnsupported),
        came_to(write, outcome) matches WriteReport::Unsupported { feature_hex } ==> outcome
            == Some(Err::<(), WriteError>(WriteError::FeatureUnsupported { feature_hex })),
{
}

/// A channel that was found is the one that is used, and leaves the haptic
/// handle alone. Without one nothing is written, and the handle is let go.
pub proof fn lemma_a_found_channel_is_used<T, F>(
    found: Option<T>,
    channel: Result<T, WriteError>,
    before: HapticFeatureCache<F>,
    after: HapticFeatureCache<F>,
)
    requires
        settles(found, channel, before, after),
    ensures
        channel is Ok <==> found is Some,
        found is Some ==> channel->Ok_0 == found->0 && after == before,
        found is None ==> channel->Err_0 == WriteError::DeviceNotFound && after.cached is None,
{
}

} // verus!
