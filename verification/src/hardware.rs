//! Writes to devices: which channel they go over, what exactly is written, and
//! what becomes of the outcome.

use crate::haptics::HapticFeatureCache;
use crate::route::{route_index, DeviceRoute};
use vstd::prelude::*;

verus! {

/// Upper bound on a single write, in nanoseconds.
pub const WRITE_BUDGET: u64 = 5_000_000_000;

/// HID++ feature that sets a sensor's resolution.
pub const ADJUSTABLE_DPI: u16 = 0x2201;

/// What was asked of a device.
#[derive(Debug, Clone, Copy, PartialEq, Eq, Structural)]
pub enum HidppOperation {
    ResolveFeature,
    ReadDpiCapabilities,
    WriteDpi,
    ReadSmartShift,
    WriteSmartShift,
    Lighting,
    PlayHaptic,
}

/// How a device refused.
#[derive(Debug, Clone, Copy, PartialEq, Eq, Structural)]
pub enum HidppFeatureErrorKind {
    OutOfRange,
    Other,
}

/// Why a write or read failed.
#[derive(Debug, PartialEq, Eq)]
pub enum WriteError {
    DeviceNotFound,
    DeviceUnreachable { index: u8 },
    FeatureUnsupported { feature_hex: u16 },
    HidppFeature { operation: HidppOperation, feature_hex: u16, kind: HidppFeatureErrorKind },
    RequestTimedOut { operation: HidppOperation },
    RuntimeInit { message: String },
}

/// Pick the channel to write over: the one that input is captured on where it
/// is still current, else what the registry holds. The registry is not
/// consulted where the captured one will do.
pub fn choose_authoritative<T, C: FnOnce(&T) -> bool, L: FnOnce() -> Option<T>>(
    capture: Option<T>,
    capture_is_current: C,
    registry_lookup: L,
) -> (channel: Option<T>)
    requires
        capture matches Some(capture) ==> call_requires(capture_is_current, (&capture,)),
        (capture matches Some(capture) ==> call_ensures(capture_is_current, (&capture,), false))
            ==> call_requires(registry_lookup, ()),
    ensures
        match capture {
            Some(capture) => {
                ||| call_ensures(capture_is_current, (&capture,), true) && channel == Some(capture)
                ||| call_ensures(capture_is_current, (&capture,), false) && call_ensures(
                    registry_lookup,
                    (),
                    channel,
                )
            },
            None => call_ensures(registry_lookup, (), channel),
        },
{
    match capture {
        Some(capture) => {
            if capture_is_current(&capture) {
                Some(capture)
            } else {
                registry_lookup()
            }
        },
        None => registry_lookup(),
    }
}

/// What is made of the channel that was found: it is used, and where none was
/// found the haptic handle at hand is let go.
pub open spec fn settles<T, F>(
    found: Option<T>,
    channel: Result<T, WriteError>,
    before: HapticFeatureCache<F>,
    after: HapticFeatureCache<F>,
) -> bool {
    match found {
        Some(found) => channel == Ok::<T, WriteError>(found) && after == before,
        None => channel == Err::<T, WriteError>(WriteError::DeviceNotFound) && after.cached is None,
    }
}

/// The one channel that a write may go over: a captured channel counts only
/// where it reaches the device, the registry is not consulted where the captured
/// one will do, and nothing else is ever opened. Where there is no channel, a haptic handle that may pin a dead one is let go.
pub fn authoritative_channel<
    T,
    F,
    M: FnOnce(&T) -> bool,
    C: FnOnce(&T) -> bool,
    L: FnOnce() -> Option<T>,
>(
    capture: Option<T>,
    reaches_device: M,
    capture_is_current: C,
    registry_lookup: L,
    haptics: &mut HapticFeatureCache<F>,
) -> (channel: Result<T, WriteError>)
    requires
        capture matches Some(capture) ==> call_requires(reaches_device, (&capture,)) && (
        call_ensures(reaches_device, (&capture,), true) ==> call_requires(
            capture_is_current,
            (&capture,),
        )),
        (capture matches Some(capture) ==> call_ensures(reaches_device, (&capture,), false)
            || call_ensures(capture_is_current, (&capture,), false)) ==> call_requires(
            registry_lookup,
            (),
        ),
    ensures
        match capture {
            Some(capture) => {
                ||| call_ensures(reaches_device, (&capture,), true) && call_ensures(
                    capture_is_current,
                    (&capture,),
                    true,
                ) && settles(Some(capture), channel, *old(haptics), *final(haptics))
                ||| call_ensures(reaches_device, (&capture,), true) && call_ensures(
                    capture_is_current,
                    (&capture,),
                    false,
                ) && exists|found: Option<T>| #[trigger]
                    call_ensures(registry_lookup, (), found) && settles(
                        found,
                        channel,
                        *old(haptics),
                        *final(haptics),
                    )
                ||| call_ensures(reaches_device, (&capture,), false) && exists|
                    found: Option<T>,
                | #[trigger]
                    call_ensures(registry_lookup, (), found) && settles(
                        found,
                        channel,
                        *old(haptics),
                        *final(haptics),
                    )
            },
            None => exists|found: Option<T>| #[trigger]
                call_ensures(registry_lookup, (), found) && settles(
                    found,
                    channel,
                    *old(haptics),
                    *final(haptics),
                ),
        },
{
    let capture = match capture {
        Some(capture) => {
            if reaches_device(&capture) {
                Some(capture)
            } else {
                None
            }
        },
        None => None,
    };
    match choose_authoritative(capture, capture_is_current, registry_lookup) {
        Some(channel) => Ok(channel),
        None => {
            haptics.clear_cached_feature();
            Err(WriteError::DeviceNotFound)
        },
    }
}

/// The outcome of a call that is cut off after [`WRITE_BUDGET`]; no outcome at
/// all means that it was.
pub fn timed<T>(operation: HidppOperation, outcome: Option<Result<T, WriteError>>) -> (result: Result<
    T,
    WriteError,
>)
    ensures
        result == match outcome {
            Some(result) => result,
            None => Err(WriteError::RequestTimedOut { operation }),
        },
{
    match outcome {
        Some(result) => result,
        None => Err(WriteError::RequestTimedOut { operation }),
    }
}

/// A resolution as it goes over the wire. One that does not fit is refused the
/// way the device would refuse it, never clamped.
pub fn wire_dpi(dpi: u32) -> (wire: Result<u16, WriteError>)
    ensures
        wire == if dpi <= u16::MAX {
            Ok(dpi as u16)
        } else {
            Err(
                WriteError::HidppFeature {
                    operation: HidppOperation::WriteDpi,
                    feature_hex: ADJUSTABLE_DPI,
                    kind: HidppFeatureErrorKind::OutOfRange,
                },
            )
        },
{
    if dpi <= 0xffff {
        Ok(dpi as u16)
    } else {
        Err(
            WriteError::HidppFeature {
                operation: HidppOperation::WriteDpi,
                feature_hex: ADJUSTABLE_DPI,
                kind: HidppFeatureErrorKind::OutOfRange,
            },
        )
    }
}

/// Whether a wheel turns freely or clicks.
#[derive(Debug, Clone, Copy, PartialEq, Eq, Structural)]
pub enum SmartShiftMode {
    Free,
    Ratchet,
}

/// Wheel settings to write anew.
#[derive(Debug, Clone, Copy, PartialEq, Eq, Structural)]
pub struct SmartShiftApply {
    pub mode: SmartShiftMode,
    /// Threshold at which the wheel is let go; none is zero, which keeps the
    /// one that is set.
    pub auto_disengage: u8,
    /// Torque of the wheel; none is zero, which keeps the one that is set.
    pub tunable_torque: u8,
}

/// How finely a wheel reports.
#[derive(Debug, Clone, Copy, PartialEq, Eq, Structural)]
pub enum ScrollResolution {
    Standard,
    High,
}

/// What changes of a wheel's native mode.
#[derive(Debug, Clone, Copy, PartialEq, Eq, Structural)]
pub enum ScrollWheelModeChange {
    Resolution(ScrollResolution),
    Inversion(bool),
    ResolutionAndInversion { resolution: ScrollResolution, inverted: bool },
}

/// What changes of a wheel's native mode, given what is configured; the rest
/// is left as it is on the device.
#[verifier::allow_in_spec]
pub fn wheel_mode_change(resolution: Option<ScrollResolution>, inverted: Option<bool>) -> Option<
    ScrollWheelModeChange,
>
    returns
        match (resolution, inverted) {
            (Some(resolution), Some(inverted)) => Some(
                ScrollWheelModeChange::ResolutionAndInversion { resolution, inverted },
            ),
            (Some(resolution), None) => Some(ScrollWheelModeChange::Resolution(resolution)),
            (None, Some(inverted)) => Some(ScrollWheelModeChange::Inversion(inverted)),
            (None, None) => None,
        },
{
    match (resolution, inverted) {
        (Some(resolution), Some(inverted)) => Some(
            ScrollWheelModeChange::ResolutionAndInversion { resolution, inverted },
        ),
        (Some(resolution), None) => Some(ScrollWheelModeChange::Resolution(resolution)),
        (None, Some(inverted)) => Some(ScrollWheelModeChange::Inversion(inverted)),
        (None, None) => None,
    }
}

/// Lighting of a keyboard.
#[derive(Debug, Clone, Copy, PartialEq, Eq, Structural)]
pub struct Lighting {
    pub enabled: bool,
    pub red: u8,
    pub green: u8,
    pub blue: u8,
    /// In percent.
    pub brightness: u8,
}

/// A colour component at a brightness in percent. Past the brightest, the
/// component stays as it is.
pub open spec fn dimmed(component: u8, brightness: u8) -> u8 {
    if component * brightness / 100 <= u8::MAX {
        (component * brightness / 100) as u8
    } else {
        component
    }
}

fn dim(component: u8, brightness: u8) -> (scaled: u8)
    ensures
        scaled == dimmed(component, brightness),
{
    assert(component * brightness <= 255 * 255) by (nonlinear_arith)
        requires
            component <= 255,
            brightness <= 255,
    ;
    let scaled: u16 = component as u16 * brightness as u16 / 100;
    if scaled <= 0xff {
        scaled as u8
    } else {
        component
    }
}

/// The colour to write: the configured one at its brightness, or black where
/// the lighting is off.
pub fn lighting_rgb(lighting: &Lighting) -> (rgb: (u8, u8, u8))
    ensures
        rgb == if lighting.enabled {
            (
                dimmed(lighting.red, lighting.brightness),
                dimmed(lighting.green, lighting.brightness),
                dimmed(lighting.blue, lighting.brightness),
            )
        } else {
            (0u8, 0u8, 0u8)
        },
{
    if !lighting.enabled {
        return (0, 0, 0);
    }
    (
        dim(lighting.red, lighting.brightness),
        dim(lighting.green, lighting.brightness),
        dim(lighting.blue, lighting.brightness),
    )
}

/// At no more than full brightness a component is never brightened, and at full
/// brightness it is written as it is.
pub proof fn lemma_dimming_never_brightens(component: u8, brightness: u8)
    requires
        brightness <= 100,
    ensures
        dimmed(component, brightness) <= component,
        dimmed(component, 100) == component,
        dimmed(component, 0) == 0,
{
    assert(component * brightness <= component * 100) by (nonlinear_arith)
        requires
            brightness <= 100,
    ;
}

/// One write to a device.
#[derive(Debug, Clone, Copy, PartialEq, Eq, Structural)]
pub enum DeviceWrite {
    ToggleSmartShift,
    SmartShift(SmartShiftApply),
    FnLock(bool),
    Dpi(u16),
    WheelMode(ScrollWheelModeChange),
    Color { red: u8, green: u8, blue: u8 },
}

/// One write that was asked for.
#[derive(Debug, Clone, Copy, PartialEq, Eq, Structural)]
pub enum WriteRequest {
    ToggleSmartShift,
    SmartShift(SmartShiftApply),
    FnLock(bool),
    Dpi(u32),
    WheelMode { resolution: Option<ScrollResolution>, inverted: Option<bool> },
    Lighting(Lighting),
}

/// Why a write was not made.
#[derive(Debug, Clone, Copy, PartialEq, Eq, Structural)]
pub enum Skipped {
    NoTarget,
    /// Nothing of the wheel's mode is configured.
    NothingConfigured,
    /// No channel reaches the device.
    NoChannel,
    /// The resolution does not fit the wire.
    OutOfRange,
}

/// What a request writes, where it writes anything.
pub open spec fn write_of(request: WriteRequest) -> Result<DeviceWrite, Skipped> {
    match request {
        WriteRequest::ToggleSmartShift => Ok(DeviceWrite::ToggleSmartShift),
        WriteRequest::SmartShift(apply) => Ok(DeviceWrite::SmartShift(apply)),
        WriteRequest::FnLock(on) => Ok(DeviceWrite::FnLock(on)),
        WriteRequest::Dpi(dpi) => if dpi <= u16::MAX {
            Ok(DeviceWrite::Dpi(dpi as u16))
        } else {
            Err(Skipped::OutOfRange)
        },
        WriteRequest::WheelMode { resolution, inverted } => match wheel_mode_change(
            resolution,
            inverted,
        ) {
            Some(change) => Ok(DeviceWrite::WheelMode(change)),
            None => Err(Skipped::NothingConfigured),
        },
        WriteRequest::Lighting(lighting) => Ok(
            if lighting.enabled {
                DeviceWrite::Color {
                    red: dimmed(lighting.red, lighting.brightness),
                    green: dimmed(lighting.green, lighting.brightness),
                    blue: dimmed(lighting.blue, lighting.brightness),
                }
            } else {
                DeviceWrite::Color { red: 0, green: 0, blue: 0 }
            },
        ),
    }
}

/// What a request writes, where it writes anything.
pub fn prepare_write(request: WriteRequest) -> (write: Result<DeviceWrite, Skipped>)
    ensures
        write == write_of(request),
{
    match request {
        WriteRequest::ToggleSmartShift => Ok(DeviceWrite::ToggleSmartShift),
        WriteRequest::SmartShift(apply) => Ok(DeviceWrite::SmartShift(apply)),
        WriteRequest::FnLock(on) => Ok(DeviceWrite::FnLock(on)),
        WriteRequest::Dpi(dpi) => match wire_dpi(dpi) {
            Ok(dpi) => Ok(DeviceWrite::Dpi(dpi)),
            Err(_) => Err(Skipped::OutOfRange),
        },
        WriteRequest::WheelMode { resolution, inverted } => match wheel_mode_change(
            resolution,
            inverted,
        ) {
            Some(change) => Ok(DeviceWrite::WheelMode(change)),
            None => Err(Skipped::NothingConfigured),
        },
        WriteRequest::Lighting(lighting) => {
            let (red, green, blue) = lighting_rgb(&lighting);
            Ok(DeviceWrite::Color { red, green, blue })
        },
    }
}

/// A write that is ready to be made.
#[derive(Debug)]
pub struct PlannedWrite<T> {
    pub channel: T,
    /// The device on the channel.
    pub index: u8,
    pub write: DeviceWrite,
}

/// Plan a write that nobody waits for. Without a target, or with nothing to
/// write, no channel is looked for; a resolution that does not fit is found
/// out only on a channel.
pub fn plan_write<T, R: FnOnce(&DeviceRoute) -> Result<T, WriteError>>(
    target: Option<DeviceRoute>,
    request: WriteRequest,
    resolve: R,
) -> (plan: Result<PlannedWrite<T>, Skipped>)
    requires
        target matches Some(target) ==> write_of(request) != Err::<DeviceWrite, Skipped>(
            Skipped::NothingConfigured,
        ) ==> call_requires(resolve, (&target,)),
    ensures
        match target {
            None => plan == Err::<PlannedWrite<T>, Skipped>(Skipped::NoTarget),
            Some(target) => if write_of(request) == Err::<DeviceWrite, Skipped>(
                Skipped::NothingConfigured,
            ) {
                plan == Err::<PlannedWrite<T>, Skipped>(Skipped::NothingConfigured)
            } else {
                exists|resolved: Result<T, WriteError>|
                    {
                        &&& #[trigger] call_ensures(resolve, (&target,), resolved)
                        &&& plan == match (resolved, write_of(request)) {
                            (Err(_), _) => Err::<PlannedWrite<T>, Skipped>(Skipped::NoChannel),
                            (Ok(_), Err(skipped)) => Err(skipped),
                            (Ok(channel), Ok(write)) => Ok(
                                PlannedWrite { channel, index: route_index(target@), write },
                            ),
                        }
                    }
            },
        },
{
    let target = match target {
        Some(target) => target,
        None => {
            return Err(Skipped::NoTarget);
        },
    };
    let write = prepare_write(request);
    if let Err(Skipped::NothingConfigured) = write {
        return Err(Skipped::NothingConfigured);
    }
    let resolved = resolve(&target);
    match resolved {
        Err(_) => Err(Skipped::NoChannel),
        Ok(channel) => match write {
            Err(skipped) => Err(skipped),
            Ok(write) => Ok(PlannedWrite { channel, index: target.device_index(), write }),
        },
    }
}

/// The writes that put a mouse's volatile settings back, one after the other
/// over one channel: the wheel's mode, the resolution where it fits the wire,
/// and the wheel's shift, each where it is configured.
pub open spec fn volatile_writes(
    resolution: Option<ScrollResolution>,
    inverted: Option<bool>,
    dpi: Option<u32>,
    smartshift: Option<SmartShiftApply>,
) -> Seq<DeviceWrite> {
    let wheel = match wheel_mode_change(resolution, inverted) {
        Some(change) => seq![DeviceWrite::WheelMode(change)],
        None => Seq::empty(),
    };
    let sensor = match dpi {
        Some(dpi) if dpi <= u16::MAX => seq![DeviceWrite::Dpi(dpi as u16)],
        _ => Seq::empty(),
    };
    let shift = match smartshift {
        Some(apply) => seq![DeviceWrite::SmartShift(apply)],
        None => Seq::empty(),
    };
    wheel + sensor + shift
}

/// The writes that put a mouse's volatile settings back.
pub fn plan_volatile_writes(
    resolution: Option<ScrollResolution>,
    inverted: Option<bool>,
    dpi: Option<u32>,
    smartshift: Option<SmartShiftApply>,
) -> (writes: Vec<DeviceWrite>)
    ensures
        writes@ == volatile_writes(resolution, inverted, dpi, smartshift),
{
    let mut writes: Vec<DeviceWrite> = Vec::new();
    if let Some(change) = wheel_mode_change(resolution, inverted) {
        writes.push(DeviceWrite::WheelMode(change));
    }
    if let Some(dpi) = dpi {
        if let Ok(dpi) = wire_dpi(dpi) {
            writes.push(DeviceWrite::Dpi(dpi));
        }
    }
    if let Some(apply) = smartshift {
        writes.push(DeviceWrite::SmartShift(apply));
    }
    assert(writes@ =~= volatile_writes(resolution, inverted, dpi, smartshift));
    writes
}

/// A mouse's volatile settings, ready to be put back.
#[derive(Debug)]
pub struct PlannedRestore<T> {
    pub channel: T,
    /// The device on the channel.
    pub index: u8,
    /// The writes, to be made one after the other.
    pub writes: Vec<DeviceWrite>,
}

/// Plan to put a mouse's volatile settings back. All of them go over the one
/// channel that reaches the mouse; where there is none, nothing is written.
pub fn plan_volatile_restore<T, R: FnOnce(&DeviceRoute) -> Result<T, WriteError>>(
    target: DeviceRoute,
    resolution: Option<ScrollResolution>,
    inverted: Option<bool>,
    dpi: Option<u32>,
    smartshift: Option<SmartShiftApply>,
    resolve: R,
) -> (plan: Result<PlannedRestore<T>, Skipped>)
    requires
        call_requires(resolve, (&target,)),
    ensures
        exists|resolved: Result<T, WriteError>|
            {
                &&& #[trigger] call_ensures(resolve, (&target,), resolved)
                &&& match (resolved, plan) {
                    (Ok(channel), Ok(planned)) => {
                        &&& planned.channel == channel
                        &&& planned.index == route_index(target@)
                        &&& planned.writes@ == volatile_writes(
                            resolution,
                            inverted,
                            dpi,
                            smartshift,
                        )
                    },
                    (Err(_), Err(skipped)) => skipped == Skipped::NoChannel,
                    _ => false,
                }
            },
{
    match resolve(&target) {
        Err(_) => Err(Skipped::NoChannel),
        Ok(channel) => Ok(
            PlannedRestore {
                channel,
                index: target.device_index(),
                writes: plan_volatile_writes(resolution, inverted, dpi, smartshift),
            },
        ),
    }
}

/// How long a write that nobody waits for may take before it is cut off, in
/// nanoseconds. A colour goes out key by key and is not cut off.
pub fn write_budget(write: DeviceWrite) -> (budget: Option<u64>)
    ensures
        budget == if write is Color {
            None
        } else {
            Some(WRITE_BUDGET)
        },
{
    match write {
        DeviceWrite::Color { .. } => None,
        _ => Some(WRITE_BUDGET),
    }
}

/// The operation that a write is for whoever waits for it. The others are made
/// only where nobody does.
pub fn operation_of(write: DeviceWrite) -> (operation: Option<HidppOperation>)
    ensures
        operation == match write {
            DeviceWrite::Dpi(_) => Some(HidppOperation::WriteDpi),
            DeviceWrite::SmartShift(_) => Some(HidppOperation::WriteSmartShift),
            DeviceWrite::Color { .. } => Some(HidppOperation::Lighting),
            _ => None,
        },
{
    match write {
        DeviceWrite::Dpi(_) => Some(HidppOperation::WriteDpi),
        DeviceWrite::SmartShift(_) => Some(HidppOperation::WriteSmartShift),
        DeviceWrite::Color { .. } => Some(HidppOperation::Lighting),
        _ => None,
    }
}

/// What a write that nobody waits for came to.
#[derive(Debug, Clone, Copy, PartialEq, Eq, Structural)]
pub enum WriteReport {
    Written,
    /// The device has no such feature, which is to be expected of some.
    Unsupported { feature_hex: u16 },
    Failed,
    TimedOut,
}

/// What a write came to.
pub open spec fn came_to(write: DeviceWrite, outcome: Option<Result<(), WriteError>>) -> WriteReport {
    match outcome {
        None => WriteReport::TimedOut,
        Some(Ok(_)) => WriteReport::Written,
        Some(Err(WriteError::FeatureUnsupported { feature_hex })) => if write is WheelMode {
            WriteReport::Unsupported { feature_hex }
        } else {
            WriteReport::Failed
        },
        Some(Err(_)) => WriteReport::Failed,
    }
}

/// What a write came to; no outcome at all means that it was cut off. That a
/// device cannot change its wheel's mode is to be expected; any other write
/// that is not supported has failed.
pub fn write_report(write: DeviceWrite, outcome: &Option<Result<(), WriteError>>) -> (report: WriteReport)
    ensures
        report == came_to(write, *outcome),
        report == match *outcome {
            None => WriteReport::TimedOut,
            Some(Ok(_)) => WriteReport::Written,
            Some(Err(WriteError::FeatureUnsupported { feature_hex })) => if write is WheelMode {
                WriteReport::Unsupported { feature_hex }
            } else {
                WriteReport::Failed
            },
            Some(Err(_)) => WriteReport::Failed,
        },
{
    match outcome {
        None => WriteReport::TimedOut,
        Some(Ok(_)) => WriteReport::Written,
        Some(Err(WriteError::FeatureUnsupported { feature_hex })) => match write {
            DeviceWrite::WheelMode(_) => WriteReport::Unsupported { feature_hex: *feature_hex },
            _ => WriteReport::Failed,
        },
        Some(Err(_)) => WriteReport::Failed,
    }
}

/// The index of a feature that was looked up on a device; a device that does
/// not have it is told apart from one that did not answer.
pub fn resolve_feature(
    looked_up: Result<Option<u8>, WriteError>,
    feature_hex: u16,
) -> (index: Result<u8, WriteError>)
    ensures
        index == match looked_up {
            Ok(Some(index)) => Ok(index),
            Ok(None) => Err(WriteError::FeatureUnsupported { feature_hex }),
            Err(error) => Err(error),
        },
{
    match looked_up {
        Ok(Some(index)) => Ok(index),
        Ok(None) => Err(WriteError::FeatureUnsupported { feature_hex }),
        Err(error) => Err(error),
    }
}

/// The channel that was opened to a device; none means that the device is not
/// there.
pub fn opened_channel<T>(opened: Result<Option<T>, WriteError>) -> (channel: Result<T, WriteError>)
    ensures
        channel == match opened {
            Ok(Some(channel)) => Ok(channel),
            Ok(None) => Err(WriteError::DeviceNotFound),
            Err(error) => Err(error),
        },
{
    match opened {
        Ok(Some(channel)) => Ok(channel),
        Ok(None) => Err(WriteError::DeviceNotFound),
        Err(error) => Err(error),
    }
}

} // verus!
