//! Channel choice and the writes that go over it.

use std::cell::Cell;

use openlogi::haptics::{
    arm_begin, arm_opened, arm_repaired, arm_step, cached_play_ended, fresh_play_ended, play_begin,
    play_opened, ArmStage, ArmStep, HapticConfiguration, HapticFeatureCache, PlayNext, PlayStage,
};
use openlogi::hardware::{
    authoritative_channel, choose_authoritative, lighting_rgb, opened_channel, operation_of,
    plan_volatile_restore, plan_volatile_writes, plan_write, prepare_write, resolve_feature, timed, wheel_mode_change,
    wire_dpi, write_budget, write_report, DeviceWrite, HidppFeatureErrorKind, HidppOperation, Lighting,
    ScrollResolution, ScrollWheelModeChange, Skipped, SmartShiftApply, SmartShiftMode, WriteError,
    WriteReport, WriteRequest, WRITE_BUDGET,
};
use openlogi::light::{
    commands_for_light_settings, ControlRange, LightCapabilities, LightCommand, LightSettings,
};
use openlogi::route::DeviceRoute;

#[test]
fn current_capture_wins_without_consulting_the_registry_again() {
    let looked_up = Cell::new(false);
    let selected = choose_authoritative(
        Some("capture"),
        |_| true,
        || {
            looked_up.set(true);
            Some("registry")
        },
    );

    assert_eq!(selected, Some("capture"));
    assert!(!looked_up.get());
}

#[test]
fn stale_capture_falls_through_to_the_registry_winner() {
    let selected = choose_authoritative(Some("stale"), |_| false, || Some("registry-current"));

    assert_eq!(selected, Some("registry-current"));
}

#[test]
fn registry_miss_has_no_route_open_fallback() {
    let selected = choose_authoritative(Some("stale"), |_| false, || None);

    assert_eq!(selected, None);
}

fn route() -> DeviceRoute {
    DeviceRoute::Bolt {
        receiver_uid: "bolt-1".to_string(),
        slot: 3,
    }
}

#[test]
fn a_capture_of_another_device_is_passed_over() {
    let mut haptics = HapticFeatureCache::new();
    haptics.store_cached_feature(1, 2, "handle");
    let channel = authoritative_channel(
        Some("capture"),
        |_| false,
        |_| true,
        || Some("registry"),
        &mut haptics,
    );
    assert_eq!(channel, Ok("registry"));
    assert_eq!(haptics.cached_feature(1, 2), Some(&"handle"));
}

#[test]
fn a_miss_lets_go_of_the_haptic_handle() {
    let mut haptics = HapticFeatureCache::new();
    haptics.store_cached_feature(1, 2, "handle");
    let channel = authoritative_channel(
        Some("stale"),
        |_| true,
        |_| false,
        || None,
        &mut haptics,
    );
    assert_eq!(channel, Err(WriteError::DeviceNotFound));
    assert_eq!(haptics.cached_feature(1, 2), None);
}

#[test]
fn lighting_is_scaled_by_brightness() {
    let lighting = Lighting {
        enabled: true,
        red: 255,
        green: 128,
        blue: 1,
        brightness: 80,
    };
    assert_eq!(lighting_rgb(&lighting), (204, 102, 0));
    assert_eq!(
        lighting_rgb(&Lighting {
            brightness: 100,
            ..lighting
        }),
        (255, 128, 1)
    );
    assert_eq!(
        lighting_rgb(&Lighting {
            brightness: 200,
            ..lighting
        }),
        (255, 128, 2),
        "a component that would overflow stays as it is"
    );
    assert_eq!(
        lighting_rgb(&Lighting {
            enabled: false,
            ..lighting
        }),
        (0, 0, 0)
    );
}

#[test]
fn a_resolution_that_does_not_fit_is_refused() {
    assert_eq!(wire_dpi(1600), Ok(1600));
    assert_eq!(wire_dpi(65_535), Ok(65_535));
    assert_eq!(
        wire_dpi(65_536),
        Err(WriteError::HidppFeature {
            operation: HidppOperation::WriteDpi,
            feature_hex: 0x2201,
            kind: HidppFeatureErrorKind::OutOfRange,
        })
    );
}

#[test]
fn a_call_that_is_cut_off_times_out() {
    assert_eq!(timed(HidppOperation::WriteDpi, Some(Ok(7))), Ok(7));
    assert_eq!(
        timed::<u8>(HidppOperation::Lighting, None),
        Err(WriteError::RequestTimedOut {
            operation: HidppOperation::Lighting
        })
    );
    assert_eq!(
        timed::<u8>(
            HidppOperation::Lighting,
            Some(Err(WriteError::DeviceNotFound))
        ),
        Err(WriteError::DeviceNotFound)
    );
}

#[test]
fn the_wheel_mode_changes_only_what_is_configured() {
    assert_eq!(wheel_mode_change(None, None), None);
    assert_eq!(
        wheel_mode_change(Some(ScrollResolution::High), None),
        Some(ScrollWheelModeChange::Resolution(ScrollResolution::High))
    );
    assert_eq!(
        wheel_mode_change(None, Some(true)),
        Some(ScrollWheelModeChange::Inversion(true))
    );
    assert_eq!(
        wheel_mode_change(Some(ScrollResolution::Standard), Some(false)),
        Some(ScrollWheelModeChange::ResolutionAndInversion {
            resolution: ScrollResolution::Standard,
            inverted: false,
        })
    );
}

fn shift() -> SmartShiftApply {
    SmartShiftApply {
        mode: SmartShiftMode::Ratchet,
        auto_disengage: 16,
        tunable_torque: 0,
    }
}

#[test]
fn volatile_settings_go_back_in_order() {
    assert_eq!(
        plan_volatile_writes(
            Some(ScrollResolution::High),
            None,
            Some(1600),
            Some(shift())
        ),
        vec![
            DeviceWrite::WheelMode(ScrollWheelModeChange::Resolution(ScrollResolution::High)),
            DeviceWrite::Dpi(1600),
            DeviceWrite::SmartShift(shift()),
        ]
    );
    assert_eq!(
        plan_volatile_writes(None, None, Some(70_000), Some(shift())),
        vec![DeviceWrite::SmartShift(shift())]
    );
    assert_eq!(plan_volatile_writes(None, None, None, None), vec![]);
}

#[test]
fn a_write_needs_a_target_a_channel_and_something_to_write() {
    let looked_up = Cell::new(0);
    let resolve = |route: &DeviceRoute| {
        looked_up.set(looked_up.get() + 1);
        Ok(route.device_index())
    };
    let planned = plan_write(Some(route()), WriteRequest::Dpi(800), resolve).unwrap();
    assert_eq!(planned.channel, 3);
    assert_eq!(planned.index, 3);
    assert_eq!(planned.write, DeviceWrite::Dpi(800));
    assert_eq!(looked_up.get(), 1);

    assert_eq!(
        plan_write(None, WriteRequest::Dpi(800), resolve).err(),
        Some(Skipped::NoTarget)
    );
    assert_eq!(
        plan_write(
            Some(route()),
            WriteRequest::WheelMode {
                resolution: None,
                inverted: None
            },
            resolve
        )
        .err(),
        Some(Skipped::NothingConfigured)
    );
    assert_eq!(looked_up.get(), 1, "no channel is looked for in vain");
    assert_eq!(
        plan_write(Some(route()), WriteRequest::Dpi(70_000), resolve).err(),
        Some(Skipped::OutOfRange)
    );
    assert_eq!(looked_up.get(), 2);
    assert_eq!(
        plan_write(Some(route()), WriteRequest::FnLock(true), |_| Err::<u8, _>(
            WriteError::DeviceNotFound
        ))
        .err(),
        Some(Skipped::NoChannel)
    );
}

#[test]
fn requests_are_spelled_out_as_writes() {
    assert_eq!(
        prepare_write(WriteRequest::ToggleSmartShift),
        Ok(DeviceWrite::ToggleSmartShift)
    );
    assert_eq!(
        prepare_write(WriteRequest::SmartShift(shift())),
        Ok(DeviceWrite::SmartShift(shift()))
    );
    assert_eq!(
        prepare_write(WriteRequest::FnLock(false)),
        Ok(DeviceWrite::FnLock(false))
    );
    assert_eq!(
        prepare_write(WriteRequest::Lighting(Lighting {
            enabled: true,
            red: 100,
            green: 50,
            blue: 0,
            brightness: 50,
        })),
        Ok(DeviceWrite::Color {
            red: 50,
            green: 25,
            blue: 0
        })
    );
}

#[test]
fn an_unsupported_wheel_mode_is_no_failure() {
    let unsupported = || Some(Err(WriteError::FeatureUnsupported { feature_hex: 0x2121 }));
    let wheel = DeviceWrite::WheelMode(ScrollWheelModeChange::Inversion(true));
    assert_eq!(
        write_report(wheel, &unsupported()),
        WriteReport::Unsupported { feature_hex: 0x2121 }
    );
    assert_eq!(
        write_report(DeviceWrite::Dpi(800), &unsupported()),
        WriteReport::Failed
    );
    assert_eq!(write_report(wheel, &Some(Ok(()))), WriteReport::Written);
    assert_eq!(write_report(wheel, &None), WriteReport::TimedOut);
    assert_eq!(
        write_report(wheel, &Some(Err(WriteError::DeviceNotFound))),
        WriteReport::Failed
    );
}

#[test]
fn a_missing_feature_is_told_from_a_missing_answer() {
    assert_eq!(resolve_feature(Ok(Some(9)), 0x19b0), Ok(9));
    assert_eq!(
        resolve_feature(Ok(None), 0x19b0),
        Err(WriteError::FeatureUnsupported { feature_hex: 0x19b0 })
    );
    assert_eq!(
        resolve_feature(Err(WriteError::DeviceUnreachable { index: 1 }), 0x19b0),
        Err(WriteError::DeviceUnreachable { index: 1 })
    );
    assert_eq!(opened_channel(Ok(Some("channel"))), Ok("channel"));
    assert_eq!(
        opened_channel::<u8>(Ok(None)),
        Err(WriteError::DeviceNotFound)
    );
}

#[test]
fn haptics_are_armed_only_where_they_are_not() {
    let mut cache = HapticFeatureCache::new();
    cache.store_cached_feature(1, 2, "handle");
    let mut step = |enabled, intensity| {
        arm_step::<&str, &str>(&mut cache, Ok(HapticConfiguration { enabled, intensity }))
    };
    assert_eq!(step(true, 60), ArmStep::Ready);
    assert_eq!(step(false, 60), ArmStep::Repair { intensity: 60 });
    assert_eq!(step(true, 0), ArmStep::Repair { intensity: 25 });
    assert_eq!(step(false, 0), ArmStep::Repair { intensity: 25 });
    assert_eq!(arm_repaired::<&str, &str>(&mut cache, Ok(())), Ok(true));
    assert!(cache.cached_feature(1, 2).is_some());

    assert_eq!(arm_step(&mut cache, Err("lost")), ArmStep::Failed("lost"));
    assert!(cache.cached_feature(1, 2).is_none());
    cache.store_cached_feature(1, 2, "handle");
    assert_eq!(arm_repaired(&mut cache, Err("lost")), Err("lost"));
    assert!(cache.cached_feature(1, 2).is_none());
}

#[test]
fn a_failed_play_is_tried_once_more_over_a_fresh_handle() {
    let mut cache = HapticFeatureCache::new();
    cache.store_cached_feature(1, 2, "old");
    assert_eq!(play_begin(&cache, 1, 3), PlayStage::Opening);
    assert_eq!(play_begin(&cache, 9, 2), PlayStage::Opening);
    assert_eq!(play_begin(&cache, 1, 2), PlayStage::Cached);
    assert_eq!(
        cached_play_ended::<&str, &str>(&mut cache, true),
        PlayNext::Done(Ok(()))
    );
    assert_eq!(
        cached_play_ended::<&str, &str>(&mut cache, false),
        PlayNext::Go(PlayStage::Opening)
    );
    assert!(cache.cached_feature(1, 2).is_none());
    assert_eq!(
        play_opened::<&str>(Ok(())),
        PlayNext::Go(PlayStage::Fresh)
    );
    assert_eq!(play_opened(Err("gone")), PlayNext::Done(Err("gone")));
    assert_eq!(
        fresh_play_ended(&mut cache, 1, 2, "new", Err("busy")),
        PlayNext::Done(Err("busy"))
    );
    assert!(cache.cached_feature(1, 2).is_none());
    assert_eq!(
        fresh_play_ended::<&str, &str>(&mut cache, 1, 2, "new", Ok(())),
        PlayNext::Done(Ok(()))
    );
    assert_eq!(cache.cached_feature(1, 2), Some(&"new"));
}

#[test]
fn a_light_is_sent_only_what_it_can_do() {
    let settings = LightSettings {
        enabled: true,
        auto_camera: false,
        brightness_percent: 65,
        temperature_kelvin: Some(4600),
    };
    let range = Some(ControlRange { min: 1, max: 100 });
    assert_eq!(
        commands_for_light_settings(
            settings,
            LightCapabilities {
                power: true,
                brightness: range,
                temperature: range
            }
        ),
        vec![
            LightCommand::Power(true),
            LightCommand::BrightnessPercent(65),
            LightCommand::TemperatureKelvin(4600),
        ]
    );
    assert_eq!(
        commands_for_light_settings(
            settings,
            LightCapabilities {
                power: true,
                brightness: None,
                temperature: None
            }
        ),
        vec![LightCommand::Power(true)]
    );
    assert_eq!(
        commands_for_light_settings(
            LightSettings {
                temperature_kelvin: None,
                ..settings
            },
            LightCapabilities {
                power: false,
                brightness: range,
                temperature: range
            }
        ),
        vec![LightCommand::BrightnessPercent(65)]
    );
    assert_eq!(
        commands_for_light_settings(
            LightSettings {
                auto_camera: true,
                ..settings
            },
            LightCapabilities {
                power: true,
                brightness: None,
                temperature: None
            }
        ),
        vec![LightCommand::Power(true)],
        "following a camera is independent of the controls"
    );
}

#[test]
fn without_a_channel_nothing_is_put_back() {
    let index = route().device_index();
    let planned = plan_volatile_restore(route(), None, Some(true), Some(800), None, |_| Ok("open"))
        .unwrap_or_else(|_| panic!("a channel was there"));
    assert_eq!(planned.channel, "open");
    assert_eq!(planned.index, index);
    assert_eq!(
        planned.writes,
        vec![
            DeviceWrite::WheelMode(ScrollWheelModeChange::Inversion(true)),
            DeviceWrite::Dpi(800),
        ]
    );
    let skipped = plan_volatile_restore(route(), None, Some(true), Some(800), None, |_| {
        Err::<&str, WriteError>(WriteError::DeviceNotFound)
    });
    assert_eq!(skipped.err(), Some(Skipped::NoChannel));
}

#[test]
fn every_write_but_a_color_is_cut_off() {
    let color = DeviceWrite::Color {
        red: 1,
        green: 2,
        blue: 3,
    };
    assert_eq!(write_budget(color), None);
    assert_eq!(write_budget(DeviceWrite::Dpi(800)), Some(WRITE_BUDGET));
    assert_eq!(write_budget(DeviceWrite::FnLock(true)), Some(WRITE_BUDGET));
    assert_eq!(write_budget(DeviceWrite::ToggleSmartShift), Some(WRITE_BUDGET));

    assert_eq!(operation_of(color), Some(HidppOperation::Lighting));
    assert_eq!(operation_of(DeviceWrite::Dpi(800)), Some(HidppOperation::WriteDpi));
    assert_eq!(operation_of(DeviceWrite::ToggleSmartShift), None);
}

#[test]
fn arming_opens_a_handle_once_and_keeps_it() {
    let mut cache = HapticFeatureCache::new();
    assert_eq!(arm_begin(&cache, 1, 2), ArmStage::Opening);
    assert_eq!(
        arm_opened(&mut cache, 1, 2, Err::<&str, _>("no such feature")),
        Err("no such feature")
    );
    assert_eq!(cache.cached_feature(1, 2), None);
    assert_eq!(arm_opened(&mut cache, 1, 2, Ok::<_, &str>("handle")), Ok(()));
    assert_eq!(cache.cached_feature(1, 2), Some(&"handle"));
    assert_eq!(arm_begin(&cache, 1, 2), ArmStage::Cached);
    assert_eq!(arm_begin(&cache, 1, 3), ArmStage::Opening);
    assert_eq!(arm_begin(&cache, 2, 2), ArmStage::Opening);
}
