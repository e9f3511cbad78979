//! Standalone lights.

use vstd::prelude::*;

verus! {

/// What is saved of a light, whatever its protocol.
#[derive(Debug, Clone, Copy, PartialEq, Eq, Structural)]
pub struct LightSettings {
    pub enabled: bool,
    /// Whether the light follows the use of a camera. Its power and its other
    /// settings do not depend on it.
    pub auto_camera: bool,
    pub brightness_percent: u8,
    pub temperature_kelvin: Option<u16>,
}

/// The values a light's control takes.
#[derive(Debug, Clone, Copy, PartialEq, Eq, Structural)]
pub struct ControlRange {
    pub min: u16,
    pub max: u16,
}

/// The controls a light has.
#[derive(Debug, Clone, Copy, PartialEq, Eq, Structural)]
pub struct LightCapabilities {
    pub power: bool,
    pub brightness: Option<ControlRange>,
    pub temperature: Option<ControlRange>,
}

/// One write to a light.
#[derive(Debug, Clone, Copy, PartialEq, Eq, Structural)]
pub enum LightCommand {
    Power(bool),
    BrightnessPercent(u8),
    TemperatureKelvin(u16),
}

/// One command, or none.
pub open spec fn optional(command: LightCommand, wanted: bool) -> Seq<LightCommand> {
    if wanted {
        seq![command]
    } else {
        Seq::empty()
    }
}

/// The writes that put saved settings onto a light: power, brightness and
/// temperature in that order, each only where the light has the control, and
/// a temperature only where one was saved.
pub open spec fn light_commands(
    settings: LightSettings,
    capabilities: LightCapabilities,
) -> Seq<LightCommand> {
    optional(LightCommand::Power(settings.enabled), capabilities.power) + optional(
        LightCommand::BrightnessPercent(settings.brightness_percent),
        capabilities.brightness is Some,
    ) + match settings.temperature_kelvin {
        Some(kelvin) => optional(
            LightCommand::TemperatureKelvin(kelvin),
            capabilities.temperature is Some,
        ),
        None => Seq::empty(),
    }
}

/// The writes that put saved settings onto a light. A control that the light
/// does not have is left out.
pub fn commands_for_light_settings(
    settings: LightSettings,
    capabilities: LightCapabilities,
) -> (commands: Vec<LightCommand>)
    ensures
        commands@ == light_commands(settings, capabilities),
{
    let mut commands: Vec<LightCommand> = Vec::new();
    if capabilities.power {
        commands.push(LightCommand::Power(settings.enabled));
    }
    if capabilities.brightness.is_some() {
        commands.push(LightCommand::BrightnessPercent(settings.brightness_percent));
    }
    if capabilities.temperature.is_some() {
        if let Some(kelvin) = settings.temperature_kelvin {
            commands.push(LightCommand::TemperatureKelvin(kelvin));
        }
    }
    assert(commands@ =~= light_commands(settings, capabilities));
    commands
}

/// Whether a light has the control that a command sets.
pub open spec fn has_control(capabilities: LightCapabilities, command: LightCommand) -> bool {
    match command {
        LightCommand::Power(_) => capabilities.power,
        LightCommand::BrightnessPercent(_) => capabilities.brightness is Some,
        LightCommand::TemperatureKelvin(_) => capabilities.temperature is Some,
    }
}

/// A light is never sent a command for a control that it does not have.
pub proof fn lemma_only_controls_at_hand_are_set(
    settings: LightSettings,
    capabilities: LightCapabilities,
    i: int,
)
    requires
        0 <= i < light_commands(settings, capabilities).len(),
    ensures
        has_control(capabilities, light_commands(settings, capabilities)[i]),
{
}

/// Following a camera changes nothing of what saved settings put onto a light.
pub proof fn lemma_camera_switch_is_independent(
    settings: LightSettings,
    capabilities: LightCapabilities,
    auto_camera: bool,
)
    ensures
        light_commands(LightSettings { auto_camera, ..settings }, capabilities) == light_commands(
            settings,
            capabilities,
        ),
{
}

/// Every control that a light has is set to what was saved, and to nothing
/// else: its power and its brightness always, its temperature where one was
/// saved.
pub proof fn lemma_every_control_at_hand_is_set(
    settings: LightSettings,
    capabilities: LightCapabilities,
    command: LightCommand,
)
    ensures
        light_commands(settings, capabilities).contains(command) <==> match command {
            LightCommand::Power(on) => capabilities.power && on == settings.enabled,
            LightCommand::BrightnessPercent(percent) => capabilities.brightness is Some && percent
                == settings.brightness_percent,
            LightCommand::TemperatureKelvin(kelvin) => capabilities.temperature is Some
                && settings.temperature_kelvin == Some(kelvin),
        },
        light_commands(settings, capabilities).no_duplicates(),
{
    let commands = light_commands(settings, capabilities);
    let power = LightCommand::Power(settings.enabled);
    let brightness = LightCommand::BrightnessPercent(settings.brightness_percent);
    let powered: int = if capabilities.power {
        1
    } else {
        0
    };
    if capabilities.power {
        assert(commands[0] == power);
    }
    if capabilities.brightness is Some {
        assert(commands[powered] == brightness);
    }
    if capabilities.temperature is Some {
        if let Some(kelvin) = settings.temperature_kelvin {
            assert(commands[commands.len() - 1] == LightCommand::TemperatureKelvin(kelvin));
        }
    }
}

/// A light is switched before anything else is set, and its temperature is set
/// last.
pub proof fn lemma_a_light_is_switched_first(
    settings: LightSettings,
    capabilities: LightCapabilities,
    i: int,
)
    requires
        0 <= i < light_commands(settings, capabilities).len(),
    ensures
        light_commands(settings, capabilities)[i] is Power ==> i == 0,
        light_commands(settings, capabilities)[i] is TemperatureKelvin ==> i == light_commands(
            settings,
            capabilities,
        ).len() - 1,
{
}

} // verus!
