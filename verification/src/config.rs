//! User configuration.

use std::collections::BTreeMap;
use vstd::prelude::*;

verus! {

/// The layout of the configuration that this build writes.
pub const SCHEMA_VERSION: u32 = 7;

/// Whether a configuration of this layout can be read: any older one is
/// migrated, while zero and newer ones are refused rather than losing
/// settings.
pub fn schema_supported(version: u32) -> (supported: bool)
    ensures
        supported == (1 <= version <= SCHEMA_VERSION),
{
    1 <= version && version <= SCHEMA_VERSION
}

/// How the app looks.
#[derive(Debug, Clone, Copy, PartialEq, Eq, Structural)]
pub enum Appearance {
    /// As the OS does.
    System,
    Light,
    Dark,
}

/// Default sensitivity of the thumb wheel.
pub const THUMBWHEEL_SENSITIVITY_DEFAULT: u32 = 14;

/// Standard size of the interface, in percent.
pub const UI_SCALE_DEFAULT: u32 = 100;

/// Preferences that belong to no device.
#[derive(Debug, PartialEq, Eq)]
pub struct AppSettings {
    pub launch_at_login: bool,
    pub check_for_updates: bool,
    pub auto_install_updates: bool,
    pub show_in_menu_bar: bool,
    /// Whether the OS-level mouse hook is installed.
    pub capture_mouse_events: bool,
    pub auto_download_assets: bool,
    /// The locale; where there is none, that of the OS.
    pub language: Option<String>,
    pub thumbwheel_sensitivity: u32,
    pub appearance: Appearance,
    pub theme_light: Option<String>,
    pub theme_dark: Option<String>,
    pub ui_radius: Option<u32>,
    /// Size of the interface, in percent.
    pub ui_scale: u32,
}

/// The preferences of a fresh installation.
pub open spec fn default_settings() -> AppSettings {
    AppSettings {
        launch_at_login: false,
        check_for_updates: false,
        auto_install_updates: false,
        show_in_menu_bar: true,
        capture_mouse_events: true,
        auto_download_assets: true,
        language: None,
        thumbwheel_sensitivity: THUMBWHEEL_SENSITIVITY_DEFAULT,
        appearance: Appearance::System,
        theme_light: None,
        theme_dark: None,
        ui_radius: None,
        ui_scale: UI_SCALE_DEFAULT,
    }
}

impl Default for AppSettings {
    fn default() -> (settings: Self)
        ensures
            settings == default_settings(),
    {
        AppSettings {
            launch_at_login: false,
            check_for_updates: false,
            auto_install_updates: false,
            show_in_menu_bar: true,
            capture_mouse_events: true,
            auto_download_assets: true,
            language: None,
            thumbwheel_sensitivity: THUMBWHEEL_SENSITIVITY_DEFAULT,
            appearance: Appearance::System,
            theme_light: None,
            theme_dark: None,
            ui_radius: None,
            ui_scale: UI_SCALE_DEFAULT,
        }
    }
}

/// A key with its modifiers.
#[derive(Debug, Clone, Copy, PartialEq, Eq, Structural)]
pub struct KeyTrigger {
    /// Number of the function key.
    pub key: u8,
    /// Modifier bits.
    pub modifiers: u8,
}

impl KeyTrigger {
    /// A number that stands for the trigger.
    #[verifier::allow_in_spec]
    pub fn code(self) -> u16
        returns
            (self.key as u16 * 256 + self.modifiers as u16) as u16,
    {
        self.key as u16 * 256 + self.modifiers as u16
    }
}

/// Different triggers have different numbers.
pub proof fn lemma_codes_are_distinct(a: KeyTrigger, b: KeyTrigger)
    requires
        a.code() == b.code(),
    ensures
        a == b,
{
}

/// Key remappings, by the trigger's number.
pub struct KeyboardConfig<A> {
    pub bindings: BTreeMap<u16, A>,
}

/// The configuration. `A` is what a key can be bound to, `D` what is kept per
/// device.
pub struct Config<A, D> {
    /// The layout the file was written with.
    pub schema_version: u32,
    pub app_settings: AppSettings,
    /// Key of the device that was last shown.
    pub selected_device: Option<String>,
    /// Whether the configuration is never written to disk.
    pub ephemeral: bool,
    /// Per-device state, by the device's key. No key occurs twice.
    pub devices: Vec<(String, D)>,
    pub keyboard: KeyboardConfig<A>,
}

/// Whether no key occurs twice in `devices`.
pub open spec fn distinct_keys<D>(devices: Seq<(String, D)>) -> bool {
    forall|i: int, j: int|
        0 <= i < j < devices.len() ==> (#[trigger] devices[i]).0@ != (#[trigger] devices[j]).0@
}

impl<A, D> Config<A, D> {
    /// Every device has one state.
    pub open spec fn wf(&self) -> bool {
        distinct_keys(self.devices@)
    }

    /// Whether the configuration is that of a fresh installation.
    pub open spec fn is_fresh(&self) -> bool {
        &&& self.schema_version == SCHEMA_VERSION
        &&& self.app_settings == default_settings()
        &&& self.selected_device is None
        &&& self.devices@ == Seq::<(String, D)>::empty()
        &&& self.keyboard.bindings@ == Map::<u16, A>::empty()
    }
}

impl<A, D> Default for Config<A, D> {
    fn default() -> (config: Self)
        ensures
            config.wf(),
            config.is_fresh(),
            !config.ephemeral,
    {
        Config {
            schema_version: SCHEMA_VERSION,
            app_settings: AppSettings::default(),
            selected_device: None,
            ephemeral: false,
            devices: Vec::new(),
            keyboard: KeyboardConfig { bindings: BTreeMap::new() },
        }
    }
}

impl<A, D> Config<A, D> {
    /// A configuration that is never written to disk.
    pub fn ephemeral() -> (config: Self)
        ensures
            config.wf(),
            config.is_fresh(),
            config.ephemeral,
    {
        let mut config = Self::default();
        config.ephemeral = true;
        config
    }

    /// Whether saving writes to disk.
    pub fn is_saved(&self) -> (saved: bool)
        ensures
            saved == !self.ephemeral,
    {
        !self.ephemeral
    }

    /// Bind a key on every keyboard, or clear its binding.
    pub fn set_keyboard_binding(&mut self, trigger: KeyTrigger, action: Option<A>)
        requires
            old(self).wf(),
        ensures
            final(self).wf(),
            final(self).keyboard.bindings@ == match action {
                Some(action) => old(self).keyboard.bindings@.insert(trigger.code(), action),
                None => old(self).keyboard.bindings@.remove(trigger.code()),
            },
            *final(self) == (Config { keyboard: final(self).keyboard, ..*old(self) }),
    {
        match action {
            Some(action) => {
                self.keyboard.bindings.insert(trigger.code(), action);
            },
            None => {
                self.keyboard.bindings.remove(&trigger.code());
            },
        }
    }

    /// The key bindings, by the trigger's number.
    pub fn keyboard_bindings(&self) -> (bindings: &BTreeMap<u16, A>)
        ensures
            *bindings == self.keyboard.bindings,
    {
        &self.keyboard.bindings
    }

    /// Key of the device that was last shown.
    pub fn selected_device(&self) -> (key: Option<&str>)
        ensures
            match (key, self.selected_device) {
                (Some(key), Some(selected)) => key@ == selected@,
                (None, None) => true,
                _ => false,
            },
    {
        match &self.selected_device {
            Some(selected) => Some(selected.as_str()),
            None => None,
        }
    }

    /// Note the device that is shown, or that none is.
    pub fn set_selected_device(&mut self, key: Option<String>)
        requires
            old(self).wf(),
        ensures
            final(self).wf(),
            *final(self) == (Config { selected_device: key, ..*old(self) }),
    {
        self.selected_device = key;
    }
}

/// Binding a key leaves every other key as it was.
pub proof fn lemma_bindings_do_not_interfere<A>(
    bindings: Map<u16, A>,
    bound: KeyTrigger,
    action: A,
    other: KeyTrigger,
)
    requires
        bound != other,
    ensures
        bindings.insert(bound.code(), action).contains_key(other.code()) == bindings.contains_key(
            other.code(),
        ),
        bindings.contains_key(other.code()) ==> bindings.insert(bound.code(), action)[other.code()]
            == bindings[other.code()],
        bindings.remove(bound.code()).contains_key(other.code()) == bindings.contains_key(
            other.code(),
        ),
{
    if bound.code() == other.code() {
        lemma_codes_are_distinct(bound, other);
    }
}

} // verus!
