//! Settings of the displays, in the configuration file's `[display]` section.
use vstd::prelude::*;
use vstd::string::*;

use crate::config::{read_setting, toml_setting, Setting, SettingView};

verus! {

pub struct DisplayConfig {
    /// Whether a display without variable refresh may switch modes by itself.
    pub adaptive_refresh_rate: bool,
}

impl Default for DisplayConfig {
    fn default() -> (r: Self)
        ensures
            r.adaptive_refresh_rate == false,
    {
        DisplayConfig { adaptive_refresh_rate: false }
    }
}

impl DisplayConfig {
    /// The setting after a value was read for it: a boolean replaces it, and
    /// anything else leaves it as it was.
    pub fn apply(&mut self, setting: Setting) -> (r: bool)
        ensures
            final(self).adaptive_refresh_rate == match setting@ {
                SettingView::Bool(value) => value,
                _ => old(self).adaptive_refresh_rate,
            },
            r == (setting@ is Missing || setting@ is Bool),
    {
        match setting {
            Setting::Missing => true,
            Setting::Bool(value) => {
                self.adaptive_refresh_rate = value;
                true
            },
            Setting::Text(_) => false,
            Setting::Other => false,
        }
    }

    /// Applies what the `[display]` section of a configuration file says. A file
    /// that cannot be used changes nothing, and is answered with `false`.
    pub fn apply_toml_overrides(config: &mut DisplayConfig, contents: &str) -> (r: bool)
        ensures
            final(config).adaptive_refresh_rate == match toml_setting(contents@, "display"@, "adaptive-refresh-rate"@) {
                Some(SettingView::Bool(value)) => value,
                _ => old(config).adaptive_refresh_rate,
            },
            r == match toml_setting(contents@, "display"@, "adaptive-refresh-rate"@) {
                Some(setting) => setting is Missing || setting is Bool,
                None => false,
            },
    {
        match read_setting(contents, "display", "adaptive-refresh-rate") {
            Ok(setting) => config.apply(setting),
            Err(_) => false,
        }
    }

    /// The settings that a configuration file's text gives.
    pub fn load(contents: &str) -> (r: Self)
        ensures
            r.adaptive_refresh_rate == match toml_setting(contents@, "display"@, "adaptive-refresh-rate"@) {
                Some(SettingView::Bool(value)) => value,
                _ => false,
            },
    {
        let mut config = DisplayConfig::default();
        DisplayConfig::apply_toml_overrides(&mut config, contents);
        config
    }
}

} // verus!
