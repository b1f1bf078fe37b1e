//! Settings of the on-screen chrome, in the configuration file's `[chrome]` section.
use vstd::prelude::*;
use vstd::string::*;

use crate::config::{read_setting, toml_setting, Setting, SettingView};

verus! {

pub struct ChromeConfig {
    /// Whether the tab strips stay hidden until the pointer touches the top edge.
    pub auto_hide_tab_strip: bool,
}

impl Default for ChromeConfig {
    fn default() -> (r: Self)
        ensures
            r.auto_hide_tab_strip == true,
    {
        ChromeConfig { auto_hide_tab_strip: true }
    }
}

impl ChromeConfig {
    /// The setting after a value was read for it: a boolean replaces it, and
    /// anything else leaves it as it was.
    pub fn apply(&mut self, setting: Setting) -> (r: bool)
        ensures
            final(self).auto_hide_tab_strip == match setting@ {
                SettingView::Bool(value) => value,
                _ => old(self).auto_hide_tab_strip,
            },
            r == (setting@ is Missing || setting@ is Bool),
    {
        match setting {
            Setting::Missing => true,
            Setting::Bool(value) => {
                self.auto_hide_tab_strip = value;
                true
            },
            Setting::Text(_) => false,
            Setting::Other => false,
        }
    }

    /// Applies what the `[chrome]` section of a configuration file says. A file
    /// that cannot be used changes nothing, and is answered with `false`.
    pub fn apply_toml_overrides(config: &mut ChromeConfig, contents: &str) -> (r: bool)
        ensures
            final(config).auto_hide_tab_strip == match toml_setting(contents@, "chrome"@, "auto-hide-tab-strip"@) {
                Some(SettingView::Bool(value)) => value,
                _ => old(config).auto_hide_tab_strip,
            },
            r == match toml_setting(contents@, "chrome"@, "auto-hide-tab-strip"@) {
                Some(setting) => setting is Missing || setting is Bool,
                None => false,
            },
    {
        match read_setting(contents, "chrome", "auto-hide-tab-strip") {
            Ok(setting) => config.apply(setting),
            Err(_) => false,
        }
    }

    /// The settings that a configuration file's text gives.
    pub fn load(contents: &str) -> (r: Self)
        ensures
            r.auto_hide_tab_strip == match toml_setting(contents@, "chrome"@, "auto-hide-tab-strip"@) {
                Some(SettingView::Bool(value)) => value,
                _ => true,
            },
    {
        let mut config = ChromeConfig::default();
        ChromeConfig::apply_toml_overrides(&mut config, contents);
        config
    }
}

} // verus!
