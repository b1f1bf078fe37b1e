use mudhuts::chrome_config::ChromeConfig;
use mudhuts::config::{as_setting, config_path, in_config_dir, read_section, read_setting, take_entry, Parts, Setting};
use mudhuts::display_config::DisplayConfig;
use mudhuts::portal::settings::{
    namespace_matches, parse_color_scheme, ReadError, SettingsBackend, NO_PREFERENCE, PREFER_DARK,
    PREFER_LIGHT,
};

#[test]
fn defaults_to_enabled_with_no_config_section() {
    let mut config = ChromeConfig::default();
    ChromeConfig::apply_toml_overrides(&mut config, "");
    assert!(config.auto_hide_tab_strip);
}

#[test]
fn disables_via_the_chrome_section() {
    let mut config = ChromeConfig::default();
    ChromeConfig::apply_toml_overrides(&mut config, "[chrome]\nauto-hide-tab-strip = false\n");
    assert!(!config.auto_hide_tab_strip);
}

#[test]
fn chrome_config_malformed_toml_leaves_the_default_in_place() {
    let mut config = ChromeConfig::default();
    assert!(!ChromeConfig::apply_toml_overrides(&mut config, "not valid toml [[["));
    assert!(config.auto_hide_tab_strip);
}

#[test]
fn defaults_to_disabled_with_no_config_section() {
    let mut config = DisplayConfig::default();
    DisplayConfig::apply_toml_overrides(&mut config, "");
    assert!(!config.adaptive_refresh_rate);
}

#[test]
fn enables_via_the_display_section() {
    let mut config = DisplayConfig::default();
    DisplayConfig::apply_toml_overrides(&mut config, "[display]\nadaptive-refresh-rate = true\n");
    assert!(config.adaptive_refresh_rate);
}

#[test]
fn display_config_malformed_toml_leaves_the_default_in_place() {
    let mut config = DisplayConfig::default();
    DisplayConfig::apply_toml_overrides(&mut config, "not valid toml [[[");
    assert!(!config.adaptive_refresh_rate);
}

#[test]
fn a_setting_of_the_wrong_type_leaves_the_default_in_place() {
    let mut config = ChromeConfig::default();
    assert!(!ChromeConfig::apply_toml_overrides(&mut config, "[chrome]\nauto-hide-tab-strip = 3\n"));
    assert!(config.auto_hide_tab_strip);
    assert!(!ChromeConfig::load("[chrome]\nauto-hide-tab-strip = false\n").auto_hide_tab_strip);
    assert!(DisplayConfig::load("[display]\nadaptive-refresh-rate = true\n").adaptive_refresh_rate);
}

#[test]
fn the_file_is_looked_for_under_the_configuration_directory() {
    let some = |s: &str| Some(s.to_string());
    assert_eq!(config_path(&some("/x"), &some("/home/u")), some("/x/mudhuts/config.toml"));
    assert_eq!(config_path(&None, &some("/home/u")), some("/home/u/.config/mudhuts/config.toml"));
    assert_eq!(config_path(&None, &None), None);
    assert_eq!(in_config_dir(&some("/x"), &None, "a", ".config/a"), some("/x/a"));
}

#[test]
fn defaults_to_dark_with_no_config_section() {
    assert_eq!(parse_color_scheme(""), PREFER_DARK);
}

#[test]
fn reads_dark_light_and_no_preference() {
    assert_eq!(parse_color_scheme("[appearance]\ncolor-scheme = \"dark\"\n"), PREFER_DARK);
    assert_eq!(parse_color_scheme("[appearance]\ncolor-scheme = \"light\"\n"), PREFER_LIGHT);
    assert_eq!(parse_color_scheme("[appearance]\ncolor-scheme = \"no-preference\"\n"), NO_PREFERENCE);
}

#[test]
fn unknown_value_falls_back_to_dark() {
    assert_eq!(parse_color_scheme("[appearance]\ncolor-scheme = \"midnight\"\n"), PREFER_DARK);
}

#[test]
fn malformed_toml_falls_back_to_dark() {
    assert_eq!(parse_color_scheme("not valid toml [[["), PREFER_DARK);
}

#[test]
fn settings_are_read_by_namespace_and_key() {
    let settings = SettingsBackend::load("[appearance]\ncolor-scheme = \"light\"\n");
    let namespace = "org.freedesktop.appearance";
    assert_eq!(settings.read(namespace, "color-scheme"), Ok(PREFER_LIGHT));
    assert_eq!(settings.read(namespace, "nothing"), Err(ReadError::UnknownKey));
    assert_eq!(settings.read("org.other", "color-scheme"), Err(ReadError::UnknownNamespace));
    let all = settings.read_all(&vec![]);
    assert_eq!(all.len(), 3);
    for entry in &all {
        assert_eq!(settings.read(&entry.namespace, &entry.key).ok(), Some(entry.value));
    }
    assert_eq!((all[0].key.as_str(), all[0].value), ("color-scheme", settings.color_scheme));
    assert_eq!(settings.read_all(&vec!["org.freedesktop.*".to_string()]).len(), 3);
    assert!(settings.read_all(&vec!["org.gnome.*".to_string()]).is_empty());
}

#[test]
fn a_trailing_star_matches_by_prefix() {
    assert!(namespace_matches("org.freedesktop.*", "org.freedesktop.appearance"));
    assert!(!namespace_matches("", "org.freedesktop.appearance"));
    assert!(namespace_matches("*", "org.freedesktop.appearance"));
    assert!(namespace_matches("org.freedesktop.appearance", "org.freedesktop.appearance"));
    assert!(!namespace_matches("org.freedesktop", "org.freedesktop.appearance"));
}

#[test]
fn a_section_may_be_an_array_of_its_values() {
    assert!(!ChromeConfig::load("chrome = [false]\n").auto_hide_tab_strip);
    assert!(!ChromeConfig::load("chrome = [false, 3]\n").auto_hide_tab_strip);
    assert!(DisplayConfig::load("display = [true]\n").adaptive_refresh_rate);
    assert_eq!(parse_color_scheme("appearance = [\"light\"]\n"), PREFER_LIGHT);
    let mut config = ChromeConfig::default();
    assert!(ChromeConfig::apply_toml_overrides(&mut config, "chrome = []\n"));
    assert!(ChromeConfig::apply_toml_overrides(&mut config, "chrome = 2020-01-01\n"));
    assert!(!ChromeConfig::apply_toml_overrides(&mut config, "chrome = [3]\n"));
    assert!(!ChromeConfig::apply_toml_overrides(&mut config, "[[chrome]]\nauto-hide-tab-strip = false\n"));
    assert!(config.auto_hide_tab_strip);
    let one = Parts::Array(vec![toml::Value::Boolean(true)]);
    assert!(matches!(read_section(one, "any"), Setting::Bool(true)));
    assert!(matches!(read_section(Parts::Array(Vec::new()), "any"), Setting::Missing));
    assert!(matches!(read_section(Parts::Boolean(true), "any"), Setting::Other));
}

#[test]
fn a_setting_is_looked_up_in_its_table() {
    let text = "top = 1\n[a]\nyes = true\nname = \"x\"\nlist = [1]\nwhen = 2020-01-01\nhalf = 0.5\n[a.b]\nc = 1\n";
    assert!(matches!(read_setting(text, "a", "yes"), Ok(Setting::Bool(true))));
    assert!(matches!(read_setting(text, "a", "name"), Ok(Setting::Text(ref s)) if s == "x"));
    assert!(matches!(read_setting(text, "a", "list"), Ok(Setting::Other)));
    assert!(matches!(read_setting(text, "a", "when"), Ok(Setting::Other)));
    assert!(matches!(read_setting(text, "a", "half"), Ok(Setting::Other)));
    assert!(matches!(read_setting(text, "a", "b"), Ok(Setting::Other)));
    assert!(matches!(read_setting(text, "a", "no"), Ok(Setting::Missing)));
    assert!(matches!(read_setting(text, "b", "yes"), Ok(Setting::Missing)));
    assert!(matches!(read_setting(text, "top", "yes"), Ok(Setting::Other)));
    assert!(read_setting("a = ", "a", "yes").is_err());
    assert!(matches!(as_setting(Parts::Boolean(false)), Setting::Bool(false)));
    assert!(matches!(as_setting(Parts::Integer(1)), Setting::Other));
    let entries = vec![
        ("k".to_string(), toml::Value::Integer(1)),
        ("k".to_string(), toml::Value::Integer(2)),
    ];
    assert_eq!(take_entry(entries, "k"), Some(toml::Value::Integer(1)), "the first one");
    assert_eq!(take_entry(Vec::new(), "k"), None);
}
