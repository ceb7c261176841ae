use hypr_kblayoutd::config::{
    load_optional, parse, Config, ConfigError, ConfigFile, RawConfig, RawKeyboardConfig,
};

fn strings(value: &toml::Value) -> Vec<String> {
    let list = value.as_array().unwrap();
    list.iter().map(|item| item.as_str().unwrap().to_string()).collect()
}

fn entries(value: &toml::Value) -> Vec<(String, u16)> {
    let table = value.as_table().unwrap();
    table
        .iter()
        .map(|(key, index)| (key.clone(), index.as_integer().unwrap() as u16))
        .collect()
}

/// Reads a configuration file's text.
fn read(input: &str) -> RawConfig {
    let table = input.parse::<toml::Table>().unwrap();
    RawConfig {
        keyboards: table.get("keyboards").map(|keyboards| RawKeyboardConfig {
            include_names: keyboards.get("include").map(strings).unwrap_or_default(),
            exclude_contains: keyboards.get("exclude_contains").map(strings),
        }),
        default_layouts: table.get("default_layouts").map(entries),
        layer_layouts: table.get("layer_layouts").map(entries),
    }
}

fn load(path: &str) -> Result<Config, ConfigError> {
    assert!(!std::path::Path::new(path).exists());
    load_optional(ConfigFile::Missing)
}

#[test]
fn missing_config_uses_defaults() {
    let cfg = load("/tmp/path-that-should-not-exist-hpwl.toml").unwrap();
    assert!(cfg.keyboards.include_names.is_empty());
    assert!(cfg.keyboards.is_excluded("wlr_virtual_keyboard_v1"));
    assert!(cfg.keyboards.is_excluded("my-yubikey"));
    assert!(cfg.default_layouts.is_empty());
}

#[test]
fn parses_v2_config() {
    let cfg = parse(read(
        r#"
            [keyboards]
            include = ["keychron-keychron-k2"]
            exclude_contains = ["virtual"]

            [default_layouts]
            "org.telegram.desktop" = 1
            "firefox" = 0
        "#,
    ))
    .unwrap();

    assert_eq!(cfg.keyboards.include_names, ["keychron-keychron-k2"]);
    assert!(cfg.keyboards.is_excluded("my-virtual-keyboard"));
    assert_eq!(cfg.default_layouts.get("org.telegram.desktop"), Some(1));
    assert_eq!(cfg.default_layouts.get("firefox"), Some(0));
}

#[test]
fn default_excludes_are_used_when_keyboard_section_is_empty() {
    let cfg = parse(read(
        r#"
                [default_layouts]
                "discord" = 1
            "#,
    ))
    .unwrap();

    assert!(cfg.keyboards.is_excluded("wlr_virtual_keyboard_v2"));
    assert_eq!(cfg.default_layouts.get("discord"), Some(1));
}
