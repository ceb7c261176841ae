use hypr_kblayoutd::config::{
    default_config_path, layout_index_message, load_default, load_optional, parse, Config,
    ConfigError, ConfigFile, RawConfig, RawKeyboardConfig,
};
use hypr_kblayoutd::daemon::can_switch;
use hypr_kblayoutd::ipc::{
    missing_keyboard_message, ActiveWindowResponse, DevicesResponse, HyprlandIpc, HyprlandPaths,
    IpcError, KeyboardResponse, LayersResponse, MonitorLayers, OptionResponse, Query,
};
use hypr_kblayoutd::single_instance::{
    AcquireStep, BindOutcome, SingleInstance, SingleInstanceError,
};
use hypr_kblayoutd::state::WindowAddr;

fn ipc() -> HyprlandIpc {
    let signature = Some("abc".to_string());
    HyprlandIpc::new(HyprlandPaths::discover(signature, None, false).unwrap())
}

fn option(value: &str, set: bool) -> OptionResponse {
    OptionResponse {
        str: value.to_string(),
        set,
    }
}

fn devices(list: &[(&str, u64, bool)]) -> DevicesResponse {
    DevicesResponse {
        keyboards: list
            .iter()
            .map(|(name, active_layout_index, main)| KeyboardResponse {
                name: (*name).to_string(),
                active_layout_index: *active_layout_index,
                main: *main,
            })
            .collect(),
    }
}

fn raw(classes: &[(&str, u16)], layers: &[(&str, u16)]) -> RawConfig {
    let table = |entries: &[(&str, u16)]| {
        let list = entries.iter();
        Some(list.map(|(key, value)| ((*key).to_string(), *value)).collect())
    };
    RawConfig {
        keyboards: None,
        default_layouts: table(classes),
        layer_layouts: table(layers),
    }
}

#[test]
fn layouts_are_counted() {
    for (value, count) in [
        ("", 0),
        ("[[EMPTY]]", 0),
        ("us", 1),
        ("us,th", 2),
        ("us,,th", 2),
        (" us , \t, th ,", 2),
        (",", 0),
        ("\u{2003},us", 1),
    ] {
        assert_eq!(
            ipc().configured_layout_count(&option(value, false)),
            count,
            "{value:?}"
        );
    }
}

#[test]
fn a_keymap_file_stands_for_layouts() {
    assert!(ipc().kb_file_is_set(&option("[[EMPTY]]", true)));
    assert!(ipc().kb_file_is_set(&option("/etc/map", false)));
    assert!(ipc().kb_file_is_set(&option("", false)));
    assert!(!ipc().kb_file_is_set(&option("[[EMPTY]]", false)));
    assert!(can_switch(2, false));
    assert!(can_switch(0, true));
    assert!(!can_switch(1, false));
}

#[test]
fn the_layout_of_a_named_keyboard_is_found() {
    let reply = devices(&[("a", 1, false), ("b", 2, true), ("b", 3, false), ("c", 256, false)]);
    let layout = |name: &str| ipc().active_layout_for_keyboard(&reply, name);
    assert_eq!(layout("a").unwrap(), 1);
    assert_eq!(layout("b").unwrap(), 2);
    assert!(matches!(layout("c"), Err(IpcError::InvalidLayoutIndex(256))));
    assert!(matches!(layout("d"), Err(IpcError::MissingKeyboard(name)) if name == "d"));
}

#[test]
fn the_main_keyboard_comes_first_and_else_the_first_one() {
    let with_main = devices(&[("a", 1, false), ("b", 2, true), ("c", 3, true)]);
    assert_eq!(ipc().initial_active_layout(&with_main).unwrap(), 2);
    assert_eq!(
        ipc().current_active_keyboard(&with_main).unwrap(),
        ("b".to_string(), 2)
    );
    let without_main = devices(&[("a", 1, false), ("b", 2, false)]);
    assert_eq!(ipc().initial_active_layout(&without_main).unwrap(), 1);
    assert_eq!(
        ipc().current_active_keyboard(&without_main).unwrap(),
        ("a".to_string(), 1)
    );
    let too_large = devices(&[("a", 300, false)]);
    assert!(matches!(
        ipc().initial_active_layout(&too_large),
        Err(IpcError::InvalidLayoutIndex(300))
    ));
    assert!(matches!(
        ipc().current_active_keyboard(&too_large),
        Err(IpcError::InvalidLayoutIndex(300))
    ));
    assert!(matches!(
        ipc().initial_active_layout(&devices(&[])),
        Err(IpcError::MissingKeyboard(name)) if name == "<any>"
    ));
    assert!(matches!(
        ipc().current_active_keyboard(&devices(&[])),
        Err(IpcError::MissingKeyboard(name)) if name == "<any>"
    ));
}

#[test]
fn the_active_window_may_be_missing() {
    let reply = |address: Option<&str>| {
        ipc().active_window(ActiveWindowResponse {
            address: address.map(str::to_string),
            class_name: "foot".to_string(),
        })
    };
    assert_eq!(reply(None).unwrap(), None);
    assert_eq!(
        reply(Some("0x1f")).unwrap(),
        Some((WindowAddr(0x1f), "foot".to_string()))
    );
    assert!(matches!(
        reply(Some("window")),
        Err(IpcError::InvalidWindowAddress(address)) if address == "window"
    ));
}

#[test]
fn the_addresses_of_all_windows_are_read() {
    let list = ["0x1", "2", "0xff"].map(str::to_string);
    assert_eq!(
        ipc().client_addresses(&list).unwrap(),
        [WindowAddr(1), WindowAddr(2), WindowAddr(255)]
    );
    assert_eq!(ipc().client_addresses(&[]).unwrap(), []);
    let list = ["0x1", "x", "y"].map(str::to_string);
    assert!(matches!(
        ipc().client_addresses(&list),
        Err(IpcError::InvalidWindowAddress(address)) if address == "x"
    ));
}

#[test]
fn the_layers_of_all_monitors_are_listed() {
    let level = |names: &[&str]| -> Vec<String> {
        names.iter().map(|name| (*name).to_string()).collect()
    };
    let reply = LayersResponse {
        monitors: vec![
            MonitorLayers {
                levels: vec![level(&["wallpaper"]), level(&[]), level(&["waybar", "rofi"])],
            },
            MonitorLayers { levels: vec![] },
            MonitorLayers {
                levels: vec![level(&["rofi"])],
            },
        ],
    };
    assert_eq!(
        ipc().mapped_layer_namespaces(&reply),
        ["wallpaper", "waybar", "rofi", "rofi"]
    );
}

#[test]
fn requests_go_to_the_command_socket() {
    let request = ipc().switch_layout("kbd", 12);
    assert_eq!(request.socket, b"/tmp/hypr/abc/.socket.sock");
    assert_eq!(request.payload, "switchxkblayout kbd 12");
    assert_eq!(ipc().command("reload").payload, "reload");
    for (query, text) in [
        (Query::KbLayout, "j/getoption input:kb_layout"),
        (Query::KbFile, "j/getoption input:kb_file"),
        (Query::Devices, "j/devices"),
        (Query::ActiveWindow, "j/activewindow"),
        (Query::Clients, "j/clients"),
        (Query::Layers, "j/layers"),
    ] {
        assert_eq!(ipc().json_command(query).payload, text);
        assert_eq!(ipc().json_command(query).socket, ipc().paths().command_socket);
    }
}

#[test]
fn sockets_are_looked_for_in_the_runtime_directory_and_else_in_tmp() {
    let signature = || Some("abc".to_string());
    let runtime: Option<&[u8]> = Some(b"/run/user/1000");
    assert_eq!(
        HyprlandPaths::runtime_socket(b"/run/user/1000", "abc"),
        b"/run/user/1000/hypr/abc/.socket.sock"
    );
    let found = HyprlandPaths::discover(signature(), runtime, true).unwrap();
    assert_eq!(found.signature, "abc");
    assert_eq!(found.command_socket, b"/run/user/1000/hypr/abc/.socket.sock");
    assert_eq!(found.event_socket, b"/run/user/1000/hypr/abc/.socket2.sock");
    for missing in [
        HyprlandPaths::discover(signature(), runtime, false),
        HyprlandPaths::discover(signature(), None, true),
    ] {
        assert_eq!(missing.unwrap().event_socket, b"/tmp/hypr/abc/.socket2.sock");
    }
    assert!(matches!(
        HyprlandPaths::discover(None, runtime, true),
        Err(IpcError::MissingHyprlandSignature)
    ));
}

#[test]
fn errors_of_the_socket_are_told() {
    for (error, message) in [
        (
            IpcError::MissingHyprlandSignature,
            "HYPRLAND_INSTANCE_SIGNATURE is not set",
        ),
        (IpcError::Io("refused".to_string()), "Hyprland IPC error: refused"),
        (
            IpcError::Json("at line 1".to_string()),
            "failed to parse Hyprland JSON: at line 1",
        ),
        (
            IpcError::MissingKeyboard("my \"kbd\"\n".to_string()),
            "keyboard \"my \\\"kbd\\\"\\n\" was not found",
        ),
        (
            IpcError::InvalidLayoutIndex(256),
            "Hyprland returned layout index 256, which is too large",
        ),
        (
            IpcError::InvalidWindowAddress("x".to_string()),
            "Hyprland returned window address x, which is not hexadecimal",
        ),
    ] {
        assert_eq!(error.message(), message);
    }
    assert_eq!(missing_keyboard_message("\"a\""), "keyboard \"a\" was not found");
}

#[test]
fn errors_of_the_configuration_are_told() {
    for (error, message) in [
        (
            ConfigError::Io("denied".to_string()),
            "failed to read config: denied",
        ),
        (
            ConfigError::Parse("at line 1".to_string()),
            "failed to parse config: at line 1",
        ),
        (
            ConfigError::InvalidLayoutIndex {
                class_name: "fire\"fox".to_string(),
                value: 65535,
            },
            "layout index 65535 for class \"fire\\\"fox\" is too large",
        ),
    ] {
        assert_eq!(error.message(), message);
    }
    assert_eq!(
        layout_index_message("'a'", 300),
        "layout index 300 for class 'a' is too large"
    );
}

#[test]
fn layout_tables_are_read_entry_by_entry() {
    let cfg = parse(raw(&[("b", 255), ("a", 0), ("b", 1)], &[("rofi", 2)])).unwrap();
    assert_eq!(cfg.default_layouts.len(), 2);
    assert_eq!(cfg.default_layouts.get("b"), Some(1));
    assert_eq!(cfg.default_layouts.get("a"), Some(0));
    assert_eq!(cfg.layer_layouts.get("rofi"), Some(2));
    assert!(!cfg.keyboards.is_configured());
}

#[test]
fn a_layout_index_that_does_not_fit_is_named() {
    let error = |classes: &[(&str, u16)], layers: &[(&str, u16)]| {
        match load_optional(ConfigFile::Tables(raw(classes, layers))) {
            Err(ConfigError::InvalidLayoutIndex { class_name, value }) => (class_name, value),
            other => panic!("unexpected: {other:?}"),
        }
    };
    assert_eq!(error(&[("a", 256)], &[]), ("a".to_string(), 256));
    assert_eq!(error(&[("a", 1), ("b", 300), ("c", 400)], &[]).0, "b");
    assert_eq!(error(&[("a", 1)], &[("rofi", 999)]), ("rofi".to_string(), 999));
    assert_eq!(error(&[("a", 256)], &[("rofi", 999)]).0, "a");
}

#[test]
fn a_file_that_says_nothing_is_like_no_file() {
    let empty = RawConfig {
        keyboards: None,
        default_layouts: None,
        layer_layouts: None,
    };
    assert_eq!(parse(empty).unwrap(), Config::default());
    assert_eq!(load_optional(ConfigFile::Missing).unwrap(), Config::default());
    let keyboards = RawConfig {
        keyboards: Some(RawKeyboardConfig {
            include_names: vec!["kbd".to_string()],
            exclude_contains: Some(Vec::new()),
        }),
        default_layouts: None,
        layer_layouts: None,
    };
    let cfg = parse(keyboards).unwrap();
    assert!(cfg.keyboards.is_configured());
    assert!(!cfg.keyboards.is_excluded("yubikey"));
}

#[test]
fn the_configuration_file_is_looked_for_in_two_places() {
    let xdg: Option<&[u8]> = Some(b"/xdg");
    let home: Option<&[u8]> = Some(b"/home/me/");
    let path = |path: &[u8]| Some(path.to_vec());
    assert_eq!(
        default_config_path(xdg, home),
        path(b"/xdg/hypr-kblayoutd/config.toml")
    );
    assert_eq!(
        default_config_path(None, home),
        path(b"/home/me/.config/hypr-kblayoutd/config.toml")
    );
    assert_eq!(default_config_path(None, None), None);
}

#[test]
fn what_is_at_the_path_decides_the_configuration() {
    let xdg: Option<&[u8]> = Some(b"/xdg");
    let home: Option<&[u8]> = Some(b"/home/me");
    let tables = || ConfigFile::Tables(raw(&[("foot", 1)], &[]));
    for (xdg, home) in [(xdg, None), (None, home), (xdg, home)] {
        let cfg = load_default(xdg, home, tables()).unwrap();
        assert_eq!(cfg.default_layouts.get("foot"), Some(1));
        assert_eq!(
            load_default(xdg, home, ConfigFile::Missing).unwrap(),
            Config::default()
        );
        assert!(matches!(
            load_default(xdg, home, ConfigFile::Unreadable("denied".to_string())),
            Err(ConfigError::Io(reason)) if reason == "denied"
        ));
        assert!(matches!(
            load_default(xdg, home, ConfigFile::Malformed("line 1".to_string())),
            Err(ConfigError::Parse(reason)) if reason == "line 1"
        ));
        assert!(matches!(
            load_default(xdg, home, ConfigFile::Tables(raw(&[("foot", 256)], &[]))),
            Err(ConfigError::InvalidLayoutIndex { value: 256, .. })
        ));
    }
    assert_eq!(load_default(None, None, tables()).unwrap(), Config::default());
    let denied = ConfigFile::Unreadable("denied".to_string());
    assert_eq!(load_default(None, None, denied).unwrap(), Config::default());
}

#[test]
fn the_guard_is_bound_at_most_twice() {
    assert!(matches!(
        SingleInstance::acquire(None, "x"),
        Err(SingleInstanceError::MissingRuntimeDir)
    ));
    let guard = SingleInstance::acquire(Some(b"/run"), "hypr-kblayoutd-abc").unwrap();
    assert_eq!(guard.path(), b"/run/hypr-kblayoutd-abc.sock");
    assert!(matches!(
        guard.bind_finished(BindOutcome::Bound, false),
        AcquireStep::Held
    ));
    let in_use = || BindOutcome::AddressInUse("in use".to_string());
    assert!(matches!(
        guard.bind_finished(in_use(), false),
        AcquireStep::ProbeSocket
    ));
    assert!(matches!(
        guard.probe_finished(true),
        AcquireStep::Refused(SingleInstanceError::AlreadyRunning)
    ));
    assert!(matches!(guard.probe_finished(false), AcquireStep::RemoveStale));
    assert!(matches!(guard.removal_finished(None), AcquireStep::BindAgain));
    assert!(matches!(
        guard.removal_finished(Some("denied".to_string())),
        AcquireStep::Refused(SingleInstanceError::Io(err)) if err == "denied"
    ));
    assert!(matches!(
        guard.bind_finished(in_use(), true),
        AcquireStep::Refused(SingleInstanceError::Io(err)) if err == "in use"
    ));
    for again in [false, true] {
        assert!(matches!(
            guard.bind_finished(BindOutcome::Failed("denied".to_string()), again),
            AcquireStep::Refused(SingleInstanceError::Io(err)) if err == "denied"
        ));
    }
}

#[test]
fn errors_of_the_guard_are_told() {
    for (error, message) in [
        (SingleInstanceError::MissingRuntimeDir, "XDG_RUNTIME_DIR is not set"),
        (
            SingleInstanceError::AlreadyRunning,
            "another instance is already running",
        ),
        (
            SingleInstanceError::Io("denied".to_string()),
            "single-instance guard failed: denied",
        ),
    ] {
        assert_eq!(error.message(), message);
    }
}
