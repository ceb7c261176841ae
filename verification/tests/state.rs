use hypr_kblayoutd::config::{Config, KeyboardConfig};
use hypr_kblayoutd::event::Event;
use hypr_kblayoutd::state::{Action, LayoutIndex, RuntimeState, WindowAddr};
use hypr_kblayoutd::string_map::StringMap;

fn table(entries: &[(&str, LayoutIndex)]) -> StringMap<LayoutIndex> {
    let mut table = StringMap::new();
    for (key, layout) in entries {
        table.insert((*key).to_string(), *layout);
    }
    table
}

fn config(names: &[&str], defaults: &[(&str, LayoutIndex)]) -> Config {
    Config {
        keyboards: KeyboardConfig {
            include_names: names.iter().map(|s| (*s).to_string()).collect(),
            exclude_contains: vec!["virtual".to_string(), "yubikey".to_string()],
        },
        default_layouts: table(defaults),
        layer_layouts: StringMap::new(),
    }
}

fn layer_config(layers: &[(&str, LayoutIndex)]) -> Config {
    Config {
        layer_layouts: table(layers),
        ..config(&["kbd"], &[])
    }
}

fn switch(layout: LayoutIndex, previous: LayoutIndex) -> Vec<Action> {
    vec![Action::SwitchLayout {
        keyboards: vec!["kbd".to_string()],
        layout,
        previous,
    }]
}

fn layer_snapshot(namespaces: &[&str]) -> Vec<String> {
    namespaces
        .iter()
        .map(|namespace| (*namespace).to_string())
        .collect()
}

#[test]
fn new_window_uses_class_default() {
    let mut state = RuntimeState::new(config(&["kbd"], &[("firefox", 1)]), 0);
    state.handle_event(Event::ActiveWindow {
        class_name: "firefox",
    });

    assert_eq!(
        state.handle_event(Event::ActiveWindowV2 {
            addr: WindowAddr(1)
        }),
        vec![Action::SwitchLayout {
            keyboards: vec!["kbd".to_string()],
            layout: 1,
            previous: 0
        }]
    );
    assert_eq!(state.active_window_layout(), Some(1));
}

#[test]
fn new_window_matches_class_default_as_regex() {
    let mut state = RuntimeState::new(config(&["kbd"], &[("chrome-.*whatsapp.*", 1)]), 0);
    state.handle_event(Event::ActiveWindow {
        class_name: "chrome-web.whatsapp.com__-Default",
    });

    assert_eq!(
        state.handle_event(Event::ActiveWindowV2 {
            addr: WindowAddr(1)
        }),
        vec![Action::SwitchLayout {
            keyboards: vec!["kbd".to_string()],
            layout: 1,
            previous: 0
        }]
    );
}

#[test]
fn exact_class_default_wins_over_pattern() {
    let mut state = RuntimeState::new(config(&["kbd"], &[("fire.*", 1), ("firefox", 2)]), 0);
    state.handle_event(Event::ActiveWindow {
        class_name: "firefox",
    });
    state.handle_event(Event::ActiveWindowV2 {
        addr: WindowAddr(1),
    });

    assert_eq!(state.active_window_layout(), Some(2));
}

#[test]
fn pattern_matches_whole_class_only() {
    let mut state = RuntimeState::new(config(&["kbd"], &[("firefox", 1)]), 0);
    state.handle_event(Event::ActiveWindow {
        class_name: "firefox-nightly",
    });
    state.handle_event(Event::ActiveWindowV2 {
        addr: WindowAddr(1),
    });

    assert_eq!(state.active_window_layout(), Some(0));
}

#[test]
fn invalid_regex_key_still_matches_exactly() {
    let mut state = RuntimeState::new(config(&["kbd"], &[("app(broken", 1)]), 0);
    state.handle_event(Event::ActiveWindow {
        class_name: "app(broken",
    });
    state.handle_event(Event::ActiveWindowV2 {
        addr: WindowAddr(1),
    });

    assert_eq!(state.active_window_layout(), Some(1));
}

#[test]
fn known_window_restores_saved_layout() {
    let mut state = RuntimeState::new(config(&["kbd"], &[]), 0);
    state.handle_event(Event::ActiveWindowV2 {
        addr: WindowAddr(1),
    });
    state.record_keyboard_layout("kbd", 1);
    state.handle_event(Event::ActiveWindowV2 {
        addr: WindowAddr(2),
    });

    assert_eq!(
        state.handle_event(Event::ActiveWindowV2 {
            addr: WindowAddr(1)
        }),
        vec![Action::SwitchLayout {
            keyboards: vec!["kbd".to_string()],
            layout: 1,
            previous: 0
        }]
    );
}

#[test]
fn same_layout_does_not_emit_switch() {
    let mut state = RuntimeState::new(config(&["kbd"], &[("firefox", 0)]), 0);
    state.handle_event(Event::ActiveWindow {
        class_name: "firefox",
    });

    assert!(state
        .handle_event(Event::ActiveWindowV2 {
            addr: WindowAddr(1)
        })
        .is_empty());
}

#[test]
fn active_layout_learns_keyboard_when_unconfigured() {
    let mut state = RuntimeState::new(config(&[], &[]), 0);
    assert_eq!(
        state.handle_event(Event::ActiveLayout {
            keyboard: "kbd",
            layout_name: "English"
        }),
        vec![Action::QueryKeyboardLayout {
            keyboard: "kbd".to_string()
        }]
    );
    assert_eq!(state.keyboard_names(), ["kbd"]);
}

#[test]
fn configured_keyboard_ignores_other_keyboards() {
    let mut state = RuntimeState::new(config(&["kbd"], &[]), 0);
    assert!(state
        .handle_event(Event::ActiveLayout {
            keyboard: "other",
            layout_name: "English"
        })
        .is_empty());
}

#[test]
fn excluded_keyboard_is_ignored() {
    let mut state = RuntimeState::new(config(&[], &[]), 0);
    assert!(state
        .handle_event(Event::ActiveLayout {
            keyboard: "virtual-keyboard",
            layout_name: "English"
        })
        .is_empty());
    assert!(state.keyboard_names().is_empty());
}

#[test]
fn close_window_forgets_saved_layout() {
    let mut state = RuntimeState::new(config(&["kbd"], &[]), 0);
    state.handle_event(Event::ActiveWindowV2 {
        addr: WindowAddr(1),
    });
    state.record_keyboard_layout("kbd", 1);
    state.handle_event(Event::CloseWindow {
        addr: WindowAddr(1),
    });
    state.set_active_layout(1);

    assert_eq!(
        state.handle_event(Event::ActiveWindowV2 {
            addr: WindowAddr(1)
        }),
        vec![Action::SwitchLayout {
            keyboards: vec!["kbd".to_string()],
            layout: 0,
            previous: 1
        }]
    );
}

#[test]
fn empty_active_window_clears_active_window() {
    let mut state = RuntimeState::new(config(&["kbd"], &[]), 0);
    state.handle_event(Event::ActiveWindowV2 {
        addr: WindowAddr(1),
    });
    state.handle_event(Event::CloseWindow {
        addr: WindowAddr(1),
    });
    state.handle_event(Event::EmptyActiveWindow);

    // A manual layout change on an empty workspace must not resurrect
    // the closed window's entry.
    state.record_keyboard_layout("kbd", 1);

    assert_eq!(
        state.handle_event(Event::ActiveWindowV2 {
            addr: WindowAddr(1)
        }),
        vec![Action::SwitchLayout {
            keyboards: vec!["kbd".to_string()],
            layout: 0,
            previous: 1
        }]
    );
}

#[test]
fn own_switch_echo_is_ignored_once() {
    let mut state = RuntimeState::new(config(&["kbd"], &[("firefox", 1)]), 0);
    state.handle_event(Event::ActiveWindow {
        class_name: "firefox",
    });
    assert!(!state
        .handle_event(Event::ActiveWindowV2 {
            addr: WindowAddr(1)
        })
        .is_empty());

    let echo = Event::ActiveLayout {
        keyboard: "kbd",
        layout_name: "Thai",
    };
    assert!(state.handle_event(echo.clone()).is_empty());
    assert_eq!(
        state.handle_event(echo),
        vec![Action::QueryKeyboardLayout {
            keyboard: "kbd".to_string()
        }]
    );
}

#[test]
fn switch_failed_clears_pending_echo() {
    let mut state = RuntimeState::new(config(&["kbd"], &[("firefox", 1)]), 0);
    state.handle_event(Event::ActiveWindow {
        class_name: "firefox",
    });
    state.handle_event(Event::ActiveWindowV2 {
        addr: WindowAddr(1),
    });
    state.switch_failed("kbd");

    assert_eq!(
        state.handle_event(Event::ActiveLayout {
            keyboard: "kbd",
            layout_name: "English"
        }),
        vec![Action::QueryKeyboardLayout {
            keyboard: "kbd".to_string()
        }]
    );
}

#[test]
fn untracked_layer_is_ignored() {
    let mut state = RuntimeState::new(layer_config(&[("rofi", 0)]), 1);
    assert!(!state.should_reconcile_layer_event("waybar"));
    assert!(state.sync_layers(&layer_snapshot(&["waybar"])).is_empty());
    assert!(state.sync_layers(&[]).is_empty());
    assert_eq!(state.active_layout(), 1);
}

#[test]
fn tracked_layer_applies_default_then_restores_window() {
    let mut state = RuntimeState::new(layer_config(&[("rofi", 0)]), 0);
    state.handle_event(Event::ActiveWindowV2 {
        addr: WindowAddr(1),
    });
    state.record_keyboard_layout("kbd", 1);

    assert_eq!(state.sync_layers(&layer_snapshot(&["rofi"])), switch(0, 1));
    assert_eq!(state.sync_layers(&[]), switch(1, 0));
}

#[test]
fn layer_remembers_its_own_layout_across_opens() {
    let mut state = RuntimeState::new(layer_config(&[("rofi", 0)]), 0);
    state.handle_event(Event::ActiveWindowV2 {
        addr: WindowAddr(1),
    });
    state.sync_layers(&layer_snapshot(&["rofi"]));

    state.record_keyboard_layout("kbd", 1);
    assert_eq!(state.active_window_layout(), Some(0));

    assert_eq!(state.sync_layers(&[]), switch(0, 1));
    assert_eq!(state.sync_layers(&layer_snapshot(&["rofi"])), switch(1, 0));
}

#[test]
fn layer_namespace_matches_as_regex() {
    let mut state = RuntimeState::new(layer_config(&[("rofi.*", 1)]), 0);
    assert_eq!(
        state.sync_layers(&layer_snapshot(&["rofi-launcher"])),
        switch(1, 0)
    );
}

#[test]
fn window_focus_under_a_layer_does_not_switch_until_it_closes() {
    let mut state = RuntimeState::new(layer_config(&[("rofi", 0)]), 0);
    state.handle_event(Event::ActiveWindowV2 {
        addr: WindowAddr(1),
    });
    state.record_keyboard_layout("kbd", 1);
    state.sync_layers(&layer_snapshot(&["rofi"]));

    // Hyprland re-announces the focused window around a layer grab.
    assert!(state
        .handle_event(Event::ActiveWindowV2 {
            addr: WindowAddr(1)
        })
        .is_empty());
    assert_eq!(state.active_layout(), 0);

    assert_eq!(state.sync_layers(&[]), switch(1, 0));
}

#[test]
fn stacked_layers_unwind_in_order() {
    let mut state = RuntimeState::new(layer_config(&[("rofi", 0), ("menu", 2)]), 0);
    state.handle_event(Event::ActiveWindowV2 {
        addr: WindowAddr(1),
    });
    state.record_keyboard_layout("kbd", 1);

    assert_eq!(state.sync_layers(&layer_snapshot(&["rofi"])), switch(0, 1));
    assert_eq!(
        state.sync_layers(&layer_snapshot(&["rofi", "menu"])),
        switch(2, 0)
    );
    assert_eq!(state.sync_layers(&layer_snapshot(&["rofi"])), switch(0, 2));
    assert_eq!(state.sync_layers(&[]), switch(1, 0));
}

#[test]
fn same_namespace_layers_unwind_one_surface_at_a_time() {
    let mut state = RuntimeState::new(layer_config(&[("rofi", 0)]), 0);
    state.handle_event(Event::ActiveWindowV2 {
        addr: WindowAddr(1),
    });
    state.record_keyboard_layout("kbd", 1);

    assert_eq!(state.sync_layers(&layer_snapshot(&["rofi"])), switch(0, 1));
    assert!(state
        .sync_layers(&layer_snapshot(&["rofi", "rofi"]))
        .is_empty());

    // One rofi surface remains mapped, so the window must not be restored.
    assert!(state.sync_layers(&layer_snapshot(&["rofi"])).is_empty());
    assert_eq!(state.active_layout(), 0);

    assert_eq!(state.sync_layers(&[]), switch(1, 0));
}

#[test]
fn raw_layer_events_match_snapshot_transitions() {
    let mut state = RuntimeState::new(layer_config(&[("rofi", 0)]), 0);
    state.handle_event(Event::ActiveWindowV2 {
        addr: WindowAddr(1),
    });
    state.record_keyboard_layout("kbd", 1);

    assert_eq!(
        state.handle_event(Event::OpenLayer { namespace: "rofi" }),
        switch(0, 1)
    );
    assert!(state.should_reconcile_layer_event("waybar"));
    assert_eq!(
        state.handle_event(Event::CloseLayer { namespace: "rofi" }),
        switch(1, 0)
    );
}

#[test]
fn seeded_keyboard_switches_before_first_layout_event() {
    let mut cfg = layer_config(&[("rofi", 1)]);
    cfg.keyboards.include_names.clear();
    let mut state = RuntimeState::new(cfg, 0);
    state.seed_keyboard("kbd");

    assert_eq!(state.sync_layers(&layer_snapshot(&["rofi"])), switch(1, 0));
}

#[test]
fn unmatched_close_layer_is_ignored() {
    let mut state = RuntimeState::new(layer_config(&[("rofi", 1)]), 0);
    state.handle_event(Event::ActiveWindowV2 {
        addr: WindowAddr(1),
    });

    assert!(state.sync_layers(&[]).is_empty());
    assert_eq!(state.active_layout(), 0);
}

#[test]
fn resync_drops_stranded_layer_focus() {
    let mut state = RuntimeState::new(layer_config(&[("rofi", 1)]), 0);
    state.handle_event(Event::ActiveWindowV2 {
        addr: WindowAddr(1),
    });
    state.sync_layers(&layer_snapshot(&["rofi"]));

    state.resync(
        Some((WindowAddr(1), "firefox".to_string())),
        1,
        &[WindowAddr(1)],
        &[],
    );

    // Focus is on the window again, so layout changes land on the window.
    state.record_keyboard_layout("kbd", 1);
    assert_eq!(state.active_window_layout(), Some(1));
}

#[test]
fn resync_keeps_layer_focus_while_it_remains_mapped() {
    let mut state = RuntimeState::new(layer_config(&[("rofi", 0)]), 0);
    state.handle_event(Event::ActiveWindowV2 {
        addr: WindowAddr(1),
    });
    state.record_keyboard_layout("kbd", 1);
    state.sync_layers(&layer_snapshot(&["rofi"]));

    assert!(state
        .resync(
            Some((WindowAddr(1), "firefox".to_string())),
            0,
            &[WindowAddr(1)],
            &["rofi".to_string()],
        )
        .is_empty());

    state.record_keyboard_layout("kbd", 2);
    assert_eq!(state.active_window_layout(), Some(1));
    assert_eq!(state.sync_layers(&[]), switch(1, 2));
}

#[test]
fn resync_adopts_startup_layer_without_polluting_window() {
    let mut state = RuntimeState::new(layer_config(&[("rofi", 1)]), 0);

    assert!(state
        .resync(
            Some((WindowAddr(1), "codium".to_string())),
            0,
            &[WindowAddr(1)],
            &["rofi".to_string()],
        )
        .is_empty());
    assert_eq!(state.active_window_layout(), Some(0));
    // A buffered open event after connect must not double-count the layer.
    assert!(state.sync_layers(&layer_snapshot(&["rofi"])).is_empty());

    state.record_keyboard_layout("kbd", 1);
    assert_eq!(state.active_window_layout(), Some(0));
    assert_eq!(state.sync_layers(&[]), switch(0, 1));
}

#[test]
fn resync_prunes_closed_windows() {
    let mut state = RuntimeState::new(config(&["kbd"], &[]), 0);
    state.handle_event(Event::ActiveWindowV2 {
        addr: WindowAddr(1),
    });
    state.record_keyboard_layout("kbd", 1);

    assert!(state.resync(None, 0, &[], &[]).is_empty());

    // Window 1 is gone; re-seeing its address treats it as new.
    assert!(state
        .handle_event(Event::ActiveWindowV2 {
            addr: WindowAddr(1)
        })
        .is_empty());
    assert_eq!(state.active_window_layout(), Some(0));
}

#[test]
fn resync_restores_known_active_window() {
    let mut state = RuntimeState::new(config(&["kbd"], &[]), 0);
    state.handle_event(Event::ActiveWindowV2 {
        addr: WindowAddr(1),
    });
    state.record_keyboard_layout("kbd", 1);

    assert_eq!(
        state.resync(
            Some((WindowAddr(1), "firefox".to_string())),
            0,
            &[WindowAddr(1)],
            &[]
        ),
        vec![Action::SwitchLayout {
            keyboards: vec!["kbd".to_string()],
            layout: 1,
            previous: 0
        }]
    );
}

#[test]
fn resync_learns_unknown_active_window_without_switching() {
    let mut state = RuntimeState::new(config(&["kbd"], &[("firefox", 0)]), 0);

    assert!(state
        .resync(
            Some((WindowAddr(7), "firefox".to_string())),
            1,
            &[WindowAddr(7)],
            &[]
        )
        .is_empty());
    assert_eq!(state.active_window_layout(), Some(1));
    assert_eq!(state.active_layout(), 1);
}

#[test]
fn resync_clears_pending_echoes() {
    let mut state = RuntimeState::new(config(&["kbd"], &[("firefox", 1)]), 0);
    state.handle_event(Event::ActiveWindow {
        class_name: "firefox",
    });
    state.handle_event(Event::ActiveWindowV2 {
        addr: WindowAddr(1),
    });

    state.resync(
        Some((WindowAddr(1), "firefox".to_string())),
        1,
        &[WindowAddr(1)],
        &[],
    );

    assert_eq!(
        state.handle_event(Event::ActiveLayout {
            keyboard: "kbd",
            layout_name: "English"
        }),
        vec![Action::QueryKeyboardLayout {
            keyboard: "kbd".to_string()
        }]
    );
}
