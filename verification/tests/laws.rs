use hypr_kblayoutd::config::{Config, KeyboardConfig};
use hypr_kblayoutd::daemon::{next_backoff, FIRST_BACKOFF_MS, LONGEST_BACKOFF_MS};
use hypr_kblayoutd::event::{parse_line, parse_window_addr, Event};
use hypr_kblayoutd::snapshot;
use hypr_kblayoutd::snapshot::{LayerStep, LAYER_SNAPSHOT_RETRIES};
use hypr_kblayoutd::state::{Action, LayoutIndex, RuntimeState, WindowAddr};
use hypr_kblayoutd::string_map::StringMap;

fn table(entries: &[(&str, LayoutIndex)]) -> StringMap<LayoutIndex> {
    let mut table = StringMap::new();
    for (key, layout) in entries {
        table.insert((*key).to_string(), *layout);
    }
    table
}

/// A state that knows one configured keyboard, `kbd`.
fn state(classes: &[(&str, LayoutIndex)], layers: &[(&str, LayoutIndex)]) -> RuntimeState {
    state_of(&["kbd"], classes, layers)
}

fn state_of(
    keyboards: &[&str],
    classes: &[(&str, LayoutIndex)],
    layers: &[(&str, LayoutIndex)],
) -> RuntimeState {
    RuntimeState::new(
        Config {
            keyboards: KeyboardConfig {
                include_names: keyboards.iter().map(|name| (*name).to_string()).collect(),
                exclude_contains: vec!["virtual".to_string()],
            },
            default_layouts: table(classes),
            layer_layouts: table(layers),
        },
        0,
    )
}

fn switch(layout: LayoutIndex, previous: LayoutIndex) -> Vec<Action> {
    vec![Action::SwitchLayout {
        keyboards: vec!["kbd".to_string()],
        layout,
        previous,
    }]
}

fn query(keyboard: &str) -> Vec<Action> {
    vec![Action::QueryKeyboardLayout {
        keyboard: keyboard.to_string(),
    }]
}

fn focus(state: &mut RuntimeState, addr: u64) -> Vec<Action> {
    state.handle_event(Event::ActiveWindowV2 {
        addr: WindowAddr(addr),
    })
}

fn open(state: &mut RuntimeState, namespace: &str) -> Vec<Action> {
    state.handle_event(Event::OpenLayer { namespace })
}

fn close(state: &mut RuntimeState, namespace: &str) -> Vec<Action> {
    state.handle_event(Event::CloseLayer { namespace })
}

fn report(state: &mut RuntimeState, keyboard: &str) -> Vec<Action> {
    state.handle_event(Event::ActiveLayout {
        keyboard,
        layout_name: "Thai",
    })
}

fn names(list: &[&str]) -> Vec<String> {
    list.iter().map(|name| (*name).to_string()).collect()
}

#[test]
fn a_window_keeps_its_layout_through_everything_else() {
    let mut state = state(&[("firefox", 2)], &[("rofi", 3)]);
    focus(&mut state, 1);
    state.record_keyboard_layout("kbd", 1);

    state.handle_event(Event::ActiveWindow {
        class_name: "firefox",
    });
    assert_eq!(focus(&mut state, 2), switch(2, 1));
    state.record_keyboard_layout("kbd", 4);
    assert_eq!(open(&mut state, "rofi"), switch(3, 4));
    state.record_keyboard_layout("kbd", 5);
    assert_eq!(close(&mut state, "rofi"), switch(4, 5));
    state.handle_event(Event::CloseWindow { addr: WindowAddr(2) });
    state.handle_event(Event::EmptyActiveWindow);
    state.record_keyboard_layout("kbd", 6);

    assert_eq!(focus(&mut state, 1), switch(1, 6));
    assert_eq!(state.active_window_layout(), Some(1));
}

#[test]
fn a_window_without_a_class_rule_starts_at_zero() {
    let mut state = state(&[("firefox", 2)], &[]);
    state.set_active_layout(1);
    assert_eq!(focus(&mut state, 1), switch(0, 1));
    state.handle_event(Event::ActiveWindow {
        class_name: "foot",
    });
    assert_eq!(focus(&mut state, 2), Vec::new());
    state.handle_event(Event::ActiveWindow {
        class_name: "firefox",
    });
    assert_eq!(focus(&mut state, 3), switch(2, 0));
}

#[test]
fn a_closed_window_is_a_new_one_when_it_comes_back() {
    let mut state = state(&[], &[]);
    focus(&mut state, 1);
    state.record_keyboard_layout("kbd", 3);
    state.handle_event(Event::CloseWindow { addr: WindowAddr(1) });
    assert_eq!(state.active_window_layout(), None);
    assert_eq!(focus(&mut state, 1), switch(0, 3));
}

#[test]
fn a_layout_without_focus_belongs_to_no_window() {
    let mut state = state(&[], &[]);
    focus(&mut state, 1);
    state.handle_event(Event::EmptyActiveWindow);
    state.record_keyboard_layout("kbd", 2);
    assert_eq!(state.active_layout(), 2);
    assert_eq!(focus(&mut state, 1), switch(0, 2));
}

#[test]
fn a_window_under_a_layer_switches_nothing() {
    let mut state = state(&[], &[("rofi", 1)]);
    focus(&mut state, 1);
    open(&mut state, "rofi");
    assert_eq!(focus(&mut state, 2), Vec::new());
    assert_eq!(state.active_layout(), 1);
    assert_eq!(state.active_window_layout(), Some(0));
    assert_eq!(close(&mut state, "rofi"), switch(0, 1));
}

#[test]
fn a_layer_that_is_not_listed_changes_nothing() {
    let mut state = state(&[], &[("rofi", 1)]);
    focus(&mut state, 1);
    assert_eq!(open(&mut state, "waybar"), Vec::new());
    assert_eq!(state.focused_layer_count("waybar"), 0);
    assert_eq!(close(&mut state, "waybar"), Vec::new());
    open(&mut state, "rofi");
    assert_eq!(open(&mut state, "waybar"), Vec::new());
    assert_eq!(close(&mut state, "waybar"), Vec::new());
    assert_eq!(state.focused_layer_count("rofi"), 1);
    assert_eq!(state.active_layout(), 1);
}

#[test]
fn a_layer_visit_restores_the_outer_layer_and_then_the_window() {
    let mut state = state(&[], &[("rofi", 1), ("wofi", 2)]);
    focus(&mut state, 1);
    assert_eq!(open(&mut state, "rofi"), switch(1, 0));
    state.record_keyboard_layout("kbd", 3);
    assert_eq!(open(&mut state, "wofi"), switch(2, 3));
    assert_eq!(close(&mut state, "wofi"), switch(3, 2));
    assert_eq!(close(&mut state, "rofi"), switch(0, 3));
    assert_eq!(open(&mut state, "rofi"), switch(3, 0));
}

#[test]
fn closing_an_outer_layer_leaves_the_inner_one_in_charge() {
    let mut state = state(&[], &[("rofi", 1), ("wofi", 2)]);
    focus(&mut state, 1);
    open(&mut state, "rofi");
    open(&mut state, "wofi");
    assert_eq!(close(&mut state, "rofi"), Vec::new());
    assert_eq!(state.active_layout(), 2);
    assert_eq!(close(&mut state, "wofi"), switch(0, 2));
}

#[test]
fn the_same_snapshot_twice_changes_nothing_the_second_time() {
    let mut state = state(&[], &[("rofi", 1), ("wofi", 2)]);
    focus(&mut state, 1);
    let live = names(&["waybar", "wofi", "rofi", "wofi"]);
    assert_eq!(state.sync_layers(&live), switch(2, 0));
    assert_eq!(state.focused_layer_count("wofi"), 2);
    assert_eq!(state.focused_layer_count("rofi"), 1);
    assert_eq!(state.focused_layer_count("waybar"), 0);
    assert_eq!(state.sync_layers(&live), Vec::new());
    assert_eq!(state.sync_layers(&names(&["rofi", "wofi", "wofi"])), Vec::new());
}

#[test]
fn layers_that_stay_mapped_keep_their_order() {
    let mut state = state(&[], &[("rofi", 1), ("wofi", 2), ("menu", 3)]);
    focus(&mut state, 1);
    open(&mut state, "rofi");
    open(&mut state, "wofi");
    assert_eq!(
        state.sync_layers(&names(&["menu", "wofi", "rofi"])),
        switch(3, 2)
    );
    assert_eq!(state.sync_layers(&names(&["wofi", "rofi"])), switch(2, 3));
}

#[test]
fn a_settled_event_takes_up_no_other_layer() {
    let mut state = state(&[], &[("rofi", 1), ("wofi", 2)]);
    focus(&mut state, 1);
    open(&mut state, "wofi");
    let actions = state.reconcile_layer_event("rofi", 2, &names(&["menu", "wofi", "wofi"]));
    assert_eq!(actions, switch(1, 2));
    assert_eq!(state.focused_layer_count("rofi"), 2);
    assert_eq!(state.focused_layer_count("wofi"), 1);
    let actions = state.reconcile_layer_event("rofi", 1, &[]);
    assert_eq!(actions, Vec::new());
    assert_eq!(state.focused_layer_count("rofi"), 1);
    assert_eq!(state.focused_layer_count("wofi"), 0);
}

#[test]
fn an_event_alone_does_what_a_snapshot_of_it_does() {
    let mut alone = state(&[], &[("rofi", 1)]);
    let mut settled = state(&[], &[("rofi", 1)]);
    focus(&mut alone, 1);
    focus(&mut settled, 1);
    assert_eq!(
        open(&mut alone, "rofi"),
        settled.reconcile_layer_event("rofi", 1, &names(&["rofi"]))
    );
    assert_eq!(
        open(&mut alone, "rofi"),
        settled.reconcile_layer_event("rofi", 2, &names(&["rofi", "rofi"]))
    );
    assert_eq!(
        close(&mut alone, "rofi"),
        settled.reconcile_layer_event("rofi", 1, &names(&["rofi"]))
    );
    assert_eq!(alone.focused_layer_count("rofi"), 1);
    assert_eq!(settled.focused_layer_count("rofi"), 1);
}

#[test]
fn owed_echoes_are_ignored_as_often_as_they_are_owed() {
    let mut state = state(&[("firefox", 1)], &[]);
    focus(&mut state, 1);
    state.handle_event(Event::ActiveWindow {
        class_name: "firefox",
    });
    assert_eq!(focus(&mut state, 2), switch(1, 0));
    assert_eq!(focus(&mut state, 1), switch(0, 1));
    assert_eq!(report(&mut state, "kbd"), Vec::new());
    assert_eq!(report(&mut state, "kbd"), Vec::new());
    assert_eq!(report(&mut state, "kbd"), query("kbd"));
}

#[test]
fn a_switch_that_fails_everywhere_leaves_nothing_behind() {
    let mut state = state(&[("firefox", 1)], &[]);
    focus(&mut state, 1);
    state.handle_event(Event::ActiveWindow {
        class_name: "firefox",
    });
    assert_eq!(focus(&mut state, 2), switch(1, 0));
    state.settle_switch(&names(&["kbd"]), &[false], 0);
    assert_eq!(state.active_layout(), 0);
    assert_eq!(report(&mut state, "kbd"), query("kbd"));
}

#[test]
fn a_switch_that_fails_somewhere_is_owed_by_the_others() {
    let mut state = state_of(&["left", "right"], &[("firefox", 1)], &[]);
    state.handle_event(Event::ActiveWindow {
        class_name: "firefox",
    });
    assert_eq!(
        focus(&mut state, 1),
        vec![Action::SwitchLayout {
            keyboards: names(&["left", "right"]),
            layout: 1,
            previous: 0,
        }]
    );
    state.settle_switch(&names(&["left", "right"]), &[false, true], 0);
    assert_eq!(state.active_layout(), 1);
    assert_eq!(report(&mut state, "left"), query("left"));
    assert_eq!(report(&mut state, "right"), Vec::new());
    assert_eq!(report(&mut state, "right"), query("right"));
}

#[test]
fn keyboards_are_learned_once_and_never_when_excluded() {
    let mut state = state_of(&[], &[("firefox", 1)], &[]);
    assert_eq!(report(&mut state, "kbd"), query("kbd"));
    assert_eq!(report(&mut state, "kbd"), query("kbd"));
    assert_eq!(report(&mut state, "my-virtual-keyboard"), Vec::new());
    state.seed_keyboard("virtual");
    state.record_keyboard_layout("virtual", 7);
    assert_eq!(state.active_layout(), 0);
    assert_eq!(state.keyboard_names(), ["kbd"]);
    state.handle_event(Event::ActiveWindow {
        class_name: "firefox",
    });
    assert_eq!(focus(&mut state, 1), switch(1, 0));
}

#[test]
fn keyboards_that_are_not_listed_are_ignored() {
    let mut state = state(&[], &[]);
    focus(&mut state, 1);
    assert_eq!(report(&mut state, "other"), Vec::new());
    state.record_keyboard_layout("other", 5);
    state.seed_keyboard("other");
    assert_eq!(state.active_layout(), 0);
    assert_eq!(state.keyboard_names(), ["kbd"]);
}

#[test]
fn a_resync_forgets_windows_that_are_gone() {
    let mut state = state(&[], &[]);
    focus(&mut state, 1);
    state.record_keyboard_layout("kbd", 3);
    focus(&mut state, 2);
    let active = Some((WindowAddr(2), "foot".to_string()));
    assert_eq!(
        state.resync(active, 0, &[WindowAddr(2)], &[]),
        Vec::new()
    );
    assert_eq!(focus(&mut state, 1), Vec::new());
    assert_eq!(state.active_window_layout(), Some(0));
}

#[test]
fn a_second_resync_asks_for_nothing() {
    let mut state = state(&[("foot", 4)], &[("rofi", 2)]);
    focus(&mut state, 1);
    state.record_keyboard_layout("kbd", 1);
    let windows = [WindowAddr(1), WindowAddr(2)];
    let active = || Some((WindowAddr(1), "foot".to_string()));
    assert_eq!(state.resync(active(), 3, &windows, &[]), switch(1, 3));
    assert_eq!(state.resync(active(), 1, &windows, &[]), Vec::new());

    let layers = names(&["rofi"]);
    let other = || Some((WindowAddr(2), "foot".to_string()));
    assert_eq!(state.resync(other(), 3, &windows, &layers), Vec::new());
    assert_eq!(state.active_layout(), 3);
    assert_eq!(state.active_window_layout(), Some(4));
    assert_eq!(state.resync(other(), 3, &windows, &layers), Vec::new());
    assert_eq!(close(&mut state, "rofi"), switch(4, 3));
}

#[test]
fn too_many_owed_echoes_are_refused() {
    let mut state = state(&[], &[]);
    focus(&mut state, 1);
    state.record_keyboard_layout("kbd", 1);
    for _ in 0..127 {
        focus(&mut state, 2);
        focus(&mut state, 1);
    }
    assert_eq!(focus(&mut state, 2), switch(0, 1));
    let back = Event::ActiveWindowV2 { addr: WindowAddr(1) };
    assert_eq!(state.try_handle_event(back), None);
    assert_eq!(state.active_layout(), 0);
    let stay = Event::ActiveWindowV2 { addr: WindowAddr(2) };
    assert_eq!(state.try_handle_event(stay), Some(Vec::new()));
    report(&mut state, "kbd");
    let back = Event::ActiveWindowV2 { addr: WindowAddr(1) };
    assert_eq!(state.try_handle_event(back), Some(switch(1, 0)));
}

#[test]
fn too_many_owed_echoes_are_refused_for_layers_and_forgotten_by_a_resync() {
    let mut state = state(&[], &[("rofi", 1)]);
    focus(&mut state, 1);
    for _ in 0..127 {
        open(&mut state, "rofi");
        close(&mut state, "rofi");
    }
    assert_eq!(open(&mut state, "rofi"), switch(1, 0));
    assert_eq!(state.try_sync_layers(&[]), None);
    assert_eq!(state.try_reconcile_layer_event("rofi", 0, &[]), None);
    assert_eq!(state.focused_layer_count("rofi"), 1);
    let step = snapshot::handle_event_with_layer_snapshot(
        &mut state,
        Event::CloseLayer { namespace: "rofi" },
    );
    let step = match step {
        LayerStep::Query(pending) => pending.observe(&mut state, Some(Vec::new())),
        other => panic!("unexpected step: {other:?}"),
    };
    assert!(matches!(step, LayerStep::TooManyEchoes));
    let active = Some((WindowAddr(1), "foot".to_string()));
    assert_eq!(
        state.try_resync(active, 1, &[WindowAddr(1)], &[]),
        Some(switch(0, 1))
    );
}

#[test]
fn a_layer_event_asks_for_no_more_snapshots_than_it_has_retries() {
    let mut state = state(&[], &[("rofi", 1)]);
    focus(&mut state, 1);
    let mut step = snapshot::handle_event_with_layer_snapshot(
        &mut state,
        Event::OpenLayer { namespace: "rofi" },
    );
    let mut queries = 0;
    let actions = loop {
        step = match step {
            LayerStep::Query(pending) | LayerStep::Retry(pending) => {
                queries += 1;
                pending.observe(&mut state, Some(Vec::new()))
            }
            LayerStep::Done(actions) => break actions,
            LayerStep::TooManyEchoes => panic!("too many echoes are owed"),
        };
    };
    assert_eq!(queries, LAYER_SNAPSHOT_RETRIES + 1);
    assert_eq!(actions, switch(1, 0));
}

#[test]
fn addresses_are_read_back_as_they_were_written() {
    for addr in [0, 1, 0xabc, 0x55b0_cd60_fa30, u64::MAX] {
        let written = WindowAddr(addr).to_text();
        assert_eq!(written, format!("0x{addr:x}"));
        assert_eq!(parse_window_addr(&written), Ok(WindowAddr(addr)));
        assert_eq!(
            parse_window_addr(&format!("0x{addr:X}")),
            Ok(WindowAddr(addr))
        );
        assert_eq!(parse_window_addr(&format!("{addr:X}")), Ok(WindowAddr(addr)));
        let line = format!("closewindow>>{written}\r\n");
        assert_eq!(
            parse_line(&line),
            Ok(Event::CloseWindow {
                addr: WindowAddr(addr)
            })
        );
    }
}

#[test]
fn a_line_means_the_same_with_any_line_end() {
    let plain = parse_line("activelayout>>kbd,Thai");
    assert_eq!(
        plain,
        Ok(Event::ActiveLayout {
            keyboard: "kbd",
            layout_name: "Thai"
        })
    );
    for end in ["\n", "\r", "\r\n", "\n\n\r"] {
        assert_eq!(parse_line(&format!("activelayout>>kbd,Thai{end}")), plain);
    }
}

#[test]
fn pauses_double_up_to_five_seconds() {
    let mut pause = FIRST_BACKOFF_MS;
    let mut pauses = vec![pause];
    for _ in 0..7 {
        pause = next_backoff(pause);
        pauses.push(pause);
    }
    assert_eq!(pauses, [100, 200, 400, 800, 1600, 3200, 5000, 5000]);
    assert_eq!(next_backoff(2499), 4998);
    assert_eq!(next_backoff(2500), LONGEST_BACKOFF_MS);
    assert_eq!(next_backoff(u64::MAX), LONGEST_BACKOFF_MS);
}

#[test]
fn exact_names_win_over_patterns_and_patterns_over_nothing() {
    let mut state = state(
        &[
            ("chrome-.*", 1),
            ("chrome-.*whatsapp.*", 2),
            ("chrome-mail", 3),
            ("broken(", 4),
        ],
        &[],
    );
    let cases = [
        ("chrome-mail", 3),
        ("chrome-x-whatsapp-y", 1),
        ("chrome-", 1),
        ("a-chrome-x", 0),
        ("broken(", 4),
        ("broken", 0),
        ("chrome-.*", 1),
    ];
    for (i, (class_name, layout)) in cases.iter().enumerate() {
        state.handle_event(Event::ActiveWindow { class_name });
        focus(&mut state, 100 + i as u64);
        assert_eq!(state.active_layout(), *layout, "{class_name}");
    }
}

#[test]
fn a_class_key_with_stray_parens_is_an_exact_name_only() {
    let mut state = state(&[("a)|(b", 1)], &[]);
    state.handle_event(Event::ActiveWindow { class_name: "axx" });
    assert_eq!(focus(&mut state, 1), Vec::new());
    assert_eq!(state.active_window_layout(), Some(0));
    for (i, class_name) in ["xxb", "a", "b"].iter().enumerate() {
        state.handle_event(Event::ActiveWindow { class_name });
        assert_eq!(focus(&mut state, 10 + i as u64), Vec::new());
    }
    state.handle_event(Event::ActiveWindow {
        class_name: "a)|(b",
    });
    assert_eq!(focus(&mut state, 2), switch(1, 0));
    assert_eq!(state.active_window_layout(), Some(1));
}

#[test]
fn a_layer_key_with_stray_parens_is_an_exact_name_only() {
    let mut state = state(&[], &[("a)|(b", 1)]);
    focus(&mut state, 1);
    assert!(!state.should_reconcile_layer_event("axx"));
    assert_eq!(open(&mut state, "axx"), Vec::new());
    assert_eq!(state.focused_layer_count("axx"), 0);
    assert!(state.should_reconcile_layer_event("a)|(b"));
    assert_eq!(open(&mut state, "a)|(b"), switch(1, 0));
    assert_eq!(state.focused_layer_count("a)|(b"), 1);
}

#[test]
fn a_key_with_an_alternative_matches_whole_names_only() {
    let mut state = state(&[("a|b", 1)], &[]);
    for (i, (class_name, layout)) in [("a", 1), ("b", 1), ("ax", 0), ("xb", 0), ("a|b", 1)]
        .iter()
        .enumerate()
    {
        state.handle_event(Event::ActiveWindow { class_name });
        focus(&mut state, 20 + i as u64);
        assert_eq!(state.active_layout(), *layout, "{class_name}");
    }
}

#[test]
fn an_excluded_keyboard_that_is_configured_is_switched_but_not_heard() {
    let mut state = state_of(&["kbd", "virtual"], &[("firefox", 1)], &[]);
    assert_eq!(report(&mut state, "virtual"), Vec::new());
    state.record_keyboard_layout("virtual", 5);
    assert_eq!(state.active_layout(), 0);
    state.handle_event(Event::ActiveWindow {
        class_name: "firefox",
    });
    assert_eq!(
        focus(&mut state, 1),
        vec![Action::SwitchLayout {
            keyboards: names(&["kbd", "virtual"]),
            layout: 1,
            previous: 0,
        }]
    );
}

#[test]
fn a_resync_with_the_same_answers_does_the_same_again() {
    let mut state = state(&[("foot", 4)], &[("rofi", 2)]);
    focus(&mut state, 1);
    state.record_keyboard_layout("kbd", 1);
    let known = || Some((WindowAddr(1), "foot".to_string()));
    let unknown = || Some((WindowAddr(9), "foot".to_string()));
    let windows = [WindowAddr(1)];
    for _ in 0..2 {
        assert_eq!(state.resync(known(), 3, &windows, &[]), switch(1, 3));
        assert_eq!(report(&mut state, "kbd"), Vec::new());
        assert_eq!(report(&mut state, "kbd"), query("kbd"));
    }
    for _ in 0..2 {
        assert_eq!(state.resync(unknown(), 3, &windows, &[]), Vec::new());
        assert_eq!(state.active_window_layout(), Some(3));
        assert_eq!(state.active_layout(), 3);
    }
    for _ in 0..2 {
        let layers = names(&["rofi"]);
        assert_eq!(state.resync(unknown(), 3, &windows, &layers), Vec::new());
        assert_eq!(state.active_window_layout(), Some(4));
        assert_eq!(state.focused_layer_count("rofi"), 1);
    }
}

#[test]
fn the_smallest_matching_key_decides_in_whatever_order_it_was_given() {
    let keys = [("f.*", 1), ("fo.*", 2), ("[f]oot", 3), ("x.*", 4)];
    let mut reversed = keys;
    reversed.reverse();
    for entries in [keys, reversed] {
        let mut state = state(&entries, &[]);
        state.handle_event(Event::ActiveWindow { class_name: "foot" });
        assert_eq!(focus(&mut state, 1), switch(3, 0));
        state.handle_event(Event::ActiveWindow { class_name: "fox" });
        assert_eq!(focus(&mut state, 2), switch(1, 3));
    }
}
