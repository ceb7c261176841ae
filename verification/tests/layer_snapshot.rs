use hypr_kblayoutd::config::{Config, KeyboardConfig};
use hypr_kblayoutd::event::Event;
use hypr_kblayoutd::snapshot;
use hypr_kblayoutd::snapshot::{LayerStep, LAYER_SNAPSHOT_RETRIES};
use hypr_kblayoutd::state::{Action, RuntimeState, WindowAddr};
use hypr_kblayoutd::string_map::StringMap;

/// Runs an event to its end, with snapshots from a closure.
fn handle_event_with_layer_snapshot<E>(
    state: &mut RuntimeState,
    event: Event<'_>,
    mut query_layers: impl FnMut() -> Result<Vec<String>, E>,
    mut wait_before_retry: impl FnMut(),
) -> Vec<Action> {
    let mut step = snapshot::handle_event_with_layer_snapshot(state, event);
    loop {
        step = match step {
            LayerStep::Done(actions) => return actions,
            LayerStep::Query(pending) => pending.observe(state, query_layers().ok()),
            LayerStep::Retry(pending) => {
                wait_before_retry();
                pending.observe(state, query_layers().ok())
            }
            LayerStep::TooManyEchoes => panic!("too many echoes are owed"),
        };
    }
}

fn test_state() -> RuntimeState {
    test_state_with_layers(&[("rofi", 0)])
}

fn test_state_with_layers(layers: &[(&str, u8)]) -> RuntimeState {
    let mut layer_layouts = StringMap::new();
    for (namespace, layout) in layers {
        layer_layouts.insert((*namespace).to_string(), *layout);
    }
    let config = Config {
        keyboards: KeyboardConfig {
            include_names: vec!["kbd".to_string()],
            exclude_contains: Vec::new(),
        },
        default_layouts: StringMap::new(),
        layer_layouts,
    };
    let mut state = RuntimeState::new(config, 0);
    state.handle_event(Event::ActiveWindowV2 {
        addr: WindowAddr(1),
    });
    state.record_keyboard_layout("kbd", 1);
    state
}

fn switch(layout: u8, previous: u8) -> Vec<Action> {
    vec![Action::SwitchLayout {
        keyboards: vec!["kbd".to_string()],
        layout,
        previous,
    }]
}

fn snapshot(namespaces: &[&str]) -> Vec<String> {
    namespaces
        .iter()
        .map(|namespace| (*namespace).to_string())
        .collect()
}

#[test]
fn production_path_retries_until_open_snapshot_settles() {
    let mut state = test_state();
    let mut snapshots = [snapshot(&[]), snapshot(&["rofi"])].into_iter();
    let mut waits = 0;

    let actions = handle_event_with_layer_snapshot(
        &mut state,
        Event::OpenLayer { namespace: "rofi" },
        || Ok::<_, &'static str>(snapshots.next().expect("test snapshot")),
        || waits += 1,
    );

    assert_eq!(actions, switch(0, 1));
    assert_eq!(waits, 1);
    assert_eq!(state.focused_layer_count("rofi"), 1);
}

#[test]
fn settled_close_keeps_a_live_duplicate() {
    let mut state = test_state();
    state.sync_layers(&snapshot(&["rofi", "rofi"]));
    let mut queries = 0;
    let mut waits = 0;

    let actions = handle_event_with_layer_snapshot(
        &mut state,
        Event::CloseLayer { namespace: "rofi" },
        || {
            queries += 1;
            Ok::<_, &'static str>(snapshot(&["rofi"]))
        },
        || waits += 1,
    );

    assert_eq!(queries, 1);
    assert_eq!(waits, 0);
    assert!(actions.is_empty());
    assert_eq!(state.focused_layer_count("rofi"), 1);
}

#[test]
fn animated_close_falls_back_to_event_when_snapshot_stays_stale() {
    let mut state = test_state();
    state.sync_layers(&snapshot(&["rofi"]));
    let mut queries = 0;
    let mut waits = 0;

    // An unchanged snapshot is ambiguous: it can be a buffered close or
    // an animating close. After retries, the close event wins.
    let actions = handle_event_with_layer_snapshot(
        &mut state,
        Event::CloseLayer { namespace: "rofi" },
        || {
            queries += 1;
            Ok::<_, &'static str>(snapshot(&["rofi"]))
        },
        || waits += 1,
    );

    assert_eq!(queries, LAYER_SNAPSHOT_RETRIES + 1);
    assert_eq!(waits, LAYER_SNAPSHOT_RETRIES);
    assert_eq!(actions, switch(1, 0));
    assert_eq!(state.focused_layer_count("rofi"), 0);
}

#[test]
fn quick_open_does_not_reimport_a_different_fading_layer() {
    let mut state = test_state_with_layers(&[("rofi", 0), ("menu", 2)]);
    state.sync_layers(&snapshot(&["rofi"]));

    assert_eq!(
        handle_event_with_layer_snapshot(
            &mut state,
            Event::CloseLayer { namespace: "rofi" },
            || Ok::<_, &'static str>(snapshot(&["rofi"])),
            || {},
        ),
        switch(1, 0)
    );

    assert_eq!(
        handle_event_with_layer_snapshot(
            &mut state,
            Event::OpenLayer { namespace: "menu" },
            || Ok::<_, &'static str>(snapshot(&["rofi", "menu"])),
            || {},
        ),
        switch(2, 1)
    );
    assert_eq!(state.focused_layer_count("rofi"), 0);
    assert_eq!(state.focused_layer_count("menu"), 1);
}

#[test]
fn quick_reopen_does_not_count_fading_same_namespace() {
    let mut state = test_state();
    state.sync_layers(&snapshot(&["rofi"]));

    assert_eq!(
        handle_event_with_layer_snapshot(
            &mut state,
            Event::CloseLayer { namespace: "rofi" },
            || Ok::<_, &'static str>(snapshot(&["rofi"])),
            || {},
        ),
        switch(1, 0)
    );

    assert_eq!(
        handle_event_with_layer_snapshot(
            &mut state,
            Event::OpenLayer { namespace: "rofi" },
            || Ok::<_, &'static str>(snapshot(&["rofi", "rofi"])),
            || {},
        ),
        switch(0, 1)
    );
    assert_eq!(state.focused_layer_count("rofi"), 1);
}

#[test]
fn first_open_falls_back_to_event_when_snapshot_stays_stale() {
    let mut state = test_state();

    let actions = handle_event_with_layer_snapshot(
        &mut state,
        Event::OpenLayer { namespace: "rofi" },
        || Ok::<_, &'static str>(snapshot(&[])),
        || {},
    );

    assert_eq!(actions, switch(0, 1));
    assert_eq!(state.focused_layer_count("rofi"), 1);
}

#[test]
fn unsettled_buffered_open_does_not_double_count_snapshot() {
    let mut state = test_state();
    state.sync_layers(&snapshot(&["rofi"]));

    let actions = handle_event_with_layer_snapshot(
        &mut state,
        Event::OpenLayer { namespace: "rofi" },
        || Ok::<_, &'static str>(snapshot(&["rofi"])),
        || {},
    );

    assert!(actions.is_empty());
    assert_eq!(state.focused_layer_count("rofi"), 1);
}

#[test]
fn snapshot_error_uses_the_shared_delta_fallback() {
    let mut state = test_state();

    let actions = handle_event_with_layer_snapshot(
        &mut state,
        Event::OpenLayer { namespace: "rofi" },
        || Err::<Vec<String>, _>("test query failure"),
        || {},
    );

    assert_eq!(actions, switch(0, 1));
    assert_eq!(state.focused_layer_count("rofi"), 1);
}

#[test]
fn untracked_event_skips_snapshot_when_no_layer_is_focused() {
    let mut state = test_state();
    let mut queried = false;

    let actions = handle_event_with_layer_snapshot(
        &mut state,
        Event::OpenLayer {
            namespace: "waybar",
        },
        || {
            queried = true;
            Ok::<_, &'static str>(snapshot(&["waybar"]))
        },
        || {},
    );

    assert!(actions.is_empty());
    assert!(!queried);
}

#[test]
fn untracked_event_still_reconciles_stranded_layer_focus() {
    let mut state = test_state();
    state.sync_layers(&snapshot(&["rofi"]));
    let mut queried = false;

    let actions = handle_event_with_layer_snapshot(
        &mut state,
        Event::OpenLayer {
            namespace: "waybar",
        },
        || {
            queried = true;
            Ok::<_, &'static str>(snapshot(&["waybar"]))
        },
        || {},
    );

    assert!(queried);
    assert_eq!(actions, switch(1, 0));
    assert_eq!(state.focused_layer_count("rofi"), 0);
}
