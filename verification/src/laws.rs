//! What holds of the daemon as a whole: over any number of steps, whatever order they
//! come in.

use vstd::prelude::*;

#[allow(unused_imports)]
use crate::event::EventView;
#[allow(unused_imports)]
use crate::layers;
#[allow(unused_imports)]
use crate::model;
#[allow(unused_imports)]
use crate::model::{ActionView, StateView, Step};
#[allow(unused_imports)]
use crate::state::LayoutIndex;
#[allow(unused_imports)]
use crate::text::Text;

verus! {

/// Everything that can change the state.
pub enum Input {
    /// A line of the event socket.
    Event(EventView),
    /// A layer event, settled against a snapshot.
    LayerEvent { namespace: Text, target: nat, snapshot: Seq<Text> },
    /// A snapshot of the mapped layers.
    Layers { live: Seq<Text> },
    /// The answer to a question about a keyboard's layout.
    Layout { keyboard: Text, layout: LayoutIndex },
    /// The main keyboard at startup.
    Keyboard { keyboard: Text },
    /// A snapshot of everything.
    Everything {
        active: Option<(u64, Text)>,
        layout: LayoutIndex,
        windows: Seq<u64>,
        layers: Seq<Text>,
    },
    /// The layout that is active is set outright.
    ActiveLayout { layout: LayoutIndex },
    /// One keyboard was not switched.
    SwitchFailed { keyboard: Text },
    /// The outcome of a switch.
    Switch { keyboards: Seq<Text>, switched: Seq<bool>, previous: LayoutIndex },
}

/// The state after an input, and what to ask of Hyprland.
pub open spec fn taken(s: StateView, input: Input) -> Step {
    match input {
        Input::Event(event) => s.handled(event),
        Input::LayerEvent { namespace, target, snapshot } => s.event_reconciled(
            namespace,
            target,
            snapshot,
        ),
        Input::Layers { live } => s.synced(live),
        Input::Layout { keyboard, layout } => (s.recorded(keyboard, layout), Seq::empty()),
        Input::Keyboard { keyboard } => (s.seeded(keyboard), Seq::empty()),
        Input::Everything { active, layout, windows, layers } => s.resynced(
            active,
            layout,
            windows,
            layers,
        ),
        Input::ActiveLayout { layout } => (
            StateView { active_layout: layout, ..s },
            Seq::empty(),
        ),
        Input::SwitchFailed { keyboard } => (s.echo_consumed(keyboard), Seq::empty()),
        Input::Switch { keyboards, switched, previous } => (
            s.switch_settled(keyboards, switched, previous),
            Seq::empty(),
        ),
    }
}

/// The state after a series of inputs.
pub open spec fn after(s: StateView, inputs: Seq<Input>) -> StateView
    decreases inputs.len(),
{
    if inputs.len() == 0 {
        s
    } else {
        taken(after(s, inputs.drop_last()), inputs.last()).0
    }
}

/// Taking away an echo leaves the counts in range.
proof fn lemma_without_echo_in_range(pending: Map<Text, nat>, keyboard: Text)
    requires
        model::echoes_in_range(pending),
    ensures
        model::echoes_in_range(model::without_echo(pending, keyboard)),
{
    let rest = model::without_echo(pending, keyboard);
    assert forall|k: Text| #[trigger] rest.contains_key(k) implies 1 <= rest[k]
        <= model::max_echoes() by {
        assert(pending.contains_key(k));
        assert(pending.contains_key(keyboard) || k != keyboard);
    }
}

/// Taking away the echoes of failed switches leaves the counts in range.
proof fn lemma_without_failed_in_range(
    pending: Map<Text, nat>,
    keyboards: Seq<Text>,
    switched: Seq<bool>,
)
    requires
        model::echoes_in_range(pending),
    ensures
        model::echoes_in_range(model::without_failed(pending, keyboards, switched)),
    decreases keyboards.len(),
{
    if keyboards.len() > 0 {
        lemma_without_failed_in_range(pending, keyboards.drop_last(), switched.drop_last());
        lemma_without_echo_in_range(
            model::without_failed(pending, keyboards.drop_last(), switched.drop_last()),
            keyboards.last(),
        );
    }
}

/// Going over to a layout leaves a valid state.
proof fn lemma_switched_valid(s: StateView, target: Option<LayoutIndex>)
    requires
        s.valid(),
        model::step_fits(s.switched_to(target)),
    ensures
        s.switched_to(target).0.valid(),
{
    let next = s.switched_to(target).0;
    if target is Some && target != Some(s.active_layout) && s.keyboards.len() > 0 {
        assert forall|k: Text| #[trigger] model::echoes(
            model::with_echoes(s.pending_echoes, s.keyboards),
            k,
        ) <= model::max_echoes() by {
            assert(model::echoes(next.pending_echoes, k) <= model::max_echoes());
        }
        model::lemma_echoes_in_range(s.pending_echoes, s.keyboards);
    }
}

/// What is true of every state stays true: every focused layer is configured and
/// has a layout, the counts of owed echoes are in range, and no learned keyboard is
/// excluded or listed twice.
pub proof fn law_valid_kept(s: StateView, input: Input)
    requires
        s.valid(),
        model::step_fits(taken(s, input)),
    ensures
        taken(s, input).0.valid(),
{
    match input {
        Input::Event(EventView::ActiveWindowV2 { addr }) => {
            lemma_switched_valid(s.with_active_window(addr), s.activation_target(addr));
        },
        Input::Event(EventView::ActiveLayout { keyboard, .. }) => {
            lemma_without_echo_in_range(s.pending_echoes, keyboard);
            lemma_seeded_valid(s, keyboard);
        },
        Input::Event(EventView::OpenLayer { namespace }) => {
            lemma_synced_valid(s, s.layers_after_event(namespace, true));
        },
        Input::Event(EventView::CloseLayer { namespace }) => {
            lemma_synced_valid(s, s.layers_after_event(namespace, false));
        },
        Input::LayerEvent { namespace, target, snapshot } => {
            lemma_synced_valid(
                s,
                layers::event_layers(s.focused_layers, namespace, target, snapshot),
            );
        },
        Input::Layers { live } => {
            lemma_synced_valid(s, live);
        },
        Input::Keyboard { keyboard } => {
            lemma_seeded_valid(s, keyboard);
        },
        Input::Everything { active, layout, windows, layers } => {
            let cleared = StateView {
                windows: s.windows.restrict(windows.to_set()),
                pending_echoes: Map::empty(),
                active_layout: layout,
                ..s
            };
            model::lemma_live_layers_valid(cleared, layers, Some(layout));
            let aligned = s.realigned(layout, windows, layers);
            lemma_switched_valid(aligned.with_active(active), aligned.restore_target(active));
        },
        Input::SwitchFailed { keyboard } => {
            lemma_without_echo_in_range(s.pending_echoes, keyboard);
        },
        Input::Switch { keyboards, switched, previous } => {
            lemma_without_failed_in_range(s.pending_echoes, keyboards, switched);
        },
        _ => {},
    }
}

/// A keyboard that becomes known leaves a valid state.
proof fn lemma_seeded_valid(s: StateView, keyboard: Text)
    requires
        s.valid(),
    ensures
        s.seeded(keyboard).valid(),
{
}

/// A snapshot of the layers leaves a valid state.
proof fn lemma_synced_valid(s: StateView, live: Seq<Text>)
    requires
        s.valid(),
        model::step_fits(s.synced(live)),
    ensures
        s.synced(live).0.valid(),
{
    model::lemma_live_layers_valid(s, live, None);
    lemma_switched_valid(s.with_live_layers(live, None), s.layers_target(live));
}

/// The configuration is the same, and the known keyboards are still known.
pub open spec fn same_configuration(s: StateView, next: StateView) -> bool {
    &&& next.class_rules == s.class_rules
    &&& next.layer_rules == s.layer_rules
    &&& next.exclude_contains == s.exclude_contains
    &&& next.configured_keyboards == s.configured_keyboards
    &&& s.keyboards.is_prefix_of(next.keyboards)
    &&& s.configured_keyboards ==> next.keyboards == s.keyboards
}

/// Going over to a layout changes the layout, and what is owed.
proof fn lemma_switched_changes(s: StateView, target: Option<LayoutIndex>)
    ensures
        s.switched_to(target).0 == (StateView {
            active_layout: match target {
                Some(layout) => layout,
                None => s.active_layout,
            },
            pending_echoes: s.switched_to(target).0.pending_echoes,
            ..s
        }),
{
}

/// The configuration holds for good, and known keyboards stay known, in their order.
/// Where keyboards are configured, no other becomes known.
pub proof fn law_configuration_kept(s: StateView, input: Input)
    ensures
        same_configuration(s, taken(s, input).0),
{
    match input {
        Input::Event(EventView::ActiveWindowV2 { addr }) => {
            lemma_switched_changes(s.with_active_window(addr), s.activation_target(addr));
        },
        Input::Event(EventView::ActiveLayout { keyboard, .. }) => {
            assert(same_configuration(s, s.seeded(keyboard)));
        },
        Input::Event(EventView::OpenLayer { namespace }) => {
            lemma_synced_configuration(s, s.layers_after_event(namespace, true));
        },
        Input::Event(EventView::CloseLayer { namespace }) => {
            lemma_synced_configuration(s, s.layers_after_event(namespace, false));
        },
        Input::LayerEvent { namespace, target, snapshot } => {
            lemma_synced_configuration(
                s,
                layers::event_layers(s.focused_layers, namespace, target, snapshot),
            );
        },
        Input::Layers { live } => {
            lemma_synced_configuration(s, live);
        },
        Input::Everything { active, layout, windows, layers } => {
            let aligned = s.realigned(layout, windows, layers);
            lemma_switched_changes(aligned.with_active(active), aligned.restore_target(active));
        },
        _ => {},
    }
}

/// A snapshot of the layers leaves the configuration alone.
proof fn lemma_synced_configuration(s: StateView, live: Seq<Text>)
    ensures
        same_configuration(s, s.synced(live).0),
{
    lemma_switched_changes(s.with_live_layers(live, None), s.layers_target(live));
}

/// The configuration holds through any series of inputs.
pub proof fn law_configuration_kept_throughout(s: StateView, inputs: Seq<Input>)
    ensures
        same_configuration(s, after(s, inputs)),
    decreases inputs.len(),
{
    if inputs.len() > 0 {
        law_configuration_kept_throughout(s, inputs.drop_last());
        law_configuration_kept(after(s, inputs.drop_last()), inputs.last());
    }
}

/// The input is about the layout of this window: the window closes, a snapshot shows
/// it no more, or the user changes its layout.
pub open spec fn concerns_window(s: StateView, input: Input, addr: u64) -> bool {
    match input {
        Input::Event(EventView::CloseWindow { addr: closed }) => closed == addr,
        Input::Everything { windows, .. } => !windows.contains(addr),
        Input::Layout { keyboard, .. } => s.manages(keyboard) && s.focused_layers.len() == 0
            && s.active_window == Some(addr),
        _ => false,
    }
}

/// No input of a series is about the layout of this window.
pub open spec fn leaves_window_alone(s: StateView, inputs: Seq<Input>, addr: u64) -> bool {
    forall|i: int|
        0 <= i < inputs.len() ==> !concerns_window(
            after(s, inputs.take(i)),
            #[trigger] inputs[i],
            addr,
        )
}

/// A known window keeps its layout through everything that is not about it.
pub proof fn law_window_kept(s: StateView, input: Input, addr: u64)
    requires
        s.windows.contains_key(addr),
        !concerns_window(s, input, addr),
    ensures
        taken(s, input).0.windows.contains_key(addr),
        taken(s, input).0.windows[addr] == s.windows[addr],
{
    match input {
        Input::Event(EventView::ActiveWindowV2 { addr: focused }) => {
            lemma_switched_changes(s.with_active_window(focused), s.activation_target(focused));
        },
        Input::Event(EventView::OpenLayer { namespace }) => {
            lemma_synced_windows(s, s.layers_after_event(namespace, true));
        },
        Input::Event(EventView::CloseLayer { namespace }) => {
            lemma_synced_windows(s, s.layers_after_event(namespace, false));
        },
        Input::LayerEvent { namespace, target, snapshot } => {
            lemma_synced_windows(
                s,
                layers::event_layers(s.focused_layers, namespace, target, snapshot),
            );
        },
        Input::Layers { live } => {
            lemma_synced_windows(s, live);
        },
        Input::Everything { active, layout, windows, layers } => {
            let aligned = s.realigned(layout, windows, layers);
            assert(windows.to_set().contains(addr));
            lemma_switched_changes(aligned.with_active(active), aligned.restore_target(active));
        },
        _ => {},
    }
}

/// A snapshot of the layers leaves the windows alone.
proof fn lemma_synced_windows(s: StateView, live: Seq<Text>)
    ensures
        s.synced(live).0.windows == s.windows,
        s.synced(live).0.active_window == s.active_window,
        s.synced(live).0.active_class == s.active_class,
{
    lemma_switched_changes(s.with_live_layers(live, None), s.layers_target(live));
}

/// A known window keeps its layout through any series of inputs none of which is
/// about it.
pub proof fn law_window_kept_throughout(s: StateView, inputs: Seq<Input>, addr: u64)
    requires
        s.windows.contains_key(addr),
        leaves_window_alone(s, inputs, addr),
    ensures
        after(s, inputs).windows.contains_key(addr),
        after(s, inputs).windows[addr] == s.windows[addr],
    decreases inputs.len(),
{
    if inputs.len() > 0 {
        let before = inputs.drop_last();
        let last: int = inputs.len() - 1;
        assert forall|i: int| 0 <= i < before.len() implies !concerns_window(
            after(s, before.take(i)),
            #[trigger] before[i],
            addr,
        ) by {
            assert(before.take(i) =~= inputs.take(i));
            assert(before[i] == inputs[i]);
        }
        law_window_kept_throughout(s, before, addr);
        assert(inputs.take(last) =~= before);
        assert(!concerns_window(after(s, inputs.take(last)), inputs[last], addr));
        law_window_kept(after(s, before), inputs.last(), addr);
    }
}

/// What going over to a layout asks of Hyprland: nothing where the layout is active or
/// no keyboard is known, else one switch of every keyboard.
pub open spec fn switch_asked(s: StateView, layout: LayoutIndex) -> Seq<ActionView> {
    if layout == s.active_layout || s.keyboards.len() == 0 {
        Seq::empty()
    } else {
        seq![
            ActionView::SwitchLayout {
                keyboards: s.keyboards,
                layout,
                previous: s.active_layout,
            },
        ]
    }
}

/// A layout that the user chose in a window is restored when the window gets the
/// focus again, whatever came between, unless that was about the window.
pub proof fn law_window_layout_restored(
    s: StateView,
    keyboard: Text,
    layout: LayoutIndex,
    addr: u64,
    inputs: Seq<Input>,
)
    requires
        s.active_window == Some(addr),
        s.focused_layers.len() == 0,
        s.manages(keyboard),
        leaves_window_alone(s.recorded(keyboard, layout), inputs, addr),
        after(s.recorded(keyboard, layout), inputs).focused_layers.len() == 0,
    ensures
        ({
            let later = after(s.recorded(keyboard, layout), inputs);
            let step = taken(later, Input::Event(EventView::ActiveWindowV2 { addr }));
            &&& step.0.active_layout == layout
            &&& step.0.windows == later.windows
            &&& step.1 == switch_asked(later, layout)
        }),
{
    let changed = s.recorded(keyboard, layout);
    law_window_kept_throughout(changed, inputs, addr);
}

/// A window that is not known gets the layout of its class, and layout 0 where its
/// class has none.
pub proof fn law_new_window(s: StateView, addr: u64)
    requires
        s.focused_layers.len() == 0,
        !s.windows.contains_key(addr),
    ensures
        ({
            let step = s.handled(EventView::ActiveWindowV2 { addr });
            let layout = match s.active_class {
                Some(class_name) => match s.class_rules.lookup(class_name) {
                    Some(layout) => layout,
                    None => 0,
                },
                None => 0,
            };
            &&& step.0.windows == s.windows.insert(addr, layout)
            &&& step.0.active_layout == layout
            &&& step.1 == switch_asked(s, layout)
        }),
{
}

/// A window that closes is forgotten: should its address come again, it is that of a
/// new window.
pub proof fn law_closed_window_forgotten(s: StateView, addr: u64)
    requires
        s.focused_layers.len() == 0,
    ensures
        ({
            let closed = s.handled(EventView::CloseWindow { addr });
            &&& closed.1 == Seq::<ActionView>::empty()
            &&& closed.0.handled(EventView::ActiveWindowV2 { addr }).0.active_layout
                == s.class_default()
        }),
{
}

/// Where no window and no layer has the focus, a layout that the user chooses belongs
/// to none.
pub proof fn law_layout_without_focus(s: StateView, keyboard: Text, layout: LayoutIndex)
    requires
        s.focused_layers.len() == 0,
    ensures
        ({
            let unfocused = s.handled(EventView::EmptyActiveWindow).0;
            let changed = unfocused.recorded(keyboard, layout);
            &&& changed.windows == s.windows
            &&& changed.layers == s.layers
            &&& s.manages(keyboard) ==> changed.active_layout == layout
        }),
{
}

/// While a layer holds the keyboard, a window that gets the focus switches nothing,
/// and a layout that the user chooses belongs to the layer alone.
pub proof fn law_layer_shields_windows(
    s: StateView,
    addr: u64,
    keyboard: Text,
    layout: LayoutIndex,
)
    requires
        s.focused_layers.len() > 0,
    ensures
        s.handled(EventView::ActiveWindowV2 { addr }) == (
            s.with_active_window(addr),
            Seq::<ActionView>::empty(),
        ),
        s.recorded(keyboard, layout).windows == s.windows,
        s.manages(keyboard) ==> s.recorded(keyboard, layout).layers == s.layers.insert(
            s.focused_layers.last(),
            layout,
        ),
{
}

/// The focused layers of a valid state are all configured.
proof fn lemma_focused_listed(s: StateView)
    requires
        s.valid(),
    ensures
        layers::tracked_layers(s.focused_layers, s.layer_rules) == s.focused_layers,
{
    layers::lemma_tracked_all(s.focused_layers, s.layer_rules);
}

/// Where the focus stays, nothing changes.
proof fn lemma_same_focus(s: StateView)
    requires
        s.valid(),
    ensures
        s.with_focus(s.focused_layers, None) == s,
{
    let filled = model::remembered(s.layers, s.focused_layers, s.layer_rules);
    assert forall|k: Text| s.focused_layers.contains(k) implies #[trigger] s.layers.contains_key(
        k,
    ) by {
        let i = s.focused_layers.index_of(k);
        assert(s.focused_layers[i] == k);
    }
    assert(filled =~= s.layers);
}

/// A snapshot that shows each configured namespace as often as it is focused changes
/// nothing.
pub proof fn law_snapshot_of_the_focus(s: StateView, live: Seq<Text>)
    requires
        s.valid(),
        forall|k: Text|
            s.layer_rules.lookup(k) is Some ==> #[trigger] layers::occurrences(live, k)
                == layers::occurrences(s.focused_layers, k),
    ensures
        s.synced(live) == (s, Seq::<ActionView>::empty()),
{
    let mapped = layers::tracked_layers(live, s.layer_rules);
    lemma_focused_listed(s);
    assert forall|k: Text| #[trigger] layers::occurrences(s.focused_layers, k)
        == layers::occurrences(mapped, k) by {
        layers::lemma_tracked_configured(live, s.layer_rules, k);
        layers::lemma_tracked_configured(s.focused_layers, s.layer_rules, k);
        if s.layer_rules.lookup(k) is Some {
            assert(layers::occurrences(live, k) == layers::occurrences(s.focused_layers, k));
        }
    }
    layers::lemma_reconciled_same(s.focused_layers, mapped);
    lemma_same_focus(s);
}

/// Layers that are not configured are none of the daemon's business: opening or
/// closing one changes nothing, and asks for nothing.
pub proof fn law_unlisted_layer_ignored(s: StateView, namespace: Text)
    requires
        s.valid(),
        s.layer_rules.lookup(namespace) is None,
    ensures
        s.handled(EventView::OpenLayer { namespace }) == (s, Seq::<ActionView>::empty()),
        s.handled(EventView::CloseLayer { namespace }) == (s, Seq::<ActionView>::empty()),
{
    let opened = s.focused_layers.push(namespace);
    assert forall|k: Text| s.layer_rules.lookup(k) is Some implies #[trigger] layers::occurrences(
        opened,
        k,
    ) == layers::occurrences(s.focused_layers, k) by {
        layers::lemma_occurrences_push(s.focused_layers, namespace, k);
    }
    law_snapshot_of_the_focus(s, opened);
    let closed = layers::without_last(s.focused_layers, namespace);
    assert forall|k: Text| s.layer_rules.lookup(k) is Some implies #[trigger] layers::occurrences(
        closed,
        k,
    ) == layers::occurrences(s.focused_layers, k) by {
        layers::lemma_without_last_count(s.focused_layers, namespace, k);
    }
    law_snapshot_of_the_focus(s, closed);
}

/// The layout that a layer has when it opens: the one it had, or the configured one.
pub open spec fn layer_layout(s: StateView, namespace: Text) -> LayoutIndex {
    if s.layers.contains_key(namespace) {
        s.layers[namespace]
    } else {
        s.layer_rules.lookup(namespace).unwrap()
    }
}

/// The list is longer by one, so it is another.
proof fn lemma_push_differs(list: Seq<Text>, x: Text)
    ensures
        list.push(x) != list,
{
    assert(list.push(x).len() == list.len() + 1);
}

/// A configured layer that opens holds the keyboard, over those that did before, and
/// gets the layout that it had, or the configured one the first time round. Windows
/// and other layers keep theirs.
pub proof fn law_layer_opened(s: StateView, namespace: Text)
    requires
        s.valid(),
        s.layer_rules.lookup(namespace) is Some,
    ensures
        ({
            let step = s.handled(EventView::OpenLayer { namespace });
            let layout = layer_layout(s, namespace);
            &&& step.0.focused_layers == s.focused_layers.push(namespace)
            &&& step.0.active_layout == layout
            &&& step.0.windows == s.windows
            &&& step.0.active_window == s.active_window
            &&& step.0.active_class == s.active_class
            &&& step.0.layers == s.layers.insert(namespace, layout)
            &&& step.1 == switch_asked(s, layout)
        }),
{
    let opened = s.focused_layers.push(namespace);
    assert forall|i: int| 0 <= i < opened.len() implies s.layer_rules.lookup(
        #[trigger] opened[i],
    ) is Some by {
        if i < s.focused_layers.len() {
            assert(opened[i] == s.focused_layers[i]);
        }
    }
    layers::lemma_tracked_all(opened, s.layer_rules);
    layers::lemma_reconciled_open(s.focused_layers, namespace);
    lemma_push_differs(s.focused_layers, namespace);
    let filled = model::remembered(s.layers, opened, s.layer_rules);
    assert forall|k: Text| opened.contains(k) && k != namespace implies #[trigger] s.layers.contains_key(
        k,
    ) by {
        let i = opened.index_of(k);
        assert(opened[i] == k);
        assert(s.focused_layers[i] == k);
    }
    assert(opened[s.focused_layers.len() as int] == namespace);
    assert(opened.contains(namespace));
    assert(filled =~= s.layers.insert(namespace, layer_layout(s, namespace)));
}

/// The innermost layer that closes gives the keyboard back: to the layer under it, or
/// else to the active window, whose layout is restored if it has one.
pub proof fn law_layer_closed(s: StateView, outer: Seq<Text>, namespace: Text)
    requires
        s.valid(),
        s.focused_layers == outer.push(namespace),
    ensures
        ({
            let step = s.handled(EventView::CloseLayer { namespace });
            let target = if outer.len() > 0 {
                Some(s.layers[outer.last()])
            } else {
                s.active_window_layout()
            };
            &&& step.0 == (StateView {
                focused_layers: outer,
                active_layout: match target {
                    Some(layout) => layout,
                    None => s.active_layout,
                },
                pending_echoes: step.0.pending_echoes,
                ..s
            })
            &&& step.1 == match target {
                Some(layout) => switch_asked(s, layout),
                None => Seq::empty(),
            }
        }),
{
    let closed = layers::without_last(s.focused_layers, namespace);
    assert(closed =~= outer);
    assert forall|i: int| 0 <= i < outer.len() implies s.layer_rules.lookup(
        #[trigger] outer[i],
    ) is Some && s.layers.contains_key(outer[i]) by {
        assert(outer[i] == s.focused_layers[i]);
    }
    layers::lemma_tracked_all(outer, s.layer_rules);
    layers::lemma_reconciled_close(s.focused_layers, namespace);
    lemma_push_differs(outer, namespace);
    let filled = model::remembered(s.layers, outer, s.layer_rules);
    assert forall|k: Text| outer.contains(k) implies #[trigger] s.layers.contains_key(k) by {
        let i = outer.index_of(k);
        assert(outer[i] == k);
    }
    assert(filled =~= s.layers);
}

/// A layer that opens and closes again leaves the windows and the other layers as
/// they were, though the user changes the layout while it is open, and gives back the
/// layout that was in its place. The layer itself remembers the change.
pub proof fn law_layer_visit(
    s: StateView,
    namespace: Text,
    keyboard: Text,
    layout: LayoutIndex,
)
    requires
        s.valid(),
        s.layer_rules.lookup(namespace) is Some,
        s.manages(keyboard),
        model::step_fits(s.handled(EventView::OpenLayer { namespace })),
    ensures
        ({
            let opened = s.handled(EventView::OpenLayer { namespace }).0;
            let changed = opened.recorded(keyboard, layout);
            let closed = changed.handled(EventView::CloseLayer { namespace }).0;
            &&& closed.focused_layers == s.focused_layers
            &&& closed.windows == s.windows
            &&& closed.active_window == s.active_window
            &&& closed.layers == s.layers.insert(namespace, layout)
            &&& closed.active_layout == if s.focused_layers.len() > 0 {
                if s.focused_layers.last() == namespace {
                    layout
                } else {
                    s.layers[s.focused_layers.last()]
                }
            } else {
                match s.active_window_layout() {
                    Some(window_layout) => window_layout,
                    None => layout,
                }
            }
        }),
{
    let opened = s.handled(EventView::OpenLayer { namespace }).0;
    law_layer_opened(s, namespace);
    law_valid_kept(s, Input::Event(EventView::OpenLayer { namespace }));
    law_configuration_kept(s, Input::Event(EventView::OpenLayer { namespace }));
    assert(opened.manages(keyboard)) by {
        if s.configured_keyboards {
            assert(opened.keyboards == s.keyboards);
        }
    }
    let changed = opened.recorded(keyboard, layout);
    law_valid_kept(opened, Input::Layout { keyboard, layout });
    assert(s.focused_layers.push(namespace).last() == namespace);
    law_layer_closed(changed, s.focused_layers, namespace);
    assert(s.layers.insert(namespace, layer_layout(s, namespace)).insert(namespace, layout)
        =~= s.layers.insert(namespace, layout));
}

/// The user changes the layout while this layer is innermost.
pub open spec fn concerns_layer(s: StateView, input: Input, namespace: Text) -> bool {
    match input {
        Input::Layout { keyboard, .. } => s.manages(keyboard) && s.focused_layers.len() > 0
            && s.focused_layers.last() == namespace,
        _ => false,
    }
}

/// No input of a series changes the layout of this layer.
pub open spec fn leaves_layer_alone(s: StateView, inputs: Seq<Input>, namespace: Text) -> bool {
    forall|i: int|
        0 <= i < inputs.len() ==> !concerns_layer(
            after(s, inputs.take(i)),
            #[trigger] inputs[i],
            namespace,
        )
}

/// A snapshot of the layers leaves the known layouts of layers alone.
proof fn lemma_synced_layers(s: StateView, live: Seq<Text>, namespace: Text)
    requires
        s.layers.contains_key(namespace),
    ensures
        s.synced(live).0.layers.contains_key(namespace),
        s.synced(live).0.layers[namespace] == s.layers[namespace],
{
    lemma_switched_changes(s.with_live_layers(live, None), s.layers_target(live));
}

/// A known layer keeps its layout through everything but a change by the user while it
/// is innermost: through closing and opening too.
pub proof fn law_layer_kept(s: StateView, input: Input, namespace: Text)
    requires
        s.layers.contains_key(namespace),
        !concerns_layer(s, input, namespace),
    ensures
        taken(s, input).0.layers.contains_key(namespace),
        taken(s, input).0.layers[namespace] == s.layers[namespace],
{
    match input {
        Input::Event(EventView::ActiveWindowV2 { addr }) => {
            lemma_switched_changes(s.with_active_window(addr), s.activation_target(addr));
        },
        Input::Event(EventView::OpenLayer { namespace: other }) => {
            lemma_synced_layers(s, s.layers_after_event(other, true), namespace);
        },
        Input::Event(EventView::CloseLayer { namespace: other }) => {
            lemma_synced_layers(s, s.layers_after_event(other, false), namespace);
        },
        Input::LayerEvent { namespace: other, target, snapshot } => {
            lemma_synced_layers(
                s,
                layers::event_layers(s.focused_layers, other, target, snapshot),
                namespace,
            );
        },
        Input::Layers { live } => {
            lemma_synced_layers(s, live, namespace);
        },
        Input::Everything { active, layout, windows, layers } => {
            let aligned = s.realigned(layout, windows, layers);
            lemma_switched_changes(aligned.with_active(active), aligned.restore_target(active));
        },
        _ => {},
    }
}

/// A known layer keeps its layout through any series of inputs none of which changes it.
pub proof fn law_layer_kept_throughout(s: StateView, inputs: Seq<Input>, namespace: Text)
    requires
        s.layers.contains_key(namespace),
        leaves_layer_alone(s, inputs, namespace),
    ensures
        after(s, inputs).layers.contains_key(namespace),
        after(s, inputs).layers[namespace] == s.layers[namespace],
    decreases inputs.len(),
{
    if inputs.len() > 0 {
        let before = inputs.drop_last();
        let last: int = inputs.len() - 1;
        assert forall|i: int| 0 <= i < before.len() implies !concerns_layer(
            after(s, before.take(i)),
            #[trigger] before[i],
            namespace,
        ) by {
            assert(before.take(i) =~= inputs.take(i));
            assert(before[i] == inputs[i]);
        }
        law_layer_kept_throughout(s, before, namespace);
        assert(inputs.take(last) =~= before);
        assert(!concerns_layer(after(s, inputs.take(last)), inputs[last], namespace));
        law_layer_kept(after(s, before), inputs.last(), namespace);
    }
}

/// A layout that the user chose in a layer is applied when a layer of that namespace
/// opens again, whatever came between.
pub proof fn law_layer_layout_restored(
    s: StateView,
    keyboard: Text,
    layout: LayoutIndex,
    namespace: Text,
    inputs: Seq<Input>,
)
    requires
        s.valid(),
        s.focused_layers.len() > 0,
        s.focused_layers.last() == namespace,
        s.manages(keyboard),
        leaves_layer_alone(s.recorded(keyboard, layout), inputs, namespace),
        after(s.recorded(keyboard, layout), inputs).valid(),
    ensures
        ({
            let later = after(s.recorded(keyboard, layout), inputs);
            let step = later.handled(EventView::OpenLayer { namespace });
            &&& step.0.active_layout == layout
            &&& step.1 == switch_asked(later, layout)
        }),
{
    let changed = s.recorded(keyboard, layout);
    law_layer_kept_throughout(changed, inputs, namespace);
    law_configuration_kept_throughout(changed, inputs);
    assert(s.focused_layers[s.focused_layers.len() - 1] == namespace);
    law_layer_opened(after(changed, inputs), namespace);
}

/// After a snapshot of the layers each configured namespace is focused as often as
/// the snapshot shows it, and no other is.
pub proof fn law_snapshot_followed(s: StateView, live: Seq<Text>, namespace: Text)
    ensures
        layers::occurrences(s.synced(live).0.focused_layers, namespace) == if s.layer_rules.lookup(
            namespace,
        ) is Some {
            layers::occurrences(live, namespace)
        } else {
            0
        },
{
    lemma_switched_changes(s.with_live_layers(live, None), s.layers_target(live));
    layers::lemma_reconciled_count(
        s.focused_layers,
        layers::tracked_layers(live, s.layer_rules),
        namespace,
    );
    layers::lemma_tracked_configured(live, s.layer_rules, namespace);
}

/// The same snapshot again changes nothing.
pub proof fn law_snapshot_repeated(s: StateView, live: Seq<Text>)
    requires
        s.valid(),
        model::step_fits(s.synced(live)),
    ensures
        s.synced(live).0.synced(live) == (s.synced(live).0, Seq::<ActionView>::empty()),
{
    let next = s.synced(live).0;
    law_valid_kept(s, Input::Layers { live });
    law_configuration_kept(s, Input::Layers { live });
    assert forall|k: Text| next.layer_rules.lookup(k) is Some implies #[trigger] layers::occurrences(
        live,
        k,
    ) == layers::occurrences(next.focused_layers, k) by {
        law_snapshot_followed(s, live, k);
    }
    law_snapshot_of_the_focus(next, live);
}

/// Layers that a snapshot still shows keep their order, under those that are new.
pub proof fn law_snapshot_keeps_order(s: StateView, live: Seq<Text>)
    requires
        s.valid(),
        forall|k: Text|
            #[trigger] layers::occurrences(s.focused_layers, k) <= layers::occurrences(live, k),
    ensures
        s.focused_layers.is_prefix_of(s.synced(live).0.focused_layers),
{
    let mapped = layers::tracked_layers(live, s.layer_rules);
    lemma_focused_listed(s);
    assert forall|k: Text| #[trigger] layers::occurrences(s.focused_layers, k)
        <= layers::occurrences(mapped, k) by {
        layers::lemma_tracked_configured(live, s.layer_rules, k);
        layers::lemma_tracked_configured(s.focused_layers, s.layer_rules, k);
    }
    layers::lemma_reconciled_prefix(s.focused_layers, mapped);
    lemma_switched_changes(s.with_live_layers(live, None), s.layers_target(live));
}

/// A layer event that is settled against a snapshot leaves its own namespace as often
/// as was settled, and of every other no more than was focused and than the snapshot
/// shows: layers that the event is not about can go, but none of them comes.
pub proof fn law_layer_event_settled(
    s: StateView,
    namespace: Text,
    target: nat,
    snapshot: Seq<Text>,
    other: Text,
)
    requires
        s.valid(),
    ensures
        ({
            let focused = s.event_reconciled(namespace, target, snapshot).0.focused_layers;
            let before = layers::occurrences(s.focused_layers, other);
            let shown = layers::occurrences(snapshot, other);
            layers::occurrences(focused, other) == if other == namespace {
                if s.layer_rules.lookup(namespace) is Some {
                    target
                } else {
                    0
                }
            } else if before <= shown {
                before
            } else {
                shown
            }
        }),
{
    let live = layers::event_layers(s.focused_layers, namespace, target, snapshot);
    law_snapshot_followed(s, live, other);
    layers::lemma_event_layers_count(s.focused_layers, namespace, target, snapshot, other);
    lemma_focused_listed(s);
    layers::lemma_tracked_configured(s.focused_layers, s.layer_rules, other);
}

/// A layer event on its own does what it does with a snapshot that shows just what it
/// tells.
pub proof fn law_layer_event_without_snapshot(s: StateView, namespace: Text)
    ensures
        s.handled(EventView::OpenLayer { namespace }) == s.event_reconciled(
            namespace,
            layers::occurrences(s.focused_layers, namespace) + 1,
            s.focused_layers.push(namespace),
        ),
        s.focused_layers.contains(namespace) ==> s.handled(EventView::CloseLayer { namespace })
            == s.event_reconciled(
            namespace,
            (layers::occurrences(s.focused_layers, namespace) - 1) as nat,
            layers::without_last(s.focused_layers, namespace),
        ),
{
    layers::lemma_event_layers_open(s.focused_layers, namespace);
    if s.focused_layers.contains(namespace) {
        layers::lemma_event_layers_close(s.focused_layers, namespace);
    }
}

/// At most one thing is asked of Hyprland at a time. A switch goes to every known
/// keyboard and to another layout than the active one, and that layout counts as
/// active from there on. A question is about a keyboard that is known and not excluded.
pub proof fn law_what_is_asked(s: StateView, input: Input)
    ensures
        ({
            let (next, actions) = taken(s, input);
            let active = match input {
                Input::Everything { layout, .. } => layout,
                _ => s.active_layout,
            };
            &&& actions.len() <= 1
            &&& actions.len() == 1 ==> match actions[0] {
                ActionView::SwitchLayout { keyboards, layout, previous } => {
                    &&& keyboards == s.keyboards
                    &&& keyboards.len() > 0
                    &&& previous == active
                    &&& layout != previous
                    &&& layout == next.active_layout
                },
                ActionView::QueryKeyboardLayout { keyboard } => {
                    &&& !s.excludes(keyboard)
                    &&& next.keyboards.contains(keyboard)
                },
            }
        }),
{
    match input {
        Input::Event(EventView::ActiveLayout { keyboard, .. }) => {
            let next = s.seeded(keyboard);
            if !s.configured_keyboards && !s.excludes(keyboard) && !s.keyboards.contains(keyboard) {
                assert(next.keyboards[s.keyboards.len() as int] == keyboard);
            }
        },
        _ => {},
    }
}

/// The reports of one keyboard, `n` times.
pub open spec fn reports(keyboard: Text, layout_name: Text, n: nat) -> Seq<Input> {
    Seq::new(n, |i: int| Input::Event(EventView::ActiveLayout { keyboard, layout_name }))
}

/// As many reports of a keyboard as it owes echoes are taken as echoes: they change
/// nothing but what is owed.
pub proof fn law_echoes_ignored(s: StateView, keyboard: Text, layout_name: Text, n: nat)
    requires
        !s.excludes(keyboard),
        n <= model::echoes(s.pending_echoes, keyboard),
    ensures
        ({
            let later = after(s, reports(keyboard, layout_name, n));
            &&& later == (StateView { pending_echoes: later.pending_echoes, ..s })
            &&& model::echoes(later.pending_echoes, keyboard) == model::echoes(
                s.pending_echoes,
                keyboard,
            ) - n
            &&& forall|other: Text|
                other != keyboard ==> #[trigger] model::echoes(later.pending_echoes, other)
                    == model::echoes(s.pending_echoes, other)
        }),
    decreases n,
{
    let inputs = reports(keyboard, layout_name, n);
    if n > 0 {
        let fewer = (n - 1) as nat;
        assert(inputs.drop_last() =~= reports(keyboard, layout_name, fewer));
        law_echoes_ignored(s, keyboard, layout_name, fewer);
        let before = after(s, reports(keyboard, layout_name, fewer));
        let later = after(s, inputs);
        assert(later == before.echo_consumed(keyboard));
        assert forall|other: Text| other != keyboard implies #[trigger] model::echoes(
            later.pending_echoes,
            other,
        ) == model::echoes(s.pending_echoes, other) by {
            assert(model::echoes(before.pending_echoes, other) == model::echoes(
                s.pending_echoes,
                other,
            ));
        }
    }
}

/// A report of a keyboard that owes no echo is a change by the user, and is asked
/// about, unless the keyboard is excluded or not among the configured ones.
pub proof fn law_change_asked_about(s: StateView, keyboard: Text, layout_name: Text)
    requires
        model::echoes(s.pending_echoes, keyboard) == 0,
    ensures
        ({
            let step = s.handled(EventView::ActiveLayout { keyboard, layout_name });
            &&& step.0 == s.seeded(keyboard)
            &&& step.1 == if s.manages(keyboard) {
                seq![ActionView::QueryKeyboardLayout { keyboard }]
            } else {
                Seq::empty()
            }
        }),
{
}

/// A switch is owed one echo by every keyboard, where none is listed twice, so the
/// reports that it causes are not taken for changes by the user.
pub proof fn law_switch_owed(s: StateView, target: LayoutIndex, keyboard: Text)
    requires
        target != s.active_layout,
        s.keyboards.no_duplicates(),
    ensures
        model::echoes(s.switched(target).0.pending_echoes, keyboard) == model::echoes(
            s.pending_echoes,
            keyboard,
        ) + if s.keyboards.contains(keyboard) { 1nat } else { 0nat },
{
    model::lemma_with_echoes(s.pending_echoes, s.keyboards, keyboard);
    layers::lemma_occurrences_once(s.keyboards, keyboard);
    layers::lemma_occurrences_contains(s.keyboards, keyboard);
}

/// Maps of owed echoes with the same counts are the same.
proof fn lemma_same_echoes(a: Map<Text, nat>, b: Map<Text, nat>)
    requires
        model::echoes_in_range(a),
        forall|k: Text| #[trigger] b.contains_key(k) ==> 1 <= b[k],
        forall|k: Text| #[trigger] model::echoes(a, k) == model::echoes(b, k),
    ensures
        a == b,
{
    assert forall|k: Text| #[trigger] a.contains_key(k) == b.contains_key(k) by {
        assert(model::echoes(a, k) == model::echoes(b, k));
    }
    assert forall|k: Text| #[trigger] a.contains_key(k) implies a[k] == b[k] by {
        assert(model::echoes(a, k) == model::echoes(b, k));
        assert(b.contains_key(k));
    }
    assert(a =~= b);
}

/// How often a keyboard of the list was not switched.
pub open spec fn failures(keyboards: Seq<Text>, switched: Seq<bool>, keyboard: Text) -> nat
    decreases keyboards.len(),
{
    if keyboards.len() == 0 {
        0
    } else {
        failures(keyboards.drop_last(), switched.drop_last(), keyboard) + if !switched.last()
            && keyboards.last() == keyboard {
            1nat
        } else {
            0nat
        }
    }
}

/// Each failure takes one echo away.
proof fn lemma_without_failed(
    pending: Map<Text, nat>,
    keyboards: Seq<Text>,
    switched: Seq<bool>,
    keyboard: Text,
)
    requires
        keyboards.len() == switched.len(),
    ensures
        model::echoes(model::without_failed(pending, keyboards, switched), keyboard) == ({
            let owed = model::echoes(pending, keyboard);
            let failed = failures(keyboards, switched, keyboard);
            if failed <= owed {
                owed - failed
            } else {
                0
            }
        }),
    decreases keyboards.len(),
{
    if keyboards.len() > 0 {
        lemma_without_failed(pending, keyboards.drop_last(), switched.drop_last(), keyboard);
    }
}

/// A keyboard fails no more often than it is named, and just as often where none is
/// switched.
proof fn lemma_failures(keyboards: Seq<Text>, switched: Seq<bool>, keyboard: Text)
    requires
        keyboards.len() == switched.len(),
    ensures
        failures(keyboards, switched, keyboard) <= layers::occurrences(keyboards, keyboard),
        !switched.contains(true) ==> failures(keyboards, switched, keyboard)
            == layers::occurrences(keyboards, keyboard),
    decreases keyboards.len(),
{
    if keyboards.len() > 0 {
        lemma_failures(keyboards.drop_last(), switched.drop_last(), keyboard);
        assert(switched[switched.len() - 1] == switched.last());
        assert(switched.drop_last().contains(true) ==> switched.contains(true)) by {
            if switched.drop_last().contains(true) {
                let i = switched.drop_last().index_of(true);
                assert(switched[i]);
            }
        }
    }
}

/// A switch that fails on every keyboard leaves nothing behind: the state is as it was
/// before the switch.
pub proof fn law_failed_switch_undone(s: StateView, target: LayoutIndex, switched: Seq<bool>)
    requires
        s.valid(),
        target != s.active_layout,
        s.keyboards.len() > 0,
        switched.len() == s.keyboards.len(),
        !switched.contains(true),
        model::step_fits(s.switched(target)),
    ensures
        s.switched(target).0.switch_settled(s.keyboards, switched, s.active_layout) == s,
{
    let owed = model::with_echoes(s.pending_echoes, s.keyboards);
    let rest = model::without_failed(owed, s.keyboards, switched);
    assert forall|k: Text| #[trigger] model::echoes(owed, k) <= model::max_echoes() by {
        assert(model::echoes(s.switched(target).0.pending_echoes, k) <= model::max_echoes());
    }
    model::lemma_echoes_in_range(s.pending_echoes, s.keyboards);
    lemma_without_failed_in_range(owed, s.keyboards, switched);
    assert forall|k: Text| #[trigger] model::echoes(rest, k) == model::echoes(
        s.pending_echoes,
        k,
    ) by {
        lemma_without_failed(owed, s.keyboards, switched, k);
        lemma_failures(s.keyboards, switched, k);
        model::lemma_with_echoes(s.pending_echoes, s.keyboards, k);
    }
    lemma_same_echoes(rest, s.pending_echoes);
}

/// A switch that fails on some keyboards is owed an echo by the others alone, and its
/// layout stays the active one.
pub proof fn law_partial_switch(
    s: StateView,
    target: LayoutIndex,
    switched: Seq<bool>,
    keyboard: Text,
)
    requires
        target != s.active_layout,
        s.keyboards.len() == switched.len(),
        switched.contains(true),
    ensures
        ({
            let settled = s.switched(target).0.switch_settled(
                s.keyboards,
                switched,
                s.active_layout,
            );
            &&& settled.active_layout == target
            &&& model::echoes(settled.pending_echoes, keyboard) == model::echoes(
                s.pending_echoes,
                keyboard,
            ) + layers::occurrences(s.keyboards, keyboard) - failures(
                s.keyboards,
                switched,
                keyboard,
            )
        }),
{
    let owed = model::with_echoes(s.pending_echoes, s.keyboards);
    lemma_without_failed(owed, s.keyboards, switched, keyboard);
    lemma_failures(s.keyboards, switched, keyboard);
    model::lemma_with_echoes(s.pending_echoes, s.keyboards, keyboard);
    let i = switched.index_of(true);
    assert(switched[i]);
    assert(s.keyboards.len() > 0);
}

/// The reports of an excluded keyboard, its layout and its being there change nothing. Where
/// no keyboards are configured it is never among those that are switched; one that is
/// configured by its name is switched along with the others all the same.
pub proof fn law_excluded_keyboard_unheard(
    s: StateView,
    keyboard: Text,
    layout_name: Text,
    layout: LayoutIndex,
)
    requires
        s.excludes(keyboard),
    ensures
        s.handled(EventView::ActiveLayout { keyboard, layout_name }) == (
            s,
            Seq::<ActionView>::empty(),
        ),
        s.recorded(keyboard, layout) == s,
        s.seeded(keyboard) == s,
        s.valid() && !s.configured_keyboards ==> !s.keyboards.contains(keyboard),
{
    if s.valid() && !s.configured_keyboards && s.keyboards.contains(keyboard) {
        let i = s.keyboards.index_of(keyboard);
        assert(s.keyboards[i] == keyboard);
    }
}

/// Where keyboards are configured, the others are ignored: their reports ask for
/// nothing, unless they owe an echo, and their layouts are not recorded.
pub proof fn law_unlisted_keyboard_ignored(
    s: StateView,
    keyboard: Text,
    layout_name: Text,
    layout: LayoutIndex,
)
    requires
        s.configured_keyboards,
        !s.keyboards.contains(keyboard),
    ensures
        s.handled(EventView::ActiveLayout { keyboard, layout_name }).1
            == Seq::<ActionView>::empty(),
        model::echoes(s.pending_echoes, keyboard) == 0 ==> s.handled(
            EventView::ActiveLayout { keyboard, layout_name },
        ).0 == s,
        s.recorded(keyboard, layout) == s,
        s.seeded(keyboard) == s,
{
}

/// A keyboard that is reported and neither excluded nor owing an echo is switched along
/// with the others from there on, unless keyboards are configured.
pub proof fn law_keyboard_learned(
    s: StateView,
    keyboard: Text,
    layout_name: Text,
    target: LayoutIndex,
)
    requires
        !s.configured_keyboards,
        !s.excludes(keyboard),
        model::echoes(s.pending_echoes, keyboard) == 0,
        target != s.active_layout,
    ensures
        ({
            let learned = s.handled(EventView::ActiveLayout { keyboard, layout_name }).0;
            &&& learned.keyboards.contains(keyboard)
            &&& learned.switched(target).1 == seq![
                ActionView::SwitchLayout {
                    keyboards: learned.keyboards,
                    layout: target,
                    previous: s.active_layout,
                },
            ]
        }),
{
    let learned = s.seeded(keyboard);
    if !s.keyboards.contains(keyboard) {
        assert(learned.keyboards[s.keyboards.len() as int] == keyboard);
    }
}

/// After a snapshot of everything no window is known but those that exist and the
/// active one, and no echo is owed but those of the switch that it asks for.
pub proof fn law_resync_forgets(
    s: StateView,
    active: Option<(u64, Text)>,
    layout: LayoutIndex,
    windows: Seq<u64>,
    live: Seq<Text>,
    addr: u64,
    keyboard: Text,
)
    ensures
        ({
            let (next, actions) = s.resynced(active, layout, windows, live);
            &&& next.windows.contains_key(addr) ==> windows.contains(addr) || (active is Some
                && active.unwrap().0 == addr)
            &&& model::echoes(next.pending_echoes, keyboard) == if actions.len() > 0 {
                layers::occurrences(s.keyboards, keyboard)
            } else {
                0
            }
        }),
{
    let aligned = s.realigned(layout, windows, live);
    lemma_switched_changes(aligned.with_active(active), aligned.restore_target(active));
    model::lemma_with_echoes(Map::empty(), s.keyboards, keyboard);
    if aligned.windows.contains_key(addr) {
        assert(windows.to_set().contains(addr));
    }
}

/// A known window that is active when everything is read anew gets its layout back. An
/// unknown one takes over the actual layout, and nothing is switched. Both hold where
/// no configured layer is mapped.
pub proof fn law_resync_restores_window(
    s: StateView,
    addr: u64,
    class_name: Text,
    layout: LayoutIndex,
    windows: Seq<u64>,
    live: Seq<Text>,
)
    requires
        layers::tracked_layers(live, s.layer_rules).len() == 0,
    ensures
        ({
            let (next, actions) = s.resynced(Some((addr, class_name)), layout, windows, live);
            let known = s.windows.contains_key(addr) && windows.contains(addr);
            let target = if known {
                s.windows[addr]
            } else {
                layout
            };
            &&& next.active_window == Some(addr)
            &&& next.active_class == Some(class_name)
            &&& next.windows[addr] == target
            &&& next.windows.contains_key(addr)
            &&& next.active_layout == target
            &&& next.focused_layers.len() == 0
            &&& !known ==> actions == Seq::<ActionView>::empty()
        }),
{
    let mapped = layers::tracked_layers(live, s.layer_rules);
    lemma_none_reconciled(s.focused_layers, mapped);
    let aligned = s.realigned(layout, windows, live);
    let active = Some((addr, class_name));
    assert(windows.contains(addr) == windows.to_set().contains(addr));
    lemma_switched_changes(aligned.with_active(active), aligned.restore_target(active));
}

/// Where nothing is mapped, nothing is focused.
proof fn lemma_none_reconciled(focused: Seq<Text>, mapped: Seq<Text>)
    requires
        mapped.len() == 0,
    ensures
        layers::reconciled(focused, mapped).len() == 0,
{
    let rest = layers::reconciled(focused, mapped);
    if rest.len() > 0 {
        layers::lemma_reconciled_count(focused, mapped, rest.last());
        layers::lemma_occurrences_contains(rest, rest.last());
        assert(rest[rest.len() - 1] == rest.last());
        assert(rest.contains(rest.last()));
    }
}

/// While a configured layer is mapped, reading everything anew does not give its layout
/// to a window: an unknown one gets that of a new window of its class. The layer itself
/// keeps its layout, or takes over the actual one where it had none.
pub proof fn law_resync_under_layer(
    s: StateView,
    addr: u64,
    class_name: Text,
    layout: LayoutIndex,
    windows: Seq<u64>,
    live: Seq<Text>,
)
    requires
        s.valid(),
        layers::tracked_layers(live, s.layer_rules).len() > 0,
    ensures
        ({
            let next = s.resynced(Some((addr, class_name)), layout, windows, live).0;
            let top = next.focused_layers.last();
            let known = s.windows.contains_key(addr) && windows.contains(addr);
            &&& next.focused_layers.len() > 0
            &&& next.windows[addr] == if known {
                s.windows[addr]
            } else {
                match s.class_rules.lookup(class_name) {
                    Some(class_layout) => class_layout,
                    None => 0,
                }
            }
            &&& next.windows.contains_key(addr)
            &&& next.active_layout == next.layers[top]
            &&& next.active_layout == if s.layers.contains_key(top) {
                s.layers[top]
            } else {
                layout
            }
        }),
{
    let mapped = layers::tracked_layers(live, s.layer_rules);
    let focused = layers::reconciled(s.focused_layers, mapped);
    let some = mapped.last();
    assert(mapped[mapped.len() - 1] == some);
    assert(mapped.contains(some));
    layers::lemma_occurrences_contains(mapped, some);
    layers::lemma_reconciled_count(s.focused_layers, mapped, some);
    layers::lemma_occurrences_contains(focused, some);
    assert(focused.len() > 0);
    assert(focused.contains(focused.last()));
    let aligned = s.realigned(layout, windows, live);
    let active = Some((addr, class_name));
    assert(windows.contains(addr) == windows.to_set().contains(addr));
    lemma_switched_changes(aligned.with_active(active), aligned.restore_target(active));
}

/// Reading everything anew twice asks for nothing the second time, if the layout that
/// was asked for is the actual one by then and the active window is among those that
/// exist.
pub proof fn law_resync_settles(
    s: StateView,
    active: Option<(u64, Text)>,
    layout: LayoutIndex,
    windows: Seq<u64>,
    live: Seq<Text>,
)
    requires
        s.valid(),
        active is Some ==> windows.contains(active.unwrap().0),
        model::step_fits(s.resynced(active, layout, windows, live)),
    ensures
        ({
            let first = s.resynced(active, layout, windows, live).0;
            first.resynced(active, first.active_layout, windows, live) == (
                StateView { pending_echoes: Map::empty(), ..first },
                Seq::<ActionView>::empty(),
            )
        }),
{
    let input = Input::Everything { active, layout, windows, layers: live };
    let first = s.resynced(active, layout, windows, live).0;
    law_valid_kept(s, input);
    law_configuration_kept(s, input);
    let mapped = layers::tracked_layers(live, s.layer_rules);
    let aligned = s.realigned(layout, windows, live);
    lemma_switched_changes(aligned.with_active(active), aligned.restore_target(active));
    assert(first.focused_layers == layers::reconciled(s.focused_layers, mapped));
    assert forall|k: Text| #[trigger] layers::occurrences(first.focused_layers, k)
        == layers::occurrences(mapped, k) by {
        layers::lemma_reconciled_count(s.focused_layers, mapped, k);
    }
    layers::lemma_reconciled_same(first.focused_layers, mapped);
    assert(first.windows.restrict(windows.to_set()) =~= first.windows) by {
        if active is Some {
            assert(windows.to_set().contains(active.unwrap().0));
        }
    }
    let cleared = StateView { pending_echoes: Map::empty(), ..first };
    lemma_same_focus(cleared);
    assert(first.focused_layers.len() > 0 ==> first.layers.contains_key(
        first.focused_layers.last(),
    )) by {
        if first.focused_layers.len() > 0 {
            assert(first.focused_layers[first.focused_layers.len() - 1]
                == first.focused_layers.last());
        }
    }
    assert(first.realigned(first.active_layout, windows, live) == cleared);
    assert(cleared.with_active(active) == cleared);
}

/// Reading everything anew twice with the same answers leaves the same state and asks for
/// the same the second time as the first.
pub proof fn law_resync_repeated(
    s: StateView,
    active: Option<(u64, Text)>,
    layout: LayoutIndex,
    windows: Seq<u64>,
    live: Seq<Text>,
)
    ensures
        s.resynced(active, layout, windows, live).0.resynced(active, layout, windows, live)
            == s.resynced(active, layout, windows, live),
{
    let first = s.resynced(active, layout, windows, live).0;
    let mapped = layers::tracked_layers(live, s.layer_rules);
    let aligned = s.realigned(layout, windows, live);
    let again = first.realigned(layout, windows, live);
    lemma_switched_changes(aligned.with_active(active), aligned.restore_target(active));
    assert forall|k: Text| #[trigger] layers::occurrences(first.focused_layers, k)
        == layers::occurrences(mapped, k) by {
        layers::lemma_reconciled_count(s.focused_layers, mapped, k);
    }
    layers::lemma_reconciled_same(first.focused_layers, mapped);
    let focused = aligned.focused_layers;
    assert(again.focused_layers == focused);
    assert forall|k: Text| focused.contains(k) implies #[trigger] aligned.layers.contains_key(
        k,
    ) by {}
    if focused.len() > 0 {
        assert(focused[focused.len() - 1] == focused.last());
        assert(focused.contains(focused.last()));
    }
    assert(again.layers =~= aligned.layers);
    assert(again.active_layout == aligned.active_layout);
    let live_set = windows.to_set();
    match active {
        Some((addr, _)) => {
            let known = aligned.windows.contains_key(addr);
            assert(known ==> again.windows =~= aligned.windows);
            assert(!known && !live_set.contains(addr) ==> again.windows =~= aligned.windows);
            assert(!known && live_set.contains(addr) ==> again.windows
                =~= aligned.with_active(active).windows);
        },
        None => {
            assert(again.windows =~= aligned.windows);
        },
    }
    assert(again.with_active(active) =~= aligned.with_active(active));
}

} // verus!
