//! What the daemon knows, and how each step changes it.

use vstd::prelude::*;

#[allow(unused_imports)]
use crate::config;
#[allow(unused_imports)]
use crate::event::EventView;
#[allow(unused_imports)]
use crate::layers;
#[allow(unused_imports)]
use crate::rules::RulesView;
#[allow(unused_imports)]
use crate::state::LayoutIndex;
#[allow(unused_imports)]
use crate::text::Text;

verus! {

/// What to ask of Hyprland.
pub enum ActionView {
    SwitchLayout { keyboards: Seq<Text>, layout: LayoutIndex, previous: LayoutIndex },
    QueryKeyboardLayout { keyboard: Text },
}

/// What the daemon knows.
#[verifier::ext_equal]
pub struct StateView {
    /// The layout of every known window.
    pub windows: Map<u64, LayoutIndex>,
    pub active_window: Option<u64>,
    pub active_class: Option<Text>,
    pub active_layout: LayoutIndex,
    /// The keyboards to switch.
    pub keyboards: Seq<Text>,
    /// The keyboards are named in the configuration, and no others are learned.
    pub configured_keyboards: bool,
    pub exclude_contains: Seq<Text>,
    pub class_rules: RulesView,
    /// The layout of every layer namespace that was ever focused.
    pub layers: Map<Text, LayoutIndex>,
    /// The configured namespaces that are mapped, innermost last.
    pub focused_layers: Seq<Text>,
    pub layer_rules: RulesView,
    /// How many of the own switches each keyboard has yet to report.
    pub pending_echoes: Map<Text, nat>,
}

/// The state after a step, and what to ask of Hyprland.
pub type Step = (StateView, Seq<ActionView>);

/// The most echoes that one keyboard can owe.
pub open spec fn max_echoes() -> nat {
    255
}

/// How many echoes a keyboard owes.
pub open spec fn echoes(pending: Map<Text, nat>, keyboard: Text) -> nat {
    if pending.contains_key(keyboard) {
        pending[keyboard]
    } else {
        0
    }
}

/// One more echo is owed.
pub open spec fn with_echo(pending: Map<Text, nat>, keyboard: Text) -> Map<Text, nat> {
    pending.insert(keyboard, echoes(pending, keyboard) + 1)
}

/// One more echo is owed for each keyboard of the list.
pub open spec fn with_echoes(pending: Map<Text, nat>, keyboards: Seq<Text>) -> Map<Text, nat> {
    Map::new(
        |k: Text| pending.contains_key(k) || keyboards.contains(k),
        |k: Text| echoes(pending, k) + layers::occurrences(keyboards, k),
    )
}

/// One echo fewer is owed, if any was.
pub open spec fn without_echo(pending: Map<Text, nat>, keyboard: Text) -> Map<Text, nat> {
    if echoes(pending, keyboard) <= 1 {
        pending.remove(keyboard)
    } else {
        pending.insert(keyboard, (echoes(pending, keyboard) - 1) as nat)
    }
}

/// One echo fewer is owed for each keyboard of the list that was not switched.
pub open spec fn without_failed(
    pending: Map<Text, nat>,
    keyboards: Seq<Text>,
    switched: Seq<bool>,
) -> Map<Text, nat>
    decreases keyboards.len(),
{
    if keyboards.len() == 0 {
        pending
    } else {
        let before = without_failed(pending, keyboards.drop_last(), switched.drop_last());
        if switched.last() {
            before
        } else {
            without_echo(before, keyboards.last())
        }
    }
}

/// The layouts of layers once the focused ones have one: what was known stays, and
/// what was not gets the configured layout.
pub open spec fn remembered(
    known: Map<Text, LayoutIndex>,
    focused: Seq<Text>,
    rules: RulesView,
) -> Map<Text, LayoutIndex> {
    Map::new(
        |k: Text| known.contains_key(k) || focused.contains(k),
        |k: Text|
            if known.contains_key(k) {
                known[k]
            } else {
                rules.lookup(k).unwrap()
            },
    )
}

/// The counts of owed echoes are such that none is zero and none too large.
pub open spec fn echoes_in_range(pending: Map<Text, nat>) -> bool {
    forall|k: Text| #[trigger] pending.contains_key(k) ==> 1 <= pending[k] <= max_echoes()
}

impl StateView {
    /// Whether the keyboard is excluded by its name.
    pub open spec fn excludes(self, keyboard: Text) -> bool {
        config::excluded_by(self.exclude_contains, keyboard)
    }

    /// Whether the keyboard's layout is followed.
    pub open spec fn manages(self, keyboard: Text) -> bool {
        !self.excludes(keyboard) && (!self.configured_keyboards || self.keyboards.contains(
            keyboard,
        ))
    }

    /// What holds of every state:
    /// - every focused layer is configured, and its layout is known;
    /// - the counts of owed echoes are in range;
    /// - no learned keyboard is excluded or listed twice.
    pub open spec fn valid(self) -> bool {
        &&& forall|i: int|
            0 <= i < self.focused_layers.len() ==> self.layer_rules.lookup(
                #[trigger] self.focused_layers[i],
            ) is Some && self.layers.contains_key(self.focused_layers[i])
        &&& echoes_in_range(self.pending_echoes)
        &&& !self.configured_keyboards ==> {
            &&& self.keyboards.no_duplicates()
            &&& forall|i: int|
                0 <= i < self.keyboards.len() ==> !self.excludes(#[trigger] self.keyboards[i])
        }
    }

    /// The layout for a new window of the active class.
    pub open spec fn class_default(self) -> LayoutIndex {
        match self.active_class {
            Some(class_name) => match self.class_rules.lookup(class_name) {
                Some(layout) => layout,
                None => 0,
            },
            None => 0,
        }
    }

    /// The layout of a window: the one it had, or that of a new window.
    pub open spec fn window_layout(self, addr: u64) -> LayoutIndex {
        if self.windows.contains_key(addr) {
            self.windows[addr]
        } else {
            self.class_default()
        }
    }

    /// The layout that is known for the active window.
    pub open spec fn active_window_layout(self) -> Option<LayoutIndex> {
        match self.active_window {
            Some(addr) => if self.windows.contains_key(addr) {
                Some(self.windows[addr])
            } else {
                None
            },
            None => None,
        }
    }

    /// The layout of the innermost focused layer.
    pub open spec fn top_layer_layout(self) -> Option<LayoutIndex> {
        if self.focused_layers.len() == 0 {
            None
        } else {
            Some(self.layers[self.focused_layers.last()])
        }
    }

    /// Goes over to a layout: nothing to do where it is active, else every keyboard
    /// is switched and owes an echo.
    pub open spec fn switched(self, target: LayoutIndex) -> Step {
        if target == self.active_layout {
            (self, Seq::empty())
        } else if self.keyboards.len() == 0 {
            (StateView { active_layout: target, ..self }, Seq::empty())
        } else {
            (
                StateView {
                    active_layout: target,
                    pending_echoes: with_echoes(self.pending_echoes, self.keyboards),
                    ..self
                },
                seq![
                    ActionView::SwitchLayout {
                        keyboards: self.keyboards,
                        layout: target,
                        previous: self.active_layout,
                    },
                ],
            )
        }
    }

    /// Goes over to a layout, if there is one to go over to.
    pub open spec fn switched_to(self, target: Option<LayoutIndex>) -> Step {
        match target {
            Some(layout) => self.switched(layout),
            None => (self, Seq::empty()),
        }
    }

    /// A keyboard becomes known, unless the configuration is against it.
    pub open spec fn seeded(self, keyboard: Text) -> StateView {
        if self.configured_keyboards || self.excludes(keyboard) || self.keyboards.contains(
            keyboard,
        ) {
            self
        } else {
            StateView { keyboards: self.keyboards.push(keyboard), ..self }
        }
    }

    /// The user changed a keyboard's layout: it belongs to the innermost focused
    /// layer, or else to the active window.
    pub open spec fn recorded(self, keyboard: Text, layout: LayoutIndex) -> StateView {
        if !self.manages(keyboard) {
            self
        } else if self.focused_layers.len() > 0 {
            StateView {
                active_layout: layout,
                layers: self.layers.insert(self.focused_layers.last(), layout),
                ..self
            }
        } else {
            match self.active_window {
                Some(addr) => StateView {
                    active_layout: layout,
                    windows: self.windows.insert(addr, layout),
                    ..self
                },
                None => StateView { active_layout: layout, ..self },
            }
        }
    }

    /// A window has the focus, and a layout.
    pub open spec fn with_active_window(self, addr: u64) -> StateView {
        StateView {
            active_window: Some(addr),
            windows: if self.windows.contains_key(addr) {
                self.windows
            } else {
                self.windows.insert(addr, self.class_default())
            },
            ..self
        }
    }

    /// A window gets the focus: its layout is restored, unless a layer holds the
    /// keyboard.
    pub open spec fn activated(self, addr: u64) -> Step {
        self.with_active_window(addr).switched_to(self.activation_target(addr))
    }

    /// The layout that a window restores when it gets the focus.
    pub open spec fn activation_target(self, addr: u64) -> Option<LayoutIndex> {
        if self.focused_layers.len() > 0 {
            None
        } else {
            Some(self.window_layout(addr))
        }
    }

    /// The focused layers are these. Where the innermost one was unknown, it takes
    /// the layout to adopt, if there is one.
    pub open spec fn with_focus(
        self,
        focused: Seq<Text>,
        adopt: Option<LayoutIndex>,
    ) -> StateView {
        let filled = remembered(self.layers, focused, self.layer_rules);
        StateView {
            focused_layers: focused,
            layers: if focused.len() > 0 && !self.layers.contains_key(focused.last())
                && adopt is Some {
                filled.insert(focused.last(), adopt.unwrap())
            } else {
                filled
            },
            ..self
        }
    }

    /// The focused layers after a snapshot of what is mapped.
    pub open spec fn focus_after(self, live: Seq<Text>) -> Seq<Text> {
        layers::reconciled(
            self.focused_layers,
            layers::tracked_layers(live, self.layer_rules),
        )
    }

    /// The focused layers follow a snapshot of what is mapped.
    pub open spec fn with_live_layers(
        self,
        live: Seq<Text>,
        adopt: Option<LayoutIndex>,
    ) -> StateView {
        self.with_focus(self.focus_after(live), adopt)
    }

    /// The layout that a snapshot asks for: none where the focus stays as it is, else
    /// that of the innermost layer, or that of the active window under them.
    pub open spec fn layers_target(self, live: Seq<Text>) -> Option<LayoutIndex> {
        if self.focus_after(live) == self.focused_layers {
            None
        } else {
            let after = self.with_live_layers(live, None);
            match after.top_layer_layout() {
                Some(layout) => Some(layout),
                None => self.active_window_layout(),
            }
        }
    }

    /// The mapped layers are these.
    pub open spec fn synced(self, live: Seq<Text>) -> Step {
        self.with_live_layers(live, None).switched_to(self.layers_target(live))
    }

    /// What is mapped if one more layer of the namespace opens or closes.
    pub open spec fn layers_after_event(self, namespace: Text, opening: bool) -> Seq<Text> {
        if opening {
            self.focused_layers.push(namespace)
        } else {
            layers::without_last(self.focused_layers, namespace)
        }
    }

    /// A keyboard reported a layout: an owed echo is taken as that, and anything else
    /// of a keyboard that matters is asked about.
    pub open spec fn layout_reported(self, keyboard: Text) -> Step {
        if self.excludes(keyboard) {
            (self, Seq::empty())
        } else if echoes(self.pending_echoes, keyboard) > 0 {
            (self.echo_consumed(keyboard), Seq::empty())
        } else if self.configured_keyboards && !self.keyboards.contains(keyboard) {
            (self, Seq::empty())
        } else {
            (self.seeded(keyboard), seq![ActionView::QueryKeyboardLayout { keyboard }])
        }
    }

    /// One echo fewer is owed.
    pub open spec fn echo_consumed(self, keyboard: Text) -> StateView {
        StateView { pending_echoes: without_echo(self.pending_echoes, keyboard), ..self }
    }

    /// What an event does.
    pub open spec fn handled(self, event: EventView) -> Step {
        match event {
            EventView::ActiveWindow { class_name } => (
                StateView { active_class: Some(class_name), ..self },
                Seq::empty(),
            ),
            EventView::ActiveWindowV2 { addr } => self.activated(addr),
            EventView::EmptyActiveWindow => (
                StateView { active_window: None, active_class: None, ..self },
                Seq::empty(),
            ),
            EventView::CloseWindow { addr } => (
                StateView { windows: self.windows.remove(addr), ..self },
                Seq::empty(),
            ),
            EventView::ActiveLayout { keyboard, .. } => self.layout_reported(keyboard),
            EventView::OpenLayer { namespace } => self.synced(
                self.layers_after_event(namespace, true),
            ),
            EventView::CloseLayer { namespace } => self.synced(
                self.layers_after_event(namespace, false),
            ),
            EventView::Ignored => (self, Seq::empty()),
        }
    }

    /// The layers of an event are settled against a snapshot: of the namespace
    /// `target` are mapped, and the others are no more than the snapshot shows.
    pub open spec fn event_reconciled(
        self,
        namespace: Text,
        target: nat,
        snapshot: Seq<Text>,
    ) -> Step {
        self.synced(layers::event_layers(self.focused_layers, namespace, target, snapshot))
    }

    /// Closed windows are forgotten, no echo is owed, and the layout is the actual one.
    pub open spec fn realigned(
        self,
        actual_layout: LayoutIndex,
        live_windows: Seq<u64>,
        live_layers: Seq<Text>,
    ) -> StateView {
        StateView {
            windows: self.windows.restrict(live_windows.to_set()),
            pending_echoes: Map::empty(),
            active_layout: actual_layout,
            ..self
        }.with_live_layers(live_layers, Some(actual_layout))
    }

    /// The active window is this one. A window that was unknown gets the active
    /// layout, or that of a new window where the active one belongs to a layer.
    pub open spec fn with_active(self, active: Option<(u64, Text)>) -> StateView {
        match active {
            Some((addr, class_name)) => {
                let focused = StateView {
                    active_window: Some(addr),
                    active_class: Some(class_name),
                    ..self
                };
                if self.windows.contains_key(addr) {
                    focused
                } else {
                    StateView {
                        windows: self.windows.insert(
                            addr,
                            if self.focused_layers.len() > 0 {
                                focused.class_default()
                            } else {
                                self.active_layout
                            },
                        ),
                        ..focused
                    }
                }
            },
            None => StateView { active_window: None, active_class: None, ..self },
        }
    }

    /// The layout to restore: that of the innermost layer, or else of the active
    /// window, if it was known.
    pub open spec fn restore_target(self, active: Option<(u64, Text)>) -> Option<LayoutIndex> {
        match self.top_layer_layout() {
            Some(layout) => Some(layout),
            None => match active {
                Some((addr, _)) => if self.windows.contains_key(addr) {
                    Some(self.windows[addr])
                } else {
                    None
                },
                None => None,
            },
        }
    }

    /// Everything is re-aligned with what Hyprland says of itself.
    pub open spec fn resynced(
        self,
        active: Option<(u64, Text)>,
        actual_layout: LayoutIndex,
        live_windows: Seq<u64>,
        live_layers: Seq<Text>,
    ) -> Step {
        let aligned = self.realigned(actual_layout, live_windows, live_layers);
        aligned.with_active(active).switched_to(aligned.restore_target(active))
    }

    /// A switch has come to its end: keyboards that were not switched owe no echo for
    /// it, and where none was switched the layout is the one before.
    pub open spec fn switch_settled(
        self,
        keyboards: Seq<Text>,
        switched: Seq<bool>,
        previous: LayoutIndex,
    ) -> StateView {
        StateView {
            pending_echoes: without_failed(self.pending_echoes, keyboards, switched),
            active_layout: if switched.contains(true) {
                self.active_layout
            } else {
                previous
            },
            ..self
        }
    }
}

/// The counts of owed echoes after a step can be held.
pub open spec fn step_fits(step: Step) -> bool {
    forall|k: Text| #[trigger] echoes(step.0.pending_echoes, k) <= max_echoes()
}

/// A list of keyboards adds as many echoes as it names a keyboard.
pub proof fn lemma_with_echoes(pending: Map<Text, nat>, keyboards: Seq<Text>, x: Text)
    ensures
        echoes(with_echoes(pending, keyboards), x) == echoes(pending, x) + layers::occurrences(
            keyboards,
            x,
        ),
{
    layers::lemma_occurrences_contains(keyboards, x);
}

/// One more keyboard adds one more echo.
pub proof fn lemma_with_echoes_step(pending: Map<Text, nat>, keyboards: Seq<Text>, name: Text)
    ensures
        with_echoes(pending, keyboards.push(name)) == with_echo(
            with_echoes(pending, keyboards),
            name,
        ),
{
    let longer = keyboards.push(name);
    let before = with_echoes(pending, keyboards);
    assert forall|k: Text| #[trigger] longer.contains(k) == (keyboards.contains(k) || k
        == name) by {
        layers::lemma_occurrences_push(keyboards, name, k);
        layers::lemma_occurrences_contains(keyboards, k);
        layers::lemma_occurrences_contains(longer, k);
    }
    assert forall|k: Text| with_echoes(pending, longer).contains_key(k) implies with_echoes(
        pending,
        longer,
    )[k] == with_echo(before, name)[k] by {
        layers::lemma_occurrences_push(keyboards, name, k);
        lemma_with_echoes(pending, keyboards, k);
    }
    assert(with_echoes(pending, longer) =~= with_echo(before, name));
}

/// The counts stay in range, as far as they can be held.
pub proof fn lemma_echoes_in_range(pending: Map<Text, nat>, keyboards: Seq<Text>)
    requires
        echoes_in_range(pending),
        forall|k: Text| #[trigger] echoes(with_echoes(pending, keyboards), k) <= max_echoes(),
    ensures
        echoes_in_range(with_echoes(pending, keyboards)),
{
    let after = with_echoes(pending, keyboards);
    assert forall|k: Text| #[trigger] after.contains_key(k) implies 1 <= after[k]
        <= max_echoes() by {
        lemma_with_echoes(pending, keyboards, k);
        layers::lemma_occurrences_contains(keyboards, k);
        assert(echoes(after, k) <= max_echoes());
    }
}

/// Filling in one more layer.
pub proof fn lemma_remembered_step(
    known: Map<Text, LayoutIndex>,
    focused: Seq<Text>,
    i: int,
    rules: RulesView,
)
    requires
        0 <= i < focused.len(),
    ensures
        remembered(known, focused.take(i + 1), rules) == ({
            let before = remembered(known, focused.take(i), rules);
            if before.contains_key(focused[i]) {
                before
            } else {
                before.insert(focused[i], rules.lookup(focused[i]).unwrap())
            }
        }),
{
    let shorter = focused.take(i);
    let longer = focused.take(i + 1);
    assert forall|k: Text| #[trigger] longer.contains(k) == (shorter.contains(k) || k
        == focused[i]) by {
        if longer.contains(k) {
            let j = longer.index_of(k);
            if j < i {
                assert(shorter[j] == k);
            }
        }
        if shorter.contains(k) {
            let j = shorter.index_of(k);
            assert(longer[j] == k);
        }
        assert(longer[i] == focused[i]);
    }
    let before = remembered(known, shorter, rules);
    let after = remembered(known, longer, rules);
    if before.contains_key(focused[i]) {
        assert(after =~= before);
    } else {
        assert(after =~= before.insert(focused[i], rules.lookup(focused[i]).unwrap()));
    }
}

/// A snapshot leaves a valid state.
pub proof fn lemma_live_layers_valid(s: StateView, live: Seq<Text>, adopt: Option<LayoutIndex>)
    requires
        s.valid(),
    ensures
        s.with_live_layers(live, adopt).valid(),
{
    let after = s.with_live_layers(live, adopt);
    assert forall|i: int| 0 <= i < after.focused_layers.len() implies s.layer_rules.lookup(
        #[trigger] after.focused_layers[i],
    ) is Some && after.layers.contains_key(after.focused_layers[i]) by {
        let x = after.focused_layers[i];
        assert(after.focused_layers.contains(x));
        layers::lemma_reconciled_configured(s.focused_layers, live, s.layer_rules, x);
    }
}

/// Going over to a layout fits just where it asks for nothing, or where every
/// keyboard of the list has room for its echoes.
pub proof fn lemma_switch_fits(s: StateView, target: Option<LayoutIndex>)
    requires
        echoes_in_range(s.pending_echoes),
    ensures
        step_fits(s.switched_to(target)) <==> (target is None || target == Some(s.active_layout)
            || forall|i: int|
            0 <= i < s.keyboards.len() ==> echoes(s.pending_echoes, #[trigger] s.keyboards[i])
                + layers::occurrences(s.keyboards, s.keyboards[i]) <= max_echoes()),
{
    let after = s.switched_to(target).0.pending_echoes;
    assert forall|k: Text| #[trigger] echoes(s.pending_echoes, k) <= max_echoes() by {
        if s.pending_echoes.contains_key(k) {
        }
    }
    if target is Some && target != Some(s.active_layout) && s.keyboards.len() > 0 {
        assert(after == with_echoes(s.pending_echoes, s.keyboards));
        if step_fits(s.switched_to(target)) {
            assert forall|i: int| 0 <= i < s.keyboards.len() implies echoes(
                s.pending_echoes,
                #[trigger] s.keyboards[i],
            ) + layers::occurrences(s.keyboards, s.keyboards[i]) <= max_echoes() by {
                lemma_with_echoes(s.pending_echoes, s.keyboards, s.keyboards[i]);
                assert(echoes(after, s.keyboards[i]) <= max_echoes());
            }
        }
        if forall|i: int|
            0 <= i < s.keyboards.len() ==> echoes(s.pending_echoes, #[trigger] s.keyboards[i])
                + layers::occurrences(s.keyboards, s.keyboards[i]) <= max_echoes() {
            assert forall|k: Text| #[trigger] echoes(after, k) <= max_echoes() by {
                lemma_with_echoes(s.pending_echoes, s.keyboards, k);
                layers::lemma_occurrences_contains(s.keyboards, k);
                if s.keyboards.contains(k) {
                    let i = s.keyboards.index_of(k);
                    assert(s.keyboards[i] == k);
                }
            }
        }
    }
}

} // verus!
