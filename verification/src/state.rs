//! The runtime state: which layout each window and layer had, and what to switch.

use std::collections::HashMap;

use vstd::prelude::*;
use vstd::string::*;

use crate::config;
use crate::config::Config;
use crate::event::Event;
use crate::layers;
#[allow(unused_imports)]
use crate::model::{ActionView, StateView};
#[allow(unused_imports)]
use crate::model;
use crate::numbers;
use crate::rules::LayoutRules;
use crate::string_map::StringMap;
use crate::text;
#[allow(unused_imports)]
use crate::text::Text;

verus! {

/// The position of a layout in Hyprland's `input:kb_layout`.
pub type LayoutIndex = u8;

/// The address by which Hyprland names a window.
#[derive(Debug, Copy, Clone, PartialEq, Eq, Hash, Structural)]
pub struct WindowAddr(pub u64);

impl WindowAddr {
    /// The address as Hyprland writes it.
    pub open spec fn text(self) -> Text {
        "0x"@ + numbers::hex_text(self.0 as nat)
    }

    /// Writes the address as Hyprland does.
    pub fn to_text(&self) -> (written: String)
        ensures
            written@ == self.text(),
    {
        let mut written = "0x".to_owned();
        numbers::append_hex(&mut written, self.0);
        written
    }
}

/// What to ask of Hyprland.
#[derive(Debug, Clone, PartialEq, Eq)]
pub enum Action {
    SwitchLayout { keyboards: Vec<String>, layout: LayoutIndex, previous: LayoutIndex },
    QueryKeyboardLayout { keyboard: String },
}

impl View for Action {
    type V = ActionView;

    open spec fn view(&self) -> ActionView {
        match self {
            Action::SwitchLayout { keyboards, layout, previous } => ActionView::SwitchLayout {
                keyboards: text::texts(keyboards@),
                layout: *layout,
                previous: *previous,
            },
            Action::QueryKeyboardLayout { keyboard } => ActionView::QueryKeyboardLayout {
                keyboard: keyboard@,
            },
        }
    }
}

/// What a list of actions asks.
pub open spec fn asked(actions: Seq<Action>) -> Seq<ActionView> {
    actions.map_values(|a: Action| a@)
}

/// No actions.
fn no_actions() -> (actions: Vec<Action>)
    ensures
        asked(actions@) == Seq::<ActionView>::empty(),
{
    let actions: Vec<Action> = Vec::new();
    assert(asked(actions@) =~= Seq::<ActionView>::empty());
    actions
}

/// The addresses of a list of windows.
pub open spec fn addresses(windows: Seq<WindowAddr>) -> Seq<u64> {
    windows.map_values(|w: WindowAddr| w.0)
}

/// The active window and its class, as the state holds them.
pub open spec fn active_view(active: Option<(WindowAddr, String)>) -> Option<(u64, Text)> {
    match active {
        Some((addr, class_name)) => Some((addr.0, class_name@)),
        None => None,
    }
}

/// What the daemon knows of windows, layers, layouts and keyboards.
#[derive(Debug, Clone)]
pub struct RuntimeState {
    windows: HashMap<u64, LayoutIndex>,
    active_window: Option<WindowAddr>,
    active_class: Option<String>,
    active_layout: LayoutIndex,
    keyboards: Vec<String>,
    configured_keyboards: bool,
    exclude_contains: Vec<String>,
    class_rules: LayoutRules,
    // Keyed by namespace, not address: a launcher gets a fresh surface on
    // every open but should keep its layout across them.
    layers: StringMap<LayoutIndex>,
    // Configured namespaces currently holding keyboard focus, innermost last.
    focused_layers: Vec<String>,
    layer_rules: LayoutRules,
    pending_echoes: StringMap<u8>,
}

/// The counts of owed echoes as numbers.
spec fn echo_counts(counts: Map<Text, u8>) -> Map<Text, nat> {
    counts.map_values(|c: u8| c as nat)
}

impl View for RuntimeState {
    type V = StateView;

    closed spec fn view(&self) -> StateView {
        StateView {
            windows: self.windows@,
            active_window: match self.active_window {
                Some(addr) => Some(addr.0),
                None => None,
            },
            active_class: match self.active_class {
                Some(class_name) => Some(class_name@),
                None => None,
            },
            active_layout: self.active_layout,
            keyboards: text::texts(self.keyboards@),
            configured_keyboards: self.configured_keyboards,
            exclude_contains: text::texts(self.exclude_contains@),
            class_rules: self.class_rules@,
            layers: self.layers@,
            focused_layers: text::texts(self.focused_layers@),
            layer_rules: self.layer_rules@,
            pending_echoes: echo_counts(self.pending_echoes@),
        }
    }
}

/// Whether every keyboard of the list has room for the echoes of one more switch.
fn echo_room(pending: &StringMap<u8>, keyboards: &[String]) -> (room: bool)
    ensures
        room == (forall|i: int|
            0 <= i < text::texts(keyboards@).len() ==> model::echoes(
                echo_counts(pending@),
                #[trigger] text::texts(keyboards@)[i],
            ) + layers::occurrences(text::texts(keyboards@), text::texts(keyboards@)[i])
                <= model::max_echoes()),
{
    let ghost names = text::texts(keyboards@);
    let mut i: usize = 0;
    while i < keyboards.len()
        invariant
            i <= keyboards.len(),
            names == text::texts(keyboards@),
            forall|j: int|
                0 <= j < i ==> model::echoes(echo_counts(pending@), #[trigger] names[j])
                    + layers::occurrences(names, names[j]) <= model::max_echoes(),
        decreases keyboards.len() - i,
    {
        let owed: u8 = match pending.get(keyboards[i].as_str()) {
            Some(owed) => owed,
            None => 0,
        };
        let more: usize = layers::count_layer(keyboards, keyboards[i].as_str());
        assert(names[i as int] == keyboards@[i as int]@);
        if more > 255 || owed as usize + more > 255 {
            return false;
        }
        i += 1;
    }
    true
}

impl RuntimeState {
    /// What every operation establishes and keeps.
    pub open spec fn wf(&self) -> bool {
        self@.valid()
    }

    /// The state at the start: nothing is known but the configuration and the
    /// active layout.
    pub fn new(config: Config, active_layout: LayoutIndex) -> (state: Self)
        ensures
            state.wf(),
            state@ == (StateView {
                windows: Map::empty(),
                active_window: None,
                active_class: None,
                active_layout,
                keyboards: text::texts(config.keyboards.include_names@),
                configured_keyboards: config.keyboards.include_names@.len() > 0,
                exclude_contains: text::texts(config.keyboards.exclude_contains@),
                class_rules: crate::rules::RulesView {
                    exact: config.default_layouts@,
                    patterns: crate::rules::compiled_patterns(
                        crate::string_map::sorted_entries(config.default_layouts@),
                    ),
                },
                layers: Map::empty(),
                focused_layers: Seq::empty(),
                layer_rules: crate::rules::RulesView {
                    exact: config.layer_layouts@,
                    patterns: crate::rules::compiled_patterns(
                        crate::string_map::sorted_entries(config.layer_layouts@),
                    ),
                },
                pending_echoes: Map::empty(),
            }),
    {
        let configured_keyboards = config.keyboards.is_configured();
        let state = RuntimeState {
            windows: HashMap::new(),
            active_window: None,
            active_class: None,
            active_layout,
            keyboards: config.keyboards.include_names,
            configured_keyboards,
            exclude_contains: config.keyboards.exclude_contains,
            class_rules: LayoutRules::new(config.default_layouts),
            layers: StringMap::new(),
            focused_layers: Vec::new(),
            layer_rules: LayoutRules::new(config.layer_layouts),
            pending_echoes: StringMap::new(),
        };
        proof {
            assert(state@.windows =~= Map::<u64, LayoutIndex>::empty());
            assert(state@.focused_layers =~= Seq::<Text>::empty());
            assert(state@.pending_echoes =~= Map::<Text, nat>::empty());
        }
        state
    }

    /// Sets the layout that is active.
    pub fn set_active_layout(&mut self, layout: LayoutIndex)
        requires
            old(self).wf(),
        ensures
            final(self).wf(),
            final(self)@ == (StateView { active_layout: layout, ..old(self)@ }),
    {
        self.active_layout = layout;
    }

    /// The layout that is active.
    pub fn active_layout(&self) -> (layout: LayoutIndex)
        ensures
            layout == self@.active_layout,
    {
        self.active_layout
    }

    /// The layout that is known for the active window.
    pub fn active_window_layout(&self) -> (layout: Option<LayoutIndex>)
        ensures
            layout == self@.active_window_layout(),
    {
        match self.active_window {
            Some(addr) => self.known_layout(addr),
            None => None,
        }
    }

    /// The layout that is known for a window.
    fn known_layout(&self, addr: WindowAddr) -> (layout: Option<LayoutIndex>)
        ensures
            layout == (if self@.windows.contains_key(addr.0) {
                Some(self@.windows[addr.0])
            } else {
                None
            }),
    {
        match self.windows.get(&addr.0) {
            Some(layout) => Some(*layout),
            None => None,
        }
    }

    /// The keyboards to switch.
    pub fn keyboard_names(&self) -> (names: &[String])
        ensures
            text::texts(names@) == self@.keyboards,
    {
        self.keyboards.as_slice()
    }

    /// How many layers of the namespace are focused.
    pub fn focused_layer_count(&self, namespace: &str) -> (n: usize)
        ensures
            n == layers::occurrences(self@.focused_layers, namespace@),
    {
        layers::count_layer(self.focused_layers.as_slice(), namespace)
    }

    /// The layout that is configured for a namespace.
    fn layer_default(&self, namespace: &str) -> (layout: Option<LayoutIndex>)
        ensures
            layout == self@.layer_rules.lookup(namespace@),
    {
        self.layer_rules.lookup(namespace)
    }

    /// Whether an event of the namespace can change the focus: some layer is focused,
    /// or the namespace is configured.
    pub fn should_reconcile_layer_event(&self, namespace: &str) -> (yes: bool)
        ensures
            yes == (self@.focused_layers.len() > 0 || self@.layer_rules.lookup(
                namespace@,
            ) is Some),
    {
        self.focused_layers.len() > 0 || self.layer_default(namespace).is_some()
    }

    fn is_excluded_keyboard(&self, keyboard: &str) -> (excluded: bool)
        ensures
            excluded == self@.excludes(keyboard@),
    {
        config::is_excluded_by(self.exclude_contains.as_slice(), keyboard)
    }

    fn is_managed_keyboard(&self, keyboard: &str) -> (managed: bool)
        ensures
            managed == self@.manages(keyboard@),
    {
        !self.is_excluded_keyboard(keyboard) && (!self.configured_keyboards || text::list_contains(
            self.keyboards.as_slice(),
            keyboard,
        ))
    }

    /// The layout for a new window of the active class: the configured one, or the
    /// first.
    fn default_layout_for_active_class(&self) -> (layout: LayoutIndex)
        ensures
            layout == self@.class_default(),
    {
        match &self.active_class {
            Some(class_name) => match self.class_rules.lookup(class_name.as_str()) {
                Some(layout) => layout,
                None => 0,
            },
            None => 0,
        }
    }

    /// The user changed the layout of a keyboard.
    pub fn record_keyboard_layout(&mut self, keyboard: &str, layout: LayoutIndex)
        requires
            old(self).wf(),
        ensures
            final(self).wf(),
            final(self)@ == old(self)@.recorded(keyboard@, layout),
    {
        if !self.is_managed_keyboard(keyboard) {
            return;
        }
        self.active_layout = layout;
        let n: usize = self.focused_layers.len();
        if n > 0 {
            let namespace = self.focused_layers[n - 1].clone();
            self.layers.insert(namespace, layout);
        } else if let Some(addr) = self.active_window {
            self.windows.insert(addr.0, layout);
        }
    }

    /// Makes a keyboard known.
    pub fn seed_keyboard(&mut self, keyboard: &str)
        requires
            old(self).wf(),
        ensures
            final(self).wf(),
            final(self)@ == old(self)@.seeded(keyboard@),
    {
        if self.configured_keyboards || self.is_excluded_keyboard(keyboard)
            || text::list_contains(self.keyboards.as_slice(), keyboard) {
            return;
        }
        self.keyboards.push(keyboard.to_owned());
        proof {
            assert(self@.keyboards =~= old(self)@.keyboards.push(keyboard@));
        }
    }

    /// Goes over to a layout.
    fn switch_actions(&mut self, target: LayoutIndex) -> (actions: Vec<Action>)
        requires
            old(self).wf(),
            model::step_fits(old(self)@.switched(target)),
        ensures
            final(self).wf(),
            final(self)@ == old(self)@.switched(target).0,
            asked(actions@) == old(self)@.switched(target).1,
    {
        if target == self.active_layout {
            return no_actions();
        }
        if self.keyboards.len() == 0 {
            self.active_layout = target;
            return no_actions();
        }
        let previous = self.active_layout;
        self.active_layout = target;
        let ghost start = self@.pending_echoes;
        let ghost names = self@.keyboards;
        let mut pending: StringMap<u8> = StringMap::new();
        std::mem::swap(&mut pending, &mut self.pending_echoes);
        proof {
            let after = old(self)@.switched(target).0.pending_echoes;
            assert(after == model::with_echoes(start, names));
            assert forall|k: Text|
                #[trigger] model::echoes(model::with_echoes(start, names), k)
                    <= model::max_echoes() by {
                assert(model::echoes(after, k) <= model::max_echoes());
            }
            model::lemma_echoes_in_range(start, names);
            assert(model::with_echoes(start, names.take(0)) =~= start);
        }
        let mut i: usize = 0;
        while i < self.keyboards.len()
            invariant
                i <= self.keyboards.len(),
                names == text::texts(self.keyboards@),
                echo_counts(pending@) == model::with_echoes(start, names.take(i as int)),
                forall|k: Text|
                    #[trigger] model::echoes(model::with_echoes(start, names), k)
                        <= model::max_echoes(),
            decreases self.keyboards.len() - i,
        {
            let ghost done = names.take(i as int);
            let ghost name = self.keyboards@[i as int]@;
            proof {
                assert(names.take(i + 1) =~= done.push(name));
                model::lemma_with_echoes_step(start, done, name);
                layers::lemma_occurrences_push(done, name, name);
                model::lemma_with_echoes(start, done, name);
                model::lemma_with_echoes(start, names, name);
                layers::lemma_occurrences_prefix(names, i + 1, name);
                assert(model::echoes(model::with_echoes(start, names), name)
                    <= model::max_echoes());
                assert(model::echoes(echo_counts(pending@), name) < model::max_echoes());
            }
            let count: u8 = match pending.get(self.keyboards[i].as_str()) {
                Some(count) => count,
                None => 0,
            };
            let ghost before = pending@;
            pending.insert(self.keyboards[i].clone(), count + 1);
            proof {
                assert(echo_counts(pending@) =~= model::with_echo(echo_counts(before), name));
            }
            i += 1;
        }
        proof {
            assert(names.take(i as int) =~= names);
        }
        self.pending_echoes = pending;
        let actions = vec![
            Action::SwitchLayout {
                keyboards: text::copy_list(self.keyboards.as_slice()),
                layout: target,
                previous,
            },
        ];
        proof {
            assert(asked(actions@) =~= old(self)@.switched(target).1);
        }
        actions
    }

    /// Goes over to a layout, if there is one to go over to.
    fn switch_if(&mut self, target: Option<LayoutIndex>) -> (actions: Vec<Action>)
        requires
            old(self).wf(),
            model::step_fits(old(self)@.switched_to(target)),
        ensures
            final(self).wf(),
            final(self)@ == old(self)@.switched_to(target).0,
            asked(actions@) == old(self)@.switched_to(target).1,
    {
        match target {
            Some(layout) => self.switch_actions(layout),
            None => no_actions(),
        }
    }

    /// Takes one owed echo of the keyboard off, if any is owed.
    fn consume_pending_echo(&mut self, keyboard: &str) -> (owed: bool)
        requires
            old(self).wf(),
        ensures
            final(self).wf(),
            owed == (model::echoes(old(self)@.pending_echoes, keyboard@) > 0),
            final(self)@ == old(self)@.echo_consumed(keyboard@),
    {
        let ghost before = self.pending_echoes@;
        let count: u8 = match self.pending_echoes.get(keyboard) {
            Some(count) => count,
            None => {
                proof {
                    assert(echo_counts(before).remove(keyboard@) =~= echo_counts(before));
                }
                return false;
            },
        };
        assert(echo_counts(before).contains_key(keyboard@));
        if count == 1 {
            self.pending_echoes.remove(keyboard);
            proof {
                assert(echo_counts(self.pending_echoes@) =~= echo_counts(before).remove(keyboard@));
            }
        } else {
            self.pending_echoes.insert(keyboard.to_owned(), count - 1);
            proof {
                assert(echo_counts(self.pending_echoes@) =~= echo_counts(before).insert(
                    keyboard@,
                    (count - 1) as nat,
                ));
            }
        }
        proof {
            assert(echo_counts(before)[keyboard@] == count as nat);
            assert forall|k: Text| #[trigger] self@.pending_echoes.contains_key(k) implies 1
                <= self@.pending_echoes[k] <= model::max_echoes() by {
                assert(old(self)@.pending_echoes.contains_key(k));
            }
        }
        true
    }

    /// A keyboard was not switched, so it will not echo the switch.
    pub fn switch_failed(&mut self, keyboard: &str)
        requires
            old(self).wf(),
        ensures
            final(self).wf(),
            final(self)@ == old(self)@.echo_consumed(keyboard@),
    {
        let _ = self.consume_pending_echo(keyboard);
    }

    /// A keyboard reported a layout.
    fn handle_active_layout(&mut self, keyboard: &str) -> (actions: Vec<Action>)
        requires
            old(self).wf(),
        ensures
            final(self).wf(),
            final(self)@ == old(self)@.layout_reported(keyboard@).0,
            asked(actions@) == old(self)@.layout_reported(keyboard@).1,
    {
        if self.is_excluded_keyboard(keyboard) {
            return no_actions();
        }
        if self.consume_pending_echo(keyboard) {
            return no_actions();
        }
        proof {
            assert(old(self)@.pending_echoes.remove(keyboard@) =~= old(self)@.pending_echoes);
            assert(self@ =~= old(self)@);
        }
        if self.configured_keyboards {
            if !text::list_contains(self.keyboards.as_slice(), keyboard) {
                return no_actions();
            }
        } else {
            self.seed_keyboard(keyboard);
        }
        let actions = vec![Action::QueryKeyboardLayout { keyboard: keyboard.to_owned() }];
        proof {
            assert(asked(actions@) =~= old(self)@.layout_reported(keyboard@).1);
        }
        actions
    }

    /// A window gets the focus.
    fn activate_window(&mut self, addr: WindowAddr) -> (actions: Vec<Action>)
        requires
            old(self).wf(),
            model::step_fits(old(self)@.activated(addr.0)),
        ensures
            final(self).wf(),
            final(self)@ == old(self)@.activated(addr.0).0,
            asked(actions@) == old(self)@.activated(addr.0).1,
    {
        self.active_window = Some(addr);
        let layer_focused = self.focused_layers.len() > 0;
        let target: LayoutIndex = match self.known_layout(addr) {
            Some(layout) => layout,
            None => {
                let layout = self.default_layout_for_active_class();
                self.windows.insert(addr.0, layout);
                layout
            },
        };
        proof {
            assert(self@ =~= old(self)@.with_active_window(addr.0));
        }
        if layer_focused {
            return no_actions();
        }
        self.switch_actions(target)
    }

    /// The focused layers after a snapshot of what is mapped.
    fn reconcile_focused_layers(&self, live_layers: &[String]) -> (focused: Vec<String>)
        ensures
            text::texts(focused@) == self@.focus_after(text::texts(live_layers@)),
    {
        let mapped = layers::track_layers(live_layers, &self.layer_rules);
        layers::reconcile(self.focused_layers.as_slice(), mapped.as_slice())
    }

    /// Follows a snapshot of what is mapped, and gives the layout of the innermost
    /// layer.
    fn reconcile_layers(
        &mut self,
        live_layers: &[String],
        adopt_unknown_top: Option<LayoutIndex>,
    ) -> (layout: Option<LayoutIndex>)
        requires
            old(self).wf(),
        ensures
            final(self).wf(),
            final(self)@ == old(self)@.with_live_layers(
                text::texts(live_layers@),
                adopt_unknown_top,
            ),
            layout == final(self)@.top_layer_layout(),
    {
        let ghost live = text::texts(live_layers@);
        let focused = self.reconcile_focused_layers(live_layers);
        let ghost names = text::texts(focused@);
        let ghost rules = self.layer_rules@;
        let mut known: StringMap<LayoutIndex> = StringMap::new();
        std::mem::swap(&mut known, &mut self.layers);
        let ghost start = known@;
        proof {
            model::lemma_live_layers_valid(old(self)@, live, adopt_unknown_top);
            assert(start == old(self)@.layers);
            assert(model::remembered(start, names.take(0), rules) =~= start);
        }
        let n: usize = focused.len();
        let top_was_known = n > 0 && known.contains_key(focused[n - 1].as_str());
        let mut i: usize = 0;
        while i < n
            invariant
                i <= n,
                n == focused.len(),
                names == text::texts(focused@),
                rules == self.layer_rules@,
                known@ == model::remembered(start, names.take(i as int), rules),
                forall|j: int|
                    0 <= j < names.len() ==> rules.lookup(#[trigger] names[j]) is Some,
            decreases n - i,
        {
            proof {
                model::lemma_remembered_step(start, names, i as int, rules);
                assert(names[i as int] == focused@[i as int]@);
            }
            if !known.contains_key(focused[i].as_str()) {
                let default = self.layer_default(focused[i].as_str()).unwrap();
                known.insert(focused[i].clone(), default);
            }
            i += 1;
        }
        proof {
            assert(names.take(i as int) =~= names);
        }
        if n > 0 && !top_was_known {
            if let Some(layout) = adopt_unknown_top {
                known.insert(focused[n - 1].clone(), layout);
            }
        }
        let layout = if n > 0 {
            proof {
                assert(names.last() == focused@[n - 1]@);
                assert(names.contains(names.last()));
            }
            known.get(focused[n - 1].as_str())
        } else {
            None
        };
        self.layers = known;
        self.focused_layers = focused;
        proof {
            assert(self@ =~= old(self)@.with_live_layers(live, adopt_unknown_top));
        }
        layout
    }

    /// The mapped layers are these: follows them, and goes over to the layout of the
    /// innermost one, or of the active window where none is left.
    pub fn sync_layers(&mut self, live_layers: &[String]) -> (actions: Vec<Action>)
        requires
            old(self).wf(),
            model::step_fits(old(self)@.synced(text::texts(live_layers@))),
        ensures
            final(self).wf(),
            final(self)@ == old(self)@.synced(text::texts(live_layers@)).0,
            asked(actions@) == old(self)@.synced(text::texts(live_layers@)).1,
    {
        let previous = text::copy_list(self.focused_layers.as_slice());
        let layer_target = self.reconcile_layers(live_layers, None);
        if text::same_list(self.focused_layers.as_slice(), previous.as_slice()) {
            return no_actions();
        }
        let target = match layer_target {
            Some(layout) => Some(layout),
            None => self.active_window_layout(),
        };
        self.switch_if(target)
    }

    /// What is mapped if one more layer opens or closes.
    fn layers_after(&self, namespace: &str, opening: bool) -> (live_layers: Vec<String>)
        ensures
            text::texts(live_layers@) == self@.layers_after_event(namespace@, opening),
    {
        if opening {
            let mut live_layers = text::copy_list(self.focused_layers.as_slice());
            let added = namespace.to_owned();
            proof {
                text::lemma_texts_push(live_layers@, added);
            }
            live_layers.push(added);
            live_layers
        } else {
            layers::close_one(self.focused_layers.as_slice(), namespace)
        }
    }

    /// A layer opens or closes.
    fn apply_layer_event(&mut self, namespace: &str, opening: bool) -> (actions: Vec<Action>)
        requires
            old(self).wf(),
            model::step_fits(
                old(self)@.synced(old(self)@.layers_after_event(namespace@, opening)),
            ),
        ensures
            final(self).wf(),
            final(self)@ == old(self)@.synced(
                old(self)@.layers_after_event(namespace@, opening),
            ).0,
            asked(actions@) == old(self)@.synced(
                old(self)@.layers_after_event(namespace@, opening),
            ).1,
    {
        let live_layers = self.layers_after(namespace, opening);
        self.sync_layers(live_layers.as_slice())
    }

    /// Settles a layer event against a snapshot: of the namespace `target_count` are
    /// mapped, and of the others no more than the snapshot shows.
    pub fn reconcile_layer_event(
        &mut self,
        namespace: &str,
        target_count: usize,
        snapshot: &[String],
    ) -> (actions: Vec<Action>)
        requires
            old(self).wf(),
            model::step_fits(
                old(self)@.event_reconciled(
                    namespace@,
                    target_count as nat,
                    text::texts(snapshot@),
                ),
            ),
        ensures
            final(self).wf(),
            final(self)@ == old(self)@.event_reconciled(
                namespace@,
                target_count as nat,
                text::texts(snapshot@),
            ).0,
            asked(actions@) == old(self)@.event_reconciled(
                namespace@,
                target_count as nat,
                text::texts(snapshot@),
            ).1,
    {
        let live_layers = layers::settle_event(
            self.focused_layers.as_slice(),
            namespace,
            target_count,
            snapshot,
        );
        self.sync_layers(live_layers.as_slice())
    }

    /// Takes in what an event says.
    pub fn handle_event(&mut self, event: Event<'_>) -> (actions: Vec<Action>)
        requires
            old(self).wf(),
            model::step_fits(old(self)@.handled(event@)),
        ensures
            final(self).wf(),
            final(self)@ == old(self)@.handled(event@).0,
            asked(actions@) == old(self)@.handled(event@).1,
    {
        match event {
            Event::ActiveWindow { class_name } => {
                self.active_class = Some(class_name.to_owned());
                no_actions()
            },
            Event::ActiveWindowV2 { addr } => self.activate_window(addr),
            Event::EmptyActiveWindow => {
                self.active_window = None;
                self.active_class = None;
                no_actions()
            },
            Event::CloseWindow { addr } => {
                let _ = self.windows.remove(&addr.0);
                no_actions()
            },
            Event::ActiveLayout { keyboard, layout_name: _ } => self.handle_active_layout(
                keyboard,
            ),
            Event::OpenLayer { namespace } => self.apply_layer_event(namespace, true),
            Event::CloseLayer { namespace } => self.apply_layer_event(namespace, false),
            Event::Ignored => no_actions(),
        }
    }

    /// Forgets the windows that are not in the list.
    fn retain_windows(&mut self, live_windows: &[WindowAddr])
        requires
            old(self).wf(),
        ensures
            final(self).wf(),
            final(self)@ == (StateView {
                windows: old(self)@.windows.restrict(addresses(live_windows@).to_set()),
                ..old(self)@
            }),
    {
        let ghost live = addresses(live_windows@);
        let mut kept: HashMap<u64, LayoutIndex> = HashMap::new();
        let mut i: usize = 0;
        proof {
            assert(kept@ =~= self.windows@.restrict(live.take(0).to_set()));
        }
        while i < live_windows.len()
            invariant
                i <= live_windows.len(),
                live == addresses(live_windows@),
                kept@ == self.windows@.restrict(live.take(i as int).to_set()),
            decreases live_windows.len() - i,
        {
            let addr: u64 = live_windows[i].0;
            proof {
                assert(live[i as int] == addr);
                assert(live.take(i + 1) =~= live.take(i as int).push(addr));
                assert(live.take(i + 1).to_set() =~= live.take(i as int).to_set().insert(addr)) by {
                    let shorter = live.take(i as int);
                    let longer = shorter.push(addr);
                    assert forall|a: u64| #[trigger] longer.contains(a) == (shorter.contains(a)
                        || a == addr) by {
                        if longer.contains(a) && a != addr {
                            let j = longer.index_of(a);
                            assert(shorter[j] == a);
                        }
                        if shorter.contains(a) {
                            let j = shorter.index_of(a);
                            assert(longer[j] == a);
                        }
                        assert(longer[i as int] == addr);
                    }
                }
            }
            match self.windows.get(&addr) {
                Some(layout) => {
                    let layout: LayoutIndex = *layout;
                    kept.insert(addr, layout);
                },
                None => {},
            }
            proof {
                assert(kept@ =~= self.windows@.restrict(live.take(i + 1).to_set()));
            }
            i += 1;
        }
        proof {
            assert(live.take(i as int) =~= live);
        }
        self.windows = kept;
    }

    /// Re-aligns the state with Hyprland after events may have been missed (startup,
    /// or a gap while the event socket was down).
    pub fn resync(
        &mut self,
        active: Option<(WindowAddr, String)>,
        actual_layout: LayoutIndex,
        live_windows: &[WindowAddr],
        live_layers: &[String],
    ) -> (actions: Vec<Action>)
        requires
            old(self).wf(),
            model::step_fits(
                old(self)@.resynced(
                    active_view(active),
                    actual_layout,
                    addresses(live_windows@),
                    text::texts(live_layers@),
                ),
            ),
        ensures
            final(self).wf(),
            final(self)@ == old(self)@.resynced(
                active_view(active),
                actual_layout,
                addresses(live_windows@),
                text::texts(live_layers@),
            ).0,
            asked(actions@) == old(self)@.resynced(
                active_view(active),
                actual_layout,
                addresses(live_windows@),
                text::texts(live_layers@),
            ).1,
    {
        self.retain_windows(live_windows);
        self.pending_echoes = StringMap::new();
        self.active_layout = actual_layout;
        proof {
            assert(self@.pending_echoes =~= Map::<Text, nat>::empty());
        }
        let layer_target = self.reconcile_layers(live_layers, Some(actual_layout));
        let ghost aligned = self@;
        proof {
            assert(aligned == old(self)@.realigned(
                actual_layout,
                addresses(live_windows@),
                text::texts(live_layers@),
            ));
        }
        let ghost active_window = active_view(active);
        let window_target = match active {
            Some((addr, class_name)) => {
                self.active_window = Some(addr);
                self.active_class = Some(class_name);
                match self.known_layout(addr) {
                    Some(layout) => Some(layout),
                    None => {
                        // The active layout belongs to the layer when one is
                        // mapped, so do not learn it for the window underneath.
                        let layout = if layer_target.is_some() {
                            self.default_layout_for_active_class()
                        } else {
                            actual_layout
                        };
                        self.windows.insert(addr.0, layout);
                        None
                    },
                }
            },
            None => {
                self.active_window = None;
                self.active_class = None;
                None
            },
        };
        proof {
            assert(self@ =~= aligned.with_active(active_window));
        }
        let target = match layer_target {
            Some(layout) => Some(layout),
            None => window_target,
        };
        self.switch_if(target)
    }

    /// Whether the echoes of a switch to a layout can be counted.
    fn switch_fits(&self, target: Option<LayoutIndex>) -> (fits: bool)
        requires
            self.wf(),
        ensures
            fits == model::step_fits(self@.switched_to(target)),
    {
        proof {
            model::lemma_switch_fits(self@, target);
        }
        match target {
            Some(layout) => layout == self.active_layout || echo_room(
                &self.pending_echoes,
                self.keyboards.as_slice(),
            ),
            None => true,
        }
    }

    /// The layout that a snapshot asks for.
    fn layers_target(&self, live_layers: &[String]) -> (target: Option<LayoutIndex>)
        requires
            self.wf(),
        ensures
            target == self@.layers_target(text::texts(live_layers@)),
    {
        let ghost live = text::texts(live_layers@);
        let focused = self.reconcile_focused_layers(live_layers);
        proof {
            model::lemma_live_layers_valid(self@, live, None);
        }
        if text::same_list(focused.as_slice(), self.focused_layers.as_slice()) {
            return None;
        }
        let n: usize = focused.len();
        if n == 0 {
            return self.active_window_layout();
        }
        let ghost names = text::texts(focused@);
        proof {
            assert(names.last() == focused@[n - 1]@);
            assert(names.contains(names.last()));
        }
        match self.layers.get(focused[n - 1].as_str()) {
            Some(layout) => Some(layout),
            None => self.layer_default(focused[n - 1].as_str()),
        }
    }

    /// The layout that an event asks for.
    fn event_target(&self, event: &Event<'_>) -> (target: Option<LayoutIndex>)
        requires
            self.wf(),
        ensures
            target == (match event@ {
                crate::event::EventView::ActiveWindowV2 { addr } => self@.activation_target(addr),
                crate::event::EventView::OpenLayer { namespace } => self@.layers_target(
                    self@.layers_after_event(namespace, true),
                ),
                crate::event::EventView::CloseLayer { namespace } => self@.layers_target(
                    self@.layers_after_event(namespace, false),
                ),
                _ => None,
            }),
    {
        match event {
            Event::ActiveWindowV2 { addr } => {
                if self.focused_layers.len() > 0 {
                    None
                } else {
                    match self.known_layout(*addr) {
                        Some(layout) => Some(layout),
                        None => Some(self.default_layout_for_active_class()),
                    }
                }
            },
            Event::OpenLayer { namespace } => self.layers_target(
                self.layers_after(namespace, true).as_slice(),
            ),
            Event::CloseLayer { namespace } => self.layers_target(
                self.layers_after(namespace, false).as_slice(),
            ),
            _ => None,
        }
    }

    /// Takes in what an event says, unless a count of owed echoes would grow too
    /// large for it; the state then stays as it is.
    pub fn try_handle_event(&mut self, event: Event<'_>) -> (actions: Option<Vec<Action>>)
        requires
            old(self).wf(),
        ensures
            final(self).wf(),
            actions is Some <==> model::step_fits(old(self)@.handled(event@)),
            actions matches Some(a) ==> {
                &&& final(self)@ == old(self)@.handled(event@).0
                &&& asked(a@) == old(self)@.handled(event@).1
            },
            actions is None ==> final(self)@ == old(self)@,
    {
        let target = self.event_target(&event);
        let fits = self.switch_fits(target);
        proof {
            lemma_event_fits(self@, event@, target);
        }
        if fits {
            Some(self.handle_event(event))
        } else {
            None
        }
    }

    /// Follows a snapshot of what is mapped, unless a count of owed echoes would grow
    /// too large for it; the state then stays as it is.
    pub fn try_sync_layers(&mut self, live_layers: &[String]) -> (actions: Option<Vec<Action>>)
        requires
            old(self).wf(),
        ensures
            final(self).wf(),
            actions is Some <==> model::step_fits(old(self)@.synced(text::texts(live_layers@))),
            actions matches Some(a) ==> {
                &&& final(self)@ == old(self)@.synced(text::texts(live_layers@)).0
                &&& asked(a@) == old(self)@.synced(text::texts(live_layers@)).1
            },
            actions is None ==> final(self)@ == old(self)@,
    {
        let target = self.layers_target(live_layers);
        proof {
            lemma_sync_fits(self@, text::texts(live_layers@));
        }
        if self.switch_fits(target) {
            Some(self.sync_layers(live_layers))
        } else {
            None
        }
    }

    /// Settles a layer event against a snapshot, unless a count of owed echoes would
    /// grow too large for it; the state then stays as it is.
    pub fn try_reconcile_layer_event(
        &mut self,
        namespace: &str,
        target_count: usize,
        snapshot: &[String],
    ) -> (actions: Option<Vec<Action>>)
        requires
            old(self).wf(),
        ensures
            final(self).wf(),
            actions is Some <==> model::step_fits(
                old(self)@.event_reconciled(
                    namespace@,
                    target_count as nat,
                    text::texts(snapshot@),
                ),
            ),
            actions matches Some(a) ==> {
                &&& final(self)@ == old(self)@.event_reconciled(
                    namespace@,
                    target_count as nat,
                    text::texts(snapshot@),
                ).0
                &&& asked(a@) == old(self)@.event_reconciled(
                    namespace@,
                    target_count as nat,
                    text::texts(snapshot@),
                ).1
            },
            actions is None ==> final(self)@ == old(self)@,
    {
        let live_layers = layers::settle_event(
            self.focused_layers.as_slice(),
            namespace,
            target_count,
            snapshot,
        );
        let target = self.layers_target(live_layers.as_slice());
        proof {
            lemma_sync_fits(self@, text::texts(live_layers@));
        }
        if self.switch_fits(target) {
            Some(self.reconcile_layer_event(namespace, target_count, snapshot))
        } else {
            None
        }
    }

    /// Re-aligns the state with Hyprland, unless the configuration names a keyboard
    /// more often than echoes can be counted and a switch is due; the state then stays
    /// as it is.
    pub fn try_resync(
        &mut self,
        active: Option<(WindowAddr, String)>,
        actual_layout: LayoutIndex,
        live_windows: &[WindowAddr],
        live_layers: &[String],
    ) -> (actions: Option<Vec<Action>>)
        requires
            old(self).wf(),
        ensures
            final(self).wf(),
            actions is Some <==> model::step_fits(
                old(self)@.resynced(
                    active_view(active),
                    actual_layout,
                    addresses(live_windows@),
                    text::texts(live_layers@),
                ),
            ),
            actions matches Some(a) ==> {
                &&& final(self)@ == old(self)@.resynced(
                    active_view(active),
                    actual_layout,
                    addresses(live_windows@),
                    text::texts(live_layers@),
                ).0
                &&& asked(a@) == old(self)@.resynced(
                    active_view(active),
                    actual_layout,
                    addresses(live_windows@),
                    text::texts(live_layers@),
                ).1
            },
            actions is None ==> final(self)@ == old(self)@,
    {
        let target = self.resync_target(&active, actual_layout, live_windows, live_layers);
        let fits = match target {
            Some(layout) => layout == actual_layout || echo_room(
                &StringMap::new(),
                self.keyboards.as_slice(),
            ),
            None => true,
        };
        proof {
            let live = text::texts(live_layers@);
            let aligned = self@.realigned(actual_layout, addresses(live_windows@), live);
            let ready = aligned.with_active(active_view(active));
            assert(ready.pending_echoes == Map::<Text, nat>::empty());
            assert(echo_counts(Map::<Text, u8>::empty()) =~= Map::<Text, nat>::empty());
            assert(ready.keyboards == self@.keyboards);
            assert(ready.active_layout == actual_layout);
            model::lemma_switch_fits(ready, target);
        }
        if fits {
            Some(self.resync(active, actual_layout, live_windows, live_layers))
        } else {
            None
        }
    }

    /// The layout that a re-alignment restores.
    fn resync_target(
        &self,
        active: &Option<(WindowAddr, String)>,
        actual_layout: LayoutIndex,
        live_windows: &[WindowAddr],
        live_layers: &[String],
    ) -> (target: Option<LayoutIndex>)
        requires
            self.wf(),
        ensures
            target == self@.realigned(
                actual_layout,
                addresses(live_windows@),
                text::texts(live_layers@),
            ).restore_target(active_view(*active)),
    {
        let focused = self.reconcile_focused_layers(live_layers);
        let n: usize = focused.len();
        let ghost names = text::texts(focused@);
        if n > 0 {
            proof {
                assert(names.last() == focused@[n - 1]@);
                assert(names.contains(names.last()));
            }
            return match self.layers.get(focused[n - 1].as_str()) {
                Some(layout) => Some(layout),
                None => Some(actual_layout),
            };
        }
        match active {
            Some((addr, _)) => {
                if is_live(live_windows, *addr) {
                    self.known_layout(*addr)
                } else {
                    None
                }
            },
            None => None,
        }
    }

    /// A switch has come to its end: says of each keyboard whether it was switched.
    pub fn settle_switch(&mut self, keyboards: &[String], switched: &[bool], previous: LayoutIndex)
        requires
            old(self).wf(),
            keyboards@.len() == switched@.len(),
        ensures
            final(self).wf(),
            final(self)@ == old(self)@.switch_settled(
                text::texts(keyboards@),
                switched@,
                previous,
            ),
    {
        let ghost names = text::texts(keyboards@);
        let mut any_switched = false;
        let mut i: usize = 0;
        proof {
            assert(self@ =~= (StateView {
                pending_echoes: model::without_failed(
                    self@.pending_echoes,
                    names.take(0),
                    switched@.take(0),
                ),
                ..self@
            }));
        }
        while i < keyboards.len()
            invariant
                i <= keyboards.len(),
                keyboards@.len() == switched@.len(),
                names == text::texts(keyboards@),
                self.wf(),
                any_switched == switched@.take(i as int).contains(true),
                self@ == (StateView {
                    pending_echoes: model::without_failed(
                        old(self)@.pending_echoes,
                        names.take(i as int),
                        switched@.take(i as int),
                    ),
                    ..old(self)@
                }),
            decreases keyboards.len() - i,
        {
            proof {
                let shorter = switched@.take(i as int);
                let longer = switched@.take(i + 1);
                assert(longer.drop_last() =~= shorter);
                assert(names.take(i + 1).drop_last() =~= names.take(i as int));
                assert(names.take(i + 1).last() == keyboards@[i as int]@);
                assert(longer.last() == switched@[i as int]);
                if shorter.contains(true) {
                    let j = shorter.index_of(true);
                    assert(longer[j]);
                }
                if longer.contains(true) && !switched@[i as int] {
                    let j = longer.index_of(true);
                    assert(shorter[j]);
                }
                if switched@[i as int] {
                    assert(longer[i as int]);
                }
            }
            if switched[i] {
                any_switched = true;
            } else {
                self.switch_failed(keyboards[i].as_str());
            }
            i += 1;
        }
        proof {
            assert(names.take(i as int) =~= names);
            assert(switched@.take(i as int) =~= switched@);
        }
        if !any_switched {
            self.set_active_layout(previous);
        }
    }
}

/// Whether the window is in the list.
fn is_live(live_windows: &[WindowAddr], addr: WindowAddr) -> (live: bool)
    ensures
        live == addresses(live_windows@).contains(addr.0),
{
    let mut i: usize = 0;
    while i < live_windows.len()
        invariant
            i <= live_windows.len(),
            forall|j: int| 0 <= j < i ==> #[trigger] addresses(live_windows@)[j] != addr.0,
        decreases live_windows.len() - i,
    {
        if live_windows[i].0 == addr.0 {
            assert(addresses(live_windows@)[i as int] == addr.0);
            return true;
        }
        i += 1;
    }
    false
}

/// A snapshot fits just where the switch that it asks for fits.
proof fn lemma_sync_fits(s: StateView, live: Seq<Text>)
    requires
        s.valid(),
    ensures
        model::step_fits(s.synced(live)) <==> model::step_fits(
            s.switched_to(s.layers_target(live)),
        ),
{
    model::lemma_switch_fits(s, s.layers_target(live));
    model::lemma_switch_fits(s.with_live_layers(live, None), s.layers_target(live));
}

/// An event fits just where the switch that it asks for fits.
proof fn lemma_event_fits(
    s: StateView,
    event: crate::event::EventView,
    target: Option<LayoutIndex>,
)
    requires
        s.valid(),
        target == (match event {
            crate::event::EventView::ActiveWindowV2 { addr } => s.activation_target(addr),
            crate::event::EventView::OpenLayer { namespace } => s.layers_target(
                s.layers_after_event(namespace, true),
            ),
            crate::event::EventView::CloseLayer { namespace } => s.layers_target(
                s.layers_after_event(namespace, false),
            ),
            _ => None,
        }),
    ensures
        model::step_fits(s.handled(event)) <==> model::step_fits(s.switched_to(target)),
{
    model::lemma_switch_fits(s, target);
    assert forall|k: Text| #[trigger] model::echoes(s.pending_echoes, k)
        <= model::max_echoes() by {
        if s.pending_echoes.contains_key(k) {
        }
    }
    match event {
        crate::event::EventView::ActiveWindowV2 { addr } => {
            model::lemma_switch_fits(s.with_active_window(addr), target);
        },
        crate::event::EventView::OpenLayer { namespace } => {
            lemma_sync_fits(s, s.layers_after_event(namespace, true));
        },
        crate::event::EventView::CloseLayer { namespace } => {
            lemma_sync_fits(s, s.layers_after_event(namespace, false));
        },
        crate::event::EventView::ActiveLayout { keyboard, layout_name } => {
            assert forall|k: Text| #[trigger] model::echoes(
                s.handled(event).0.pending_echoes,
                k,
            ) <= model::max_echoes() by {
                assert(model::echoes(s.pending_echoes, k) <= model::max_echoes());
            }
        },
        _ => {},
    }
}

/// What a list of actions asks is what its actions ask, one by one; the addresses of a list
/// of windows are those of its windows; and an active window is viewed by its address and
/// class.
pub proof fn law_views(
    actions: Seq<Action>,
    windows: Seq<WindowAddr>,
    addr: WindowAddr,
    class_name: String,
    i: int,
)
    ensures
        asked(actions).len() == actions.len(),
        0 <= i < actions.len() ==> asked(actions)[i] == actions[i]@,
        addresses(windows).len() == windows.len(),
        0 <= i < windows.len() ==> addresses(windows)[i] == windows[i].0,
        active_view(Some((addr, class_name))) == Some((addr.0, class_name@)),
        active_view(None) is None,
{
}

/// An address is written as `0x` and its digits.
pub proof fn law_written_address(addr: WindowAddr)
    ensures
        addr.text().take(2) == "0x"@,
        addr.text().skip(2) == numbers::hex_text(addr.0 as nat),
{
    reveal_strlit("0x");
    assert(addr.text().take(2) =~= "0x"@);
    assert(addr.text().skip(2) =~= numbers::hex_text(addr.0 as nat));
}

} // verus!
