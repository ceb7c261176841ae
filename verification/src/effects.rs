//! What each operation does to the state and asks of Hyprland, whatever the state was.

use vstd::prelude::*;

#[allow(unused_imports)]
use crate::config;
#[allow(unused_imports)]
use crate::event::EventView;
#[allow(unused_imports)]
use crate::layers;
#[allow(unused_imports)]
use crate::model;
#[allow(unused_imports)]
use crate::model::{ActionView, StateView, Step};
#[allow(unused_imports)]
use crate::rules::RulesView;
#[allow(unused_imports)]
use crate::state::LayoutIndex;
#[allow(unused_imports)]
use crate::text::Text;

verus! {

/// The state before went over to a layout, or to none: nothing is asked where there is
/// none, where it is active or where no keyboard is known. Else every known keyboard is
/// asked to switch, once, and owes one more echo for each time it is listed.
pub open spec fn went_over(
    before: StateView,
    after: StateView,
    actions: Seq<ActionView>,
    target: Option<LayoutIndex>,
) -> bool {
    let silent = actions.len() == 0 && after.pending_echoes == before.pending_echoes;
    match target {
        None => silent && after.active_layout == before.active_layout,
        Some(layout) => {
            &&& after.active_layout == layout
            &&& layout == before.active_layout || before.keyboards.len() == 0 ==> silent
            &&& layout != before.active_layout && before.keyboards.len() > 0 ==> {
                &&& actions.len() == 1
                &&& actions[0] == ActionView::SwitchLayout {
                    keyboards: before.keyboards,
                    layout,
                    previous: before.active_layout,
                }
                &&& forall|k: Text| #[trigger]
                    model::echoes(after.pending_echoes, k) == model::echoes(
                        before.pending_echoes,
                        k,
                    ) + layers::occurrences(before.keyboards, k)
            }
        },
    }
}

/// Nothing but the active layout and the owed echoes differs.
pub open spec fn differs_by_switch(before: StateView, after: StateView) -> bool {
    after == (StateView {
        active_layout: after.active_layout,
        pending_echoes: after.pending_echoes,
        ..before
    })
}

/// The layout that rules give a class, or 0.
pub open spec fn layout_of_class(rules: RulesView, class_name: Text) -> LayoutIndex {
    if rules.lookup(class_name) is Some {
        rules.lookup(class_name).unwrap()
    } else {
        0
    }
}

proof fn lemma_went_over(s: StateView, target: Option<LayoutIndex>)
    ensures
        went_over(s, s.switched_to(target).0, s.switched_to(target).1, target),
        differs_by_switch(s, s.switched_to(target).0),
{
    if target is Some && target != Some(s.active_layout) && s.keyboards.len() > 0 {
        let after = s.switched_to(target).0;
        assert forall|k: Text| #[trigger] model::echoes(after.pending_echoes, k) == model::echoes(
            s.pending_echoes,
            k,
        ) + layers::occurrences(s.keyboards, k) by {
            model::lemma_with_echoes(s.pending_echoes, s.keyboards, k);
        }
    }
}

/// How many echoes a keyboard owes is what the table says of it, and none where the table
/// says nothing.
pub proof fn law_echoes(pending: Map<Text, nat>, keyboard: Text)
    ensures
        pending.contains_key(keyboard) ==> model::echoes(pending, keyboard) == pending[keyboard],
        !pending.contains_key(keyboard) ==> model::echoes(pending, keyboard) == 0,
{
}

/// What a valid state holds to: its focused layers are configured and have a layout, what
/// a keyboard owes is at least one echo and fits a byte, and learned keyboards are listed
/// once and hold no excluded fragment. A state that holds to it is valid.
pub proof fn law_valid(s: StateView)
    ensures
        s.valid() <==> {
            &&& forall|k: Text| #[trigger]
                s.focused_layers.contains(k) ==> s.layer_rules.lookup(k) is Some
                    && s.layers.contains_key(k)
            &&& forall|k: Text| #[trigger]
                s.pending_echoes.contains_key(k) ==> 1 <= s.pending_echoes[k] <= u8::MAX
            &&& s.configured_keyboards || s.keyboards.no_duplicates()
            &&& s.configured_keyboards || forall|k: Text| #[trigger]
                s.keyboards.contains(k) ==> !config::excluded_by(s.exclude_contains, k)
        },
{
    if s.valid() {
        assert forall|k: Text| #[trigger] s.focused_layers.contains(k) implies s.layer_rules.lookup(
            k,
        ) is Some && s.layers.contains_key(k) by {
            let i = s.focused_layers.index_of(k);
            assert(s.focused_layers[i] == k);
        }
        if !s.configured_keyboards {
            assert forall|k: Text| #[trigger]
                s.keyboards.contains(k) implies !config::excluded_by(s.exclude_contains, k) by {
                let i = s.keyboards.index_of(k);
                assert(s.keyboards[i] == k);
                assert(!s.excludes(s.keyboards[i]));
            }
        }
    } else {
        if forall|k: Text| #[trigger]
            s.focused_layers.contains(k) ==> s.layer_rules.lookup(k) is Some
                && s.layers.contains_key(k) {
            assert forall|i: int| 0 <= i < s.focused_layers.len() implies s.layer_rules.lookup(
                #[trigger] s.focused_layers[i],
            ) is Some && s.layers.contains_key(s.focused_layers[i]) by {
                assert(s.focused_layers.contains(s.focused_layers[i]));
            }
        }
        if !s.configured_keyboards && forall|k: Text| #[trigger]
            s.keyboards.contains(k) ==> !config::excluded_by(s.exclude_contains, k) {
            assert forall|i: int| 0 <= i < s.keyboards.len() implies !s.excludes(
                #[trigger] s.keyboards[i],
            ) by {
                assert(s.keyboards.contains(s.keyboards[i]));
            }
        }
    }
}

/// A step can be taken just where no keyboard owes more echoes after it than fit a byte.
pub proof fn law_step_fits(step: Step)
    ensures
        model::step_fits(step) <==> forall|k: Text| #[trigger]
            step.0.pending_echoes.contains_key(k) ==> step.0.pending_echoes[k] <= u8::MAX,
{
    let pending = step.0.pending_echoes;
    if model::step_fits(step) {
        assert forall|k: Text| #[trigger] pending.contains_key(k) implies pending[k]
            <= u8::MAX by {
            assert(model::echoes(pending, k) <= model::max_echoes());
        }
    } else if forall|k: Text| #[trigger] pending.contains_key(k) ==> pending[k] <= u8::MAX {
        assert forall|k: Text| #[trigger] model::echoes(pending, k) <= model::max_echoes() by {
            if pending.contains_key(k) {
            }
        }
    }
}

/// The class that is told is the active class, in every state, and nothing else changes.
pub proof fn law_class_told(s: StateView, class_name: Text)
    ensures
        ({
            let (next, actions) = s.handled(EventView::ActiveWindow { class_name });
            &&& next.active_class == Some(class_name)
            &&& next == (StateView { active_class: next.active_class, ..s })
            &&& actions.len() == 0
        }),
{
}

/// A class that is told and a new window that gets the focus after it: the window has the
/// layout of that class, also while a layer holds the keyboard. Where none does, that is
/// the active layout; where one does, the layout stays.
pub proof fn law_new_window_of_class(s: StateView, class_name: Text, addr: u64)
    requires
        !s.windows.contains_key(addr),
    ensures
        ({
            let told = s.handled(EventView::ActiveWindow { class_name }).0;
            let (next, actions) = told.handled(EventView::ActiveWindowV2 { addr });
            let layout = layout_of_class(s.class_rules, class_name);
            &&& next.windows == s.windows.insert(addr, layout)
            &&& next.active_window == Some(addr)
            &&& next.active_class == Some(class_name)
            &&& went_over(
                s,
                next,
                actions,
                if s.focused_layers.len() == 0 {
                    Some(layout)
                } else {
                    None
                },
            )
        }),
{
    let told = s.handled(EventView::ActiveWindow { class_name }).0;
    lemma_went_over(told.with_active_window(addr), told.activation_target(addr));
}

/// A window that gets the focus is the active one, and only it can become known by that:
/// with the layout of the active class, or 0 without a class. A known window keeps its
/// layout. Where no layer holds the keyboard, the layout of the window becomes active.
pub proof fn law_window_focused(s: StateView, addr: u64)
    ensures
        ({
            let (next, actions) = s.handled(EventView::ActiveWindowV2 { addr });
            let layout = if s.windows.contains_key(addr) {
                s.windows[addr]
            } else if s.active_class is Some {
                layout_of_class(s.class_rules, s.active_class.unwrap())
            } else {
                0
            };
            &&& next.active_window == Some(addr)
            &&& next.windows == s.windows.insert(addr, layout)
            &&& differs_by_switch(
                StateView { active_window: next.active_window, windows: next.windows, ..s },
                next,
            )
            &&& went_over(
                s,
                next,
                actions,
                if s.focused_layers.len() == 0 {
                    Some(layout)
                } else {
                    None
                },
            )
        }),
{
    lemma_went_over(s.with_active_window(addr), s.activation_target(addr));
    if s.windows.contains_key(addr) {
        assert(s.windows.insert(addr, s.windows[addr]) =~= s.windows);
    }
}

/// Where no window gets the focus, there is neither an active window nor an active class,
/// and nothing else changes.
pub proof fn law_no_window_focused(s: StateView)
    ensures
        ({
            let (next, actions) = s.handled(EventView::EmptyActiveWindow);
            &&& next.active_window is None
            &&& next.active_class is None
            &&& next == (StateView {
                active_window: next.active_window,
                active_class: next.active_class,
                ..s
            })
            &&& actions.len() == 0
        }),
{
}

/// A window that closes is the one window that is forgotten, and nothing else changes.
pub proof fn law_window_closed(s: StateView, addr: u64, other: u64)
    ensures
        ({
            let (next, actions) = s.handled(EventView::CloseWindow { addr });
            &&& !next.windows.contains_key(addr)
            &&& other != addr ==> next.windows.contains_key(other) == s.windows.contains_key(other)
            &&& other != addr && s.windows.contains_key(other) ==> next.windows[other]
                == s.windows[other]
            &&& next == (StateView { windows: next.windows, ..s })
            &&& actions.len() == 0
        }),
{
}

/// An event that means nothing changes nothing.
pub proof fn law_ignored_event(s: StateView)
    ensures
        s.handled(EventView::Ignored).0 == s,
        s.handled(EventView::Ignored).1.len() == 0,
{
}

/// The state but for what one keyboard owes.
pub open spec fn differs_by_echoes_of(
    before: StateView,
    after: StateView,
    keyboard: Text,
) -> bool {
    &&& after == (StateView { pending_echoes: after.pending_echoes, ..before })
    &&& forall|k: Text|
        k != keyboard ==> #[trigger] model::echoes(after.pending_echoes, k) == model::echoes(
            before.pending_echoes,
            k,
        )
}

/// What a report of a keyboard does, by exclusion, by what the keyboard owes and by
/// configuration: an excluded keyboard changes nothing; one that owes an echo owes one
/// fewer; where keyboards are configured, any other that is not among them changes
/// nothing. Every other keyboard is asked about, whichever are known, and is known after.
pub proof fn law_report(s: StateView, keyboard: Text, layout_name: Text)
    ensures
        ({
            let (next, actions) = s.handled(EventView::ActiveLayout { keyboard, layout_name });
            let owed = model::echoes(s.pending_echoes, keyboard);
            if config::excluded_by(s.exclude_contains, keyboard) {
                next == s && actions.len() == 0
            } else if owed > 0 {
                &&& differs_by_echoes_of(s, next, keyboard)
                &&& model::echoes(next.pending_echoes, keyboard) == owed - 1
                &&& actions.len() == 0
            } else if s.configured_keyboards && !s.keyboards.contains(keyboard) {
                next == s && actions.len() == 0
            } else {
                &&& actions.len() == 1
                &&& actions[0] == ActionView::QueryKeyboardLayout { keyboard }
                &&& next == (StateView { keyboards: next.keyboards, ..s })
                &&& next.keyboards == if s.keyboards.contains(keyboard) {
                    s.keyboards
                } else {
                    s.keyboards.push(keyboard)
                }
            }
        }),
{
}

/// What the answer about a keyboard's layout does: nothing where the keyboard is excluded,
/// or where others are configured. Else the layout is active and belongs to the innermost
/// layer, or without layers to the active window, or without one to nothing.
pub proof fn law_answer(s: StateView, keyboard: Text, layout: LayoutIndex)
    ensures
        ({
            let next = s.recorded(keyboard, layout);
            let heard = !config::excluded_by(s.exclude_contains, keyboard) && (
            !s.configured_keyboards || s.keyboards.contains(keyboard));
            &&& !heard ==> next == s
            &&& heard ==> next.active_layout == layout
            &&& next == (StateView {
                active_layout: next.active_layout,
                layers: next.layers,
                windows: next.windows,
                ..s
            })
            &&& heard && s.focused_layers.len() > 0 ==> next.windows == s.windows && next.layers
                == s.layers.insert(s.focused_layers[s.focused_layers.len() - 1], layout)
            &&& s.focused_layers.len() == 0 ==> next.layers == s.layers
            &&& heard && s.focused_layers.len() == 0 && s.active_window is Some ==> next.windows
                == s.windows.insert(s.active_window.unwrap(), layout)
            &&& s.active_window is None ==> next.windows == s.windows
        }),
{
}

/// Where no keyboards are configured, a change on any keyboard that is not excluded and
/// owes no echo is asked about, whichever keyboards are known, and the answer becomes the
/// active layout and that of the innermost layer or else of the active window.
pub proof fn law_change_on_any_keyboard(
    s: StateView,
    keyboard: Text,
    layout_name: Text,
    layout: LayoutIndex,
)
    requires
        !s.configured_keyboards,
        !config::excluded_by(s.exclude_contains, keyboard),
        model::echoes(s.pending_echoes, keyboard) == 0,
    ensures
        ({
            let (asked, actions) = s.handled(EventView::ActiveLayout { keyboard, layout_name });
            let next = asked.recorded(keyboard, layout);
            &&& actions.len() == 1
            &&& actions[0] == ActionView::QueryKeyboardLayout { keyboard }
            &&& next.active_layout == layout
            &&& s.focused_layers.len() > 0 ==> next.layers[s.focused_layers.last()] == layout
                && next.windows == s.windows
            &&& s.focused_layers.len() == 0 && s.active_window is Some
                ==> next.active_window_layout() == Some(layout) && next.layers == s.layers
            &&& next.keyboards.contains(keyboard)
        }),
{
    law_report(s, keyboard, layout_name);
    let asked = s.handled(EventView::ActiveLayout { keyboard, layout_name }).0;
    law_answer(asked, keyboard, layout);
    if !s.keyboards.contains(keyboard) {
        assert(asked.keyboards[s.keyboards.len() as int] == keyboard);
    }
}

/// Where keyboards are configured, a change on each of them that is not excluded and owes
/// no echo is asked about, and the answer counts.
pub proof fn law_change_on_configured_keyboard(
    s: StateView,
    keyboard: Text,
    layout_name: Text,
    layout: LayoutIndex,
)
    requires
        s.configured_keyboards,
        s.keyboards.contains(keyboard),
        !config::excluded_by(s.exclude_contains, keyboard),
        model::echoes(s.pending_echoes, keyboard) == 0,
    ensures
        ({
            let (asked, actions) = s.handled(EventView::ActiveLayout { keyboard, layout_name });
            &&& asked == s
            &&& actions.len() == 1
            &&& actions[0] == ActionView::QueryKeyboardLayout { keyboard }
            &&& s.recorded(keyboard, layout).active_layout == layout
        }),
{
    law_report(s, keyboard, layout_name);
    law_answer(s, keyboard, layout);
}

/// The main keyboard at startup is known after it, behind those that were, unless it is
/// excluded or keyboards are configured. Nothing else changes.
pub proof fn law_keyboard_seeded(s: StateView, keyboard: Text)
    ensures
        ({
            let next = s.seeded(keyboard);
            &&& next == (StateView { keyboards: next.keyboards, ..s })
            &&& next.keyboards == if s.configured_keyboards || config::excluded_by(
                s.exclude_contains,
                keyboard,
            ) || s.keyboards.contains(keyboard) {
                s.keyboards
            } else {
                s.keyboards.push(keyboard)
            }
        }),
{
}

/// A keyboard that was not switched owes one echo fewer, if it owed any, and nothing else
/// changes.
pub proof fn law_switch_failed(s: StateView, keyboard: Text)
    ensures
        ({
            let next = s.echo_consumed(keyboard);
            let owed = model::echoes(s.pending_echoes, keyboard);
            &&& differs_by_echoes_of(s, next, keyboard)
            &&& model::echoes(next.pending_echoes, keyboard) == if owed > 0 {
                owed - 1
            } else {
                0
            }
        }),
{
}

/// The end of a switch changes the owed echoes and the active layout at most: the layout is
/// the one before where no keyboard was switched, and stays where one was. A keyboard that
/// is listed once owes as much as before if it was switched, and one echo fewer if not.
/// One that is not listed owes as much as before.
pub proof fn law_switch_ended(
    s: StateView,
    keyboards: Seq<Text>,
    switched: Seq<bool>,
    previous: LayoutIndex,
    i: int,
    other: Text,
)
    requires
        keyboards.len() == switched.len(),
        keyboards.no_duplicates(),
        0 <= i < keyboards.len(),
        !keyboards.contains(other),
    ensures
        ({
            let next = s.switch_settled(keyboards, switched, previous);
            let owed = model::echoes(s.pending_echoes, keyboards[i]);
            &&& differs_by_switch(s, next)
            &&& (exists|j: int| 0 <= j < switched.len() && #[trigger] switched[j])
                ==> next.active_layout == s.active_layout
            &&& (forall|j: int| 0 <= j < switched.len() ==> !(#[trigger] switched[j]))
                ==> next.active_layout == previous
            &&& model::echoes(next.pending_echoes, keyboards[i]) == if switched[i] || owed == 0 {
                owed as int
            } else {
                owed - 1
            }
            &&& model::echoes(next.pending_echoes, other) == model::echoes(
                s.pending_echoes,
                other,
            )
        }),
{
    lemma_without_failed_each(s.pending_echoes, keyboards, switched, i);
    lemma_without_failed_other(s.pending_echoes, keyboards, switched, other);
    if exists|j: int| 0 <= j < switched.len() && #[trigger] switched[j] {
        let j = choose|j: int| 0 <= j < switched.len() && #[trigger] switched[j];
        assert(switched[j] == true);
        assert(switched.contains(true));
    }
    if switched.contains(true) {
        let j = switched.index_of(true);
        assert(switched[j]);
    }
}

proof fn lemma_without_failed_other(
    pending: Map<Text, nat>,
    keyboards: Seq<Text>,
    switched: Seq<bool>,
    other: Text,
)
    requires
        keyboards.len() == switched.len(),
        !keyboards.contains(other),
    ensures
        model::echoes(model::without_failed(pending, keyboards, switched), other)
            == model::echoes(pending, other),
    decreases keyboards.len(),
{
    if keyboards.len() > 0 {
        assert(keyboards[keyboards.len() - 1] == keyboards.last());
        assert(!keyboards.drop_last().contains(other)) by {
            if keyboards.drop_last().contains(other) {
                let j = keyboards.drop_last().index_of(other);
                assert(keyboards[j] == other);
            }
        }
        lemma_without_failed_other(pending, keyboards.drop_last(), switched.drop_last(), other);
    }
}

proof fn lemma_without_failed_each(
    pending: Map<Text, nat>,
    keyboards: Seq<Text>,
    switched: Seq<bool>,
    i: int,
)
    requires
        keyboards.len() == switched.len(),
        keyboards.no_duplicates(),
        0 <= i < keyboards.len(),
    ensures
        ({
            let owed = model::echoes(pending, keyboards[i]);
            model::echoes(model::without_failed(pending, keyboards, switched), keyboards[i])
                == if switched[i] || owed == 0 {
                owed as int
            } else {
                owed - 1
            }
        }),
    decreases keyboards.len(),
{
    let before = keyboards.drop_last();
    let last = keyboards.len() - 1;
    assert(keyboards[last] == keyboards.last());
    if i == last {
        assert(!before.contains(keyboards[i])) by {
            if before.contains(keyboards[i]) {
                let j = before.index_of(keyboards[i]);
                assert(keyboards[j] == keyboards[i]);
            }
        }
        lemma_without_failed_other(pending, before, switched.drop_last(), keyboards[i]);
    } else {
        assert(before[i] == keyboards[i]);
        assert(keyboards[i] != keyboards[last]);
        lemma_without_failed_each(pending, before, switched.drop_last(), i);
    }
}

/// The smaller of two counts.
pub open spec fn least(a: nat, b: nat) -> nat {
    if a <= b {
        a
    } else {
        b
    }
}

/// How often a snapshot shows a namespace, if it is configured.
pub open spec fn shown(rules: RulesView, live: Seq<Text>, namespace: Text) -> nat {
    if rules.lookup(namespace) is Some {
        layers::occurrences(live, namespace)
    } else {
        0
    }
}

/// The layers that were focused stay in their order, from the outermost on and as often as
/// they are in the snapshot: whatever the first `n` of them were, some first ones hold
/// just as many of each as the snapshot lets stay.
pub open spec fn keeps_order(
    rules: RulesView,
    before: Seq<Text>,
    live: Seq<Text>,
    after: Seq<Text>,
    n: int,
    p: int,
) -> bool {
    &&& 0 <= p <= after.len()
    &&& forall|x: Text| #[trigger]
        layers::occurrences(after.take(p), x) == least(
            layers::occurrences(before.take(n), x),
            shown(rules, live, x),
        )
}

/// The layers that are new come after them, in the order of the snapshot: whatever the first
/// `n` of the snapshot are, some first ones hold those that stayed and just as many of each
/// as are shown so far, up to all that were missing.
pub open spec fn adds_in_order(
    rules: RulesView,
    before: Seq<Text>,
    live: Seq<Text>,
    after: Seq<Text>,
    n: int,
    p: int,
) -> bool {
    &&& 0 <= p <= after.len()
    &&& forall|x: Text| #[trigger]
        layers::occurrences(after.take(p), x) == ({
            let stayed = least(layers::occurrences(before, x), shown(rules, live, x));
            stayed + least(
                shown(rules, live.take(n), x),
                (shown(rules, live, x) - stayed) as nat,
            )
        })
}

/// The focus follows a snapshot: every configured namespace is focused as often as it is
/// shown, what stays keeps its order, and what is new comes after it in the order shown.
pub open spec fn focus_follows(
    rules: RulesView,
    before: Seq<Text>,
    live: Seq<Text>,
    after: Seq<Text>,
) -> bool {
    &&& forall|x: Text| #[trigger] layers::occurrences(after, x) == shown(rules, live, x)
    &&& forall|n: int| 0 <= n <= before.len() ==> #[trigger] order_kept(rules, before, live, after, n)
    &&& forall|n: int| 0 <= n <= live.len() ==> #[trigger] order_added(rules, before, live, after, n)
}

/// Some first ones of the focus are what stays of the first `n` that were focused.
pub open spec fn order_kept(
    rules: RulesView,
    before: Seq<Text>,
    live: Seq<Text>,
    after: Seq<Text>,
    n: int,
) -> bool {
    exists|p: int| keeps_order(rules, before, live, after, n, p)
}

/// Some first ones of the focus are what stays, and what is new of the first `n` shown.
pub open spec fn order_added(
    rules: RulesView,
    before: Seq<Text>,
    live: Seq<Text>,
    after: Seq<Text>,
    n: int,
) -> bool {
    exists|p: int| adds_in_order(rules, before, live, after, n, p)
}

proof fn lemma_focus_follows(rules: RulesView, before: Seq<Text>, live: Seq<Text>)
    ensures
        focus_follows(
            rules,
            before,
            live,
            layers::reconciled(before, layers::tracked_layers(live, rules)),
        ),
{
    let mapped = layers::tracked_layers(live, rules);
    let none = Seq::<Text>::empty();
    let kept = layers::fitting(before, mapped, none);
    let added = layers::fitting(mapped, mapped, kept);
    let after = layers::reconciled(before, mapped);
    assert forall|x: Text| #[trigger] layers::occurrences(mapped, x) == shown(rules, live, x) by {
        layers::lemma_tracked_configured(live, rules, x);
    }
    assert forall|x: Text| #[trigger] layers::occurrences(after, x) == shown(rules, live, x) by {
        layers::lemma_reconciled_count(before, mapped, x);
        assert(layers::occurrences(mapped, x) == shown(rules, live, x));
    }
    assert forall|n: int| 0 <= n <= before.len() implies #[trigger] order_kept(
        rules,
        before,
        live,
        after,
        n,
    ) by {
        let part = layers::fitting(before.take(n), mapped, none);
        layers::lemma_fitting_prefix(before, mapped, none, n);
        let p = part.len() as int;
        assert(after.take(p) =~= part);
        assert forall|x: Text| #[trigger] layers::occurrences(after.take(p), x) == least(
            layers::occurrences(before.take(n), x),
            shown(rules, live, x),
        ) by {
            layers::lemma_fitting_count(before.take(n), mapped, none, x);
            assert(layers::occurrences(mapped, x) == shown(rules, live, x));
        }
        assert(keeps_order(rules, before, live, after, n, p));
    }
    assert forall|n: int| 0 <= n <= live.len() implies #[trigger] order_added(
        rules,
        before,
        live,
        after,
        n,
    ) by {
        let first = layers::tracked_layers(live.take(n), rules);
        layers::lemma_tracked_prefix(live, rules, n);
        let m = first.len() as int;
        assert(mapped.take(m) =~= first);
        let part = layers::fitting(mapped.take(m), mapped, kept);
        layers::lemma_fitting_prefix(mapped, mapped, kept, m);
        let p = (kept.len() + part.len()) as int;
        assert(after.take(p) =~= kept + part);
        assert forall|x: Text| #[trigger] layers::occurrences(after.take(p), x) == ({
            let stayed = least(layers::occurrences(before, x), shown(rules, live, x));
            stayed + least(
                shown(rules, live.take(n), x),
                (shown(rules, live, x) - stayed) as nat,
            )
        }) by {
            layers::lemma_occurrences_concat(kept, part, x);
            layers::lemma_fitting_count(before, mapped, none, x);
            layers::lemma_fitting_count(first, mapped, kept, x);
            layers::lemma_tracked_configured(live.take(n), rules, x);
            assert(layers::occurrences(mapped, x) == shown(rules, live, x));
        }
        assert(adds_in_order(rules, before, live, after, n, p));
    }
}

/// What a change of the focus entails: layers that had a layout keep it, the others that
/// are focused get the configured one, and no other layer becomes known. Where the focus
/// changed, the state goes over to the layout of the innermost layer, or to that of the
/// active window where no layer is left and the window has one. Windows, keyboards and
/// rules stay.
pub open spec fn focus_entails(
    before: StateView,
    after: StateView,
    actions: Seq<ActionView>,
) -> bool {
    let focused = after.focused_layers;
    &&& differs_by_switch(
        StateView { focused_layers: focused, layers: after.layers, ..before },
        after,
    )
    &&& forall|x: Text| #[trigger]
        after.layers.contains_key(x) <==> before.layers.contains_key(x) || focused.contains(x)
    &&& forall|x: Text| #[trigger]
        after.layers.contains_key(x) ==> after.layers[x] == if before.layers.contains_key(x) {
            before.layers[x]
        } else {
            before.layer_rules.lookup(x).unwrap()
        }
    &&& went_over(
        before,
        after,
        actions,
        if focused == before.focused_layers {
            None
        } else if focused.len() > 0 {
            Some(after.layers[focused[focused.len() - 1]])
        } else if before.active_window is Some && before.windows.contains_key(
            before.active_window.unwrap(),
        ) {
            Some(before.windows[before.active_window.unwrap()])
        } else {
            None
        },
    )
}

proof fn lemma_focus_entails(s: StateView, live: Seq<Text>)
    ensures
        focus_entails(s, s.synced(live).0, s.synced(live).1),
        s.synced(live).0.focused_layers == layers::reconciled(
            s.focused_layers,
            layers::tracked_layers(live, s.layer_rules),
        ),
{
    lemma_went_over(s.with_live_layers(live, None), s.layers_target(live));
}

/// A snapshot of the layers: the focus follows it, with all that this entails.
pub proof fn law_layers_shown(s: StateView, live: Seq<Text>)
    ensures
        ({
            let (next, actions) = s.synced(live);
            &&& focus_follows(s.layer_rules, s.focused_layers, live, next.focused_layers)
            &&& focus_entails(s, next, actions)
        }),
{
    lemma_focus_follows(s.layer_rules, s.focused_layers, live);
    lemma_focus_entails(s, live);
}

/// A configured layer that opens is innermost, over all that were focused, with all that
/// this entails.
pub proof fn law_layer_opens(s: StateView, namespace: Text)
    requires
        s.valid(),
        s.layer_rules.lookup(namespace) is Some,
    ensures
        ({
            let (next, actions) = s.handled(EventView::OpenLayer { namespace });
            &&& next.focused_layers == s.focused_layers.push(namespace)
            &&& focus_entails(s, next, actions)
        }),
{
    let opened = s.focused_layers.push(namespace);
    assert forall|i: int| 0 <= i < opened.len() implies s.layer_rules.lookup(
        #[trigger] opened[i],
    ) is Some by {
        if i < s.focused_layers.len() {
            assert(opened[i] == s.focused_layers[i]);
        }
    }
    layers::lemma_tracked_all(opened, s.layer_rules);
    layers::lemma_reconciled_open(s.focused_layers, namespace);
    lemma_focus_entails(s, opened);
}

/// A layer that closes, whether it is innermost or not: the last focused one of its
/// namespace goes and all others stay in their order, with all that this entails. Where
/// none of the namespace is focused, nothing changes.
pub proof fn law_layer_closes(s: StateView, namespace: Text)
    requires
        s.valid(),
    ensures
        ({
            let (next, actions) = s.handled(EventView::CloseLayer { namespace });
            &&& focus_entails(s, next, actions)
            &&& s.focused_layers.contains(namespace) ==> exists|i: int|
                {
                    &&& 0 <= i < s.focused_layers.len()
                    &&& #[trigger] s.focused_layers[i] == namespace
                    &&& !s.focused_layers.skip(i + 1).contains(namespace)
                    &&& next.focused_layers == s.focused_layers.remove(i)
                }
            &&& !s.focused_layers.contains(namespace) ==> next == s && actions.len() == 0
        }),
{
    let closed = layers::without_last(s.focused_layers, namespace);
    layers::lemma_reconciled_close(s.focused_layers, namespace);
    lemma_focus_entails(s, closed);
    if s.focused_layers.contains(namespace) {
        let i = layers::lemma_without_last_place(s.focused_layers, namespace);
        assert forall|j: int| 0 <= j < closed.len() implies s.layer_rules.lookup(
            #[trigger] closed[j],
        ) is Some by {
            let k = if j < i { j } else { j + 1 };
            assert(closed[j] == s.focused_layers[k]);
        }
        layers::lemma_tracked_all(closed, s.layer_rules);
        assert(s.focused_layers[i] == namespace);
        assert(!s.focused_layers.skip(i + 1).contains(namespace)) by {
            if s.focused_layers.skip(i + 1).contains(namespace) {
                let j = s.focused_layers.skip(i + 1).index_of(namespace);
                assert(s.focused_layers[i + 1 + j] == namespace);
            }
        }
    } else {
        layers::lemma_without_last_count(s.focused_layers, namespace, namespace);
        layers::lemma_tracked_all(s.focused_layers, s.layer_rules);
        assert(s.focus_after(closed) == s.focused_layers);
        let filled = model::remembered(s.layers, s.focused_layers, s.layer_rules);
        assert forall|k: Text| s.focused_layers.contains(k) implies #[trigger]
            s.layers.contains_key(k) by {
            let i = s.focused_layers.index_of(k);
            assert(s.focused_layers[i] == k);
        }
        assert(filled =~= s.layers);
    }
}

/// How often a namespace is focused after a layer event that a snapshot settles: the named
/// one as often as was settled, if it is configured, and every other no more often than it
/// was and than it is shown.
pub open spec fn settled_count(
    s: StateView,
    namespace: Text,
    target: nat,
    snapshot: Seq<Text>,
    x: Text,
) -> nat {
    if x != namespace {
        least(layers::occurrences(s.focused_layers, x), layers::occurrences(snapshot, x))
    } else if s.layer_rules.lookup(namespace) is Some {
        target
    } else {
        0
    }
}

/// Some first ones of the focus are what a settled event leaves of the first `n`.
pub open spec fn settled_prefix(
    s: StateView,
    namespace: Text,
    target: nat,
    snapshot: Seq<Text>,
    after: Seq<Text>,
    n: int,
    p: int,
) -> bool {
    &&& 0 <= p <= after.len()
    &&& forall|x: Text| #[trigger]
        layers::occurrences(after.take(p), x) == least(
            layers::occurrences(s.focused_layers.take(n), x),
            settled_count(s, namespace, target, snapshot, x),
        )
}

/// A layer event that a snapshot settles: each namespace is focused as often as is settled,
/// what stays keeps its order from the outermost on, and what comes behind it is of the
/// named namespace alone, with all that this entails.
pub proof fn law_layer_event(
    s: StateView,
    namespace: Text,
    target: nat,
    snapshot: Seq<Text>,
    n: int,
)
    requires
        s.valid(),
        0 <= n <= s.focused_layers.len(),
    ensures
        ({
            let (next, actions) = s.event_reconciled(namespace, target, snapshot);
            let focused = next.focused_layers;
            &&& focus_entails(s, next, actions)
            &&& forall|x: Text| #[trigger]
                layers::occurrences(focused, x) == settled_count(
                    s,
                    namespace,
                    target,
                    snapshot,
                    x,
                )
            &&& exists|p: int|
                {
                    &&& #[trigger] settled_prefix(s, namespace, target, snapshot, focused, n, p)
                    &&& n == s.focused_layers.len() ==> forall|i: int|
                        p <= i < focused.len() ==> #[trigger] focused[i] == namespace
                }
        }),
{
    let rules = s.layer_rules;
    let live = layers::event_layers(s.focused_layers, namespace, target, snapshot);
    let mapped = layers::tracked_layers(live, rules);
    let none = Seq::<Text>::empty();
    let focused = layers::reconciled(s.focused_layers, mapped);
    lemma_focus_entails(s, live);
    layers::lemma_tracked_all(s.focused_layers, rules);
    assert forall|x: Text| #[trigger] layers::occurrences(mapped, x) == settled_count(
        s,
        namespace,
        target,
        snapshot,
        x,
    ) by {
        layers::lemma_tracked_configured(live, rules, x);
        layers::lemma_tracked_configured(s.focused_layers, rules, x);
        layers::lemma_event_layers_count(s.focused_layers, namespace, target, snapshot, x);
    }
    assert forall|x: Text| #[trigger] layers::occurrences(focused, x) == settled_count(
        s,
        namespace,
        target,
        snapshot,
        x,
    ) by {
        layers::lemma_reconciled_count(s.focused_layers, mapped, x);
        assert(layers::occurrences(mapped, x) == settled_count(s, namespace, target, snapshot, x));
    }
    let part = layers::fitting(s.focused_layers.take(n), mapped, none);
    layers::lemma_fitting_prefix(s.focused_layers, mapped, none, n);
    let p = part.len() as int;
    assert(focused.take(p) =~= part);
    assert forall|x: Text| #[trigger] layers::occurrences(focused.take(p), x) == least(
        layers::occurrences(s.focused_layers.take(n), x),
        settled_count(s, namespace, target, snapshot, x),
    ) by {
        layers::lemma_fitting_count(s.focused_layers.take(n), mapped, none, x);
        assert(layers::occurrences(mapped, x) == settled_count(s, namespace, target, snapshot, x));
    }
    assert(settled_prefix(s, namespace, target, snapshot, focused, n, p));
    if n == s.focused_layers.len() {
        assert(s.focused_layers.take(n) =~= s.focused_layers);
        let added = layers::fitting(mapped, mapped, part);
        assert(focused == part + added);
        assert forall|i: int| p <= i < focused.len() implies #[trigger] focused[i]
            == namespace by {
            let x = focused[i];
            assert(added[i - p] == x);
            assert(added.contains(x));
            layers::lemma_occurrences_contains(added, x);
            layers::lemma_fitting_count(mapped, mapped, part, x);
            layers::lemma_fitting_count(s.focused_layers, mapped, none, x);
            assert(layers::occurrences(mapped, x) == settled_count(
                s,
                namespace,
                target,
                snapshot,
                x,
            ));
        }
    }
}

/// Reading everything anew: the active window and its class are those that were answered,
/// or none; the focus follows the layers; windows that are gone are forgotten, known ones
/// keep their layout, and an active one that is not known gets the actual layout, or that
/// of its class while a layer is focused. Layers keep their layout too; an innermost one
/// without a layout takes the actual one, the others the configured one. What is owed
/// starts anew, and the state goes over from the actual layout to that of the innermost
/// layer, or else to that of the active window if it was known.
pub proof fn law_everything_read(
    s: StateView,
    active: Option<(u64, Text)>,
    layout: LayoutIndex,
    windows: Seq<u64>,
    live: Seq<Text>,
)
    ensures
        ({
            let (next, actions) = s.resynced(active, layout, windows, live);
            let focused = next.focused_layers;
            let start = StateView {
                active_layout: layout,
                pending_echoes: Map::empty(),
                ..s
            };
            &&& next.active_window == match active {
                Some((addr, _)) => Some(addr),
                None => None,
            }
            &&& next.active_class == match active {
                Some((_, class_name)) => Some(class_name),
                None => None,
            }
            &&& focus_follows(s.layer_rules, s.focused_layers, live, focused)
            &&& forall|a: u64| #[trigger]
                next.windows.contains_key(a) <==> (s.windows.contains_key(a) && windows.contains(
                    a,
                )) || next.active_window == Some(a)
            &&& forall|a: u64| #[trigger]
                next.windows.contains_key(a) ==> next.windows[a] == if s.windows.contains_key(a)
                    && windows.contains(a) {
                    s.windows[a]
                } else if focused.len() > 0 {
                    layout_of_class(s.class_rules, next.active_class.unwrap())
                } else {
                    layout
                }
            &&& forall|x: Text| #[trigger]
                next.layers.contains_key(x) <==> s.layers.contains_key(x) || focused.contains(x)
            &&& forall|x: Text| #[trigger]
                next.layers.contains_key(x) ==> next.layers[x] == if s.layers.contains_key(x) {
                    s.layers[x]
                } else if x == focused[focused.len() - 1] {
                    layout
                } else {
                    s.layer_rules.lookup(x).unwrap()
                }
            &&& next == (StateView {
                active_window: next.active_window,
                active_class: next.active_class,
                focused_layers: focused,
                windows: next.windows,
                layers: next.layers,
                active_layout: next.active_layout,
                pending_echoes: next.pending_echoes,
                ..s
            })
            &&& went_over(
                start,
                next,
                actions,
                if focused.len() > 0 {
                    Some(next.layers[focused[focused.len() - 1]])
                } else if active is Some && s.windows.contains_key(active.unwrap().0)
                    && windows.contains(active.unwrap().0) {
                    Some(s.windows[active.unwrap().0])
                } else {
                    None
                },
            )
        }),
{
    let aligned = s.realigned(layout, windows, live);
    let ready = aligned.with_active(active);
    let target = aligned.restore_target(active);
    let (next, actions) = s.resynced(active, layout, windows, live);
    lemma_went_over(ready, target);
    lemma_focus_follows(s.layer_rules, s.focused_layers, live);
    assert forall|a: u64| #[trigger] windows.contains(a) == windows.to_set().contains(a) by {}
    let focused = aligned.focused_layers;
    if focused.len() > 0 {
        assert(focused[focused.len() - 1] == focused.last());
        assert(focused.contains(focused.last()));
    }
    assert(next.layers == aligned.layers);
    assert forall|a: u64| #[trigger] next.windows.contains_key(a) <==> (s.windows.contains_key(a)
        && windows.contains(a)) || next.active_window == Some(a) by {
        assert(windows.contains(a) == windows.to_set().contains(a));
    }
    assert forall|a: u64| #[trigger] next.windows.contains_key(a) implies next.windows[a]
        == if s.windows.contains_key(a) && windows.contains(a) {
        s.windows[a]
    } else if focused.len() > 0 {
        layout_of_class(s.class_rules, next.active_class.unwrap())
    } else {
        layout
    } by {
        assert(windows.contains(a) == windows.to_set().contains(a));
    }
    if active is Some {
        let addr = active.unwrap().0;
        assert(windows.contains(addr) == windows.to_set().contains(addr));
    }
}

/// Where the answer is that no window is active, there is none after reading everything
/// anew, and a layout that the user chooses next belongs to no window.
pub proof fn law_no_window_answered(
    s: StateView,
    layout: LayoutIndex,
    windows: Seq<u64>,
    live: Seq<Text>,
    keyboard: Text,
    chosen: LayoutIndex,
)
    ensures
        ({
            let next = s.resynced(None, layout, windows, live).0;
            &&& next.active_window is None
            &&& next.active_class is None
            &&& next.active_window_layout() is None
            &&& next.recorded(keyboard, chosen).windows == next.windows
            &&& forall|a: u64| #[trigger]
                next.windows.contains_key(a) ==> s.windows.contains_key(a) && next.windows[a]
                    == s.windows[a]
        }),
{
    law_everything_read(s, None, layout, windows, live);
    let next = s.resynced(None, layout, windows, live).0;
    law_answer(next, keyboard, chosen);
}

/// The layout that is known for the active window is the one that the table of windows has
/// for it.
pub proof fn law_active_window_layout(s: StateView)
    ensures
        match s.active_window_layout() {
            Some(layout) => exists|addr: u64|
                s.active_window == Some(addr) && #[trigger] s.windows.contains_key(addr)
                    && s.windows[addr] == layout,
            None => s.active_window is None || !s.windows.contains_key(s.active_window.unwrap()),
        },
{
}

} // verus!
