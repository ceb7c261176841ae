//! Layer events settled against snapshots of the mapped layers.
//!
//! An event tells that a surface was mapped or unmapped; a snapshot tells what is
//! mapped. They can disagree for a moment, so a snapshot is asked for again until it
//! shows what the event told, or until there were enough of them.

use vstd::prelude::*;

#[allow(unused_imports)]
use crate::effects;
use crate::event::Event;
#[allow(unused_imports)]
use crate::event::EventView;
use crate::layers;
#[allow(unused_imports)]
use crate::model;
#[allow(unused_imports)]
use crate::model::{StateView, Step};
#[allow(unused_imports)]
use crate::state;
use crate::state::{Action, RuntimeState};
use crate::text;
#[allow(unused_imports)]
use crate::text::Text;

verus! {

/// How often a snapshot is asked for again.
pub const LAYER_SNAPSHOT_RETRIES: usize = 9;

/// A layer event that waits for a snapshot.
#[derive(Debug)]
pub struct PendingLayerEvent {
    namespace: String,
    opening: bool,
    current: usize,
    expected: usize,
    retries_left: usize,
}

/// What a waiting event knows.
pub struct PendingView {
    pub namespace: Text,
    pub opening: bool,
    /// How many layers of the namespace were focused before the event.
    pub current: nat,
    /// How many the event makes of them.
    pub expected: nat,
    pub retries_left: nat,
}

impl View for PendingLayerEvent {
    type V = PendingView;

    closed spec fn view(&self) -> PendingView {
        PendingView {
            namespace: self.namespace@,
            opening: self.opening,
            current: self.current as nat,
            expected: self.expected as nat,
            retries_left: self.retries_left as nat,
        }
    }
}

impl PendingView {
    /// The event itself.
    pub open spec fn event(self) -> EventView {
        if self.opening {
            EventView::OpenLayer { namespace: self.namespace }
        } else {
            EventView::CloseLayer { namespace: self.namespace }
        }
    }

    /// The snapshot shows what the event told.
    pub open spec fn settled_by(self, snapshot: Seq<Text>) -> bool {
        if self.opening {
            layers::occurrences(snapshot, self.namespace) >= self.expected
        } else {
            layers::occurrences(snapshot, self.namespace) <= self.expected
        }
    }

    /// How many layers of the namespace to go by. A repeated open that no snapshot
    /// shows was counted before.
    pub open spec fn target(self, settled: bool) -> nat {
        if !settled && self.opening && self.current > 0 {
            self.current
        } else {
            self.expected
        }
    }

    /// The next snapshot decides: it settles the event, or there is none after it.
    pub open spec fn decided_by(self, snapshot: Seq<Text>) -> bool {
        self.settled_by(snapshot) || self.retries_left == 0
    }

    /// What a reply does that decides: without a snapshot the event alone counts.
    pub open spec fn decided(self, s: StateView, reply: Option<Seq<Text>>) -> Step {
        match reply {
            Some(snapshot) => s.event_reconciled(
                self.namespace,
                self.target(self.settled_by(snapshot)),
                snapshot,
            ),
            None => s.handled(self.event()),
        }
    }

    /// The event after a snapshot that did not decide.
    pub open spec fn retried(self) -> PendingView {
        PendingView { retries_left: (self.retries_left - 1) as nat, ..self }
    }
}

/// The event that waits for a snapshot, where one can matter: an open or close of a
/// configured namespace, or of any while a layer is focused.
pub open spec fn waiting(s: StateView, event: EventView) -> Option<PendingView> {
    match event {
        EventView::OpenLayer { namespace } => if s.focused_layers.len() > 0
            || s.layer_rules.lookup(namespace) is Some {
            let current = layers::occurrences(s.focused_layers, namespace);
            Some(
                PendingView {
                    namespace,
                    opening: true,
                    current,
                    expected: if current < usize::MAX {
                        current + 1
                    } else {
                        current
                    },
                    retries_left: LAYER_SNAPSHOT_RETRIES as nat,
                },
            )
        } else {
            None
        },
        EventView::CloseLayer { namespace } => if s.focused_layers.len() > 0
            || s.layer_rules.lookup(namespace) is Some {
            let current = layers::occurrences(s.focused_layers, namespace);
            Some(
                PendingView {
                    namespace,
                    opening: false,
                    current,
                    expected: if current > 0 {
                        (current - 1) as nat
                    } else {
                        0
                    },
                    retries_left: LAYER_SNAPSHOT_RETRIES as nat,
                },
            )
        } else {
            None
        },
        _ => None,
    }
}

/// What to do next with an event.
#[derive(Debug)]
pub enum LayerStep {
    /// Nothing more; ask these of Hyprland.
    Done(Vec<Action>),
    /// Ask for a snapshot and hand it in.
    Query(PendingLayerEvent),
    /// Wait a little, ask for a snapshot and hand it in.
    Retry(PendingLayerEvent),
    /// A count of owed echoes would grow too large.
    TooManyEchoes,
}

/// A step is taken, or refused where it does not fit.
pub open spec fn step_taken(
    result: LayerStep,
    before: StateView,
    after: StateView,
    step: Step,
) -> bool {
    if model::step_fits(step) {
        result matches LayerStep::Done(actions) && after == step.0 && state::asked(actions@)
            == step.1
    } else {
        result is TooManyEchoes && after == before
    }
}

/// Takes in an event. One that a snapshot can settle waits for it; the state then
/// stays as it is until the snapshot is there.
pub fn handle_event_with_layer_snapshot(state: &mut RuntimeState, event: Event<'_>) -> (step:
    LayerStep)
    requires
        old(state).wf(),
    ensures
        final(state).wf(),
        match waiting(old(state)@, event@) {
            Some(pending) => {
                &&& step matches LayerStep::Query(p) && p@ == pending
                &&& final(state)@ == old(state)@
            },
            None => step_taken(step, old(state)@, final(state)@, old(state)@.handled(event@)),
        },
{
    let (namespace, opening) = match &event {
        Event::OpenLayer { namespace } => (*namespace, true),
        Event::CloseLayer { namespace } => (*namespace, false),
        _ => {
            return finished(state.try_handle_event(event));
        },
    };
    if !state.should_reconcile_layer_event(namespace) {
        return finished(state.try_handle_event(event));
    }
    let current: usize = state.focused_layer_count(namespace);
    let expected: usize = if opening {
        if current < usize::MAX {
            current + 1
        } else {
            current
        }
    } else {
        if current > 0 {
            current - 1
        } else {
            0
        }
    };
    LayerStep::Query(
        PendingLayerEvent {
            namespace: namespace.to_owned(),
            opening,
            current,
            expected,
            retries_left: LAYER_SNAPSHOT_RETRIES,
        },
    )
}

/// The last step of an event.
fn finished(actions: Option<Vec<Action>>) -> (step: LayerStep)
    ensures
        actions matches Some(a) ==> step == LayerStep::Done(a),
        actions is None ==> step is TooManyEchoes,
{
    match actions {
        Some(actions) => LayerStep::Done(actions),
        None => LayerStep::TooManyEchoes,
    }
}

/// The texts of a snapshot, where there is one.
pub open spec fn reply_view(reply: Option<Vec<String>>) -> Option<Seq<Text>> {
    match reply {
        Some(snapshot) => Some(text::texts(snapshot@)),
        None => None,
    }
}

impl PendingLayerEvent {
    /// Hands in a snapshot, or that there was none to be had.
    pub fn observe(self, state: &mut RuntimeState, reply: Option<Vec<String>>) -> (step: LayerStep)
        requires
            old(state).wf(),
        ensures
            final(state).wf(),
            reply_view(reply) is None || self@.decided_by(reply_view(reply).unwrap())
                ==> step_taken(
                step,
                old(state)@,
                final(state)@,
                self@.decided(old(state)@, reply_view(reply)),
            ),
            reply_view(reply) is Some && !self@.decided_by(reply_view(reply).unwrap()) ==> {
                &&& step matches LayerStep::Retry(p) && p@ == self@.retried()
                &&& final(state)@ == old(state)@
            },
    {
        let latest = match reply {
            Some(latest) => latest,
            None => {
                let event = if self.opening {
                    Event::OpenLayer { namespace: self.namespace.as_str() }
                } else {
                    Event::CloseLayer { namespace: self.namespace.as_str() }
                };
                return finished(state.try_handle_event(event));
            },
        };
        let observed: usize = layers::count_layer(latest.as_slice(), self.namespace.as_str());
        let settled = if self.opening {
            observed >= self.expected
        } else {
            observed <= self.expected
        };
        if !settled && self.retries_left > 0 {
            return LayerStep::Retry(
                PendingLayerEvent { retries_left: self.retries_left - 1, ..self },
            );
        }
        let target_count: usize = if !settled && self.opening && self.current > 0 {
            self.current
        } else {
            self.expected
        };
        finished(
            state.try_reconcile_layer_event(
                self.namespace.as_str(),
                target_count,
                latest.as_slice(),
            ),
        )
    }
}

impl PendingView {
    /// What a series of replies makes of the event: the first one that decides counts.
    /// `None` as long as none did.
    pub open spec fn played(self, s: StateView, replies: Seq<Option<Seq<Text>>>) -> Option<Step>
        decreases replies.len(),
    {
        if replies.len() == 0 {
            None
        } else if replies[0] is None || self.decided_by(replies[0].unwrap()) {
            Some(self.decided(s, replies[0]))
        } else {
            self.retried().played(s, replies.drop_first())
        }
    }
}

/// An event is decided once there were as many replies as it has retries left, and one
/// more.
pub proof fn law_retries_suffice(
    pending: PendingView,
    s: StateView,
    replies: Seq<Option<Seq<Text>>>,
)
    requires
        replies.len() > pending.retries_left,
    ensures
        pending.played(s, replies) is Some,
    decreases replies.len(),
{
    if !(replies[0] is None || pending.decided_by(replies[0].unwrap())) {
        law_retries_suffice(pending.retried(), s, replies.drop_first());
    }
}

/// Whatever the replies are, an event that is decided does what it does on its own, or
/// what it does with the last snapshot: an open of one more layer, or of none more where
/// the last snapshot does not show it and there was one before; a close of one.
pub proof fn law_event_decided(
    pending: PendingView,
    s: StateView,
    replies: Seq<Option<Seq<Text>>>,
)
    requires
        pending.played(s, replies) is Some,
    ensures
        ({
            let step = pending.played(s, replies).unwrap();
            ||| step == s.handled(pending.event())
            ||| exists|i: int|
                0 <= i < replies.len() && #[trigger] replies[i] is Some && step
                    == s.event_reconciled(
                    pending.namespace,
                    pending.target(pending.settled_by(replies[i].unwrap())),
                    replies[i].unwrap(),
                )
        }),
    decreases replies.len(),
{
    if replies[0] is None || pending.decided_by(replies[0].unwrap()) {
        if replies[0] is Some {
            assert(replies[0] is Some);
        }
    } else {
        let rest = replies.drop_first();
        law_event_decided(pending.retried(), s, rest);
        let step = pending.played(s, replies).unwrap();
        if step != s.handled(pending.event()) {
            let i = choose|i: int|
                0 <= i < rest.len() && #[trigger] rest[i] is Some && step == s.event_reconciled(
                    pending.namespace,
                    pending.target(pending.settled_by(rest[i].unwrap())),
                    rest[i].unwrap(),
                );
            assert(replies[i + 1] == rest[i]);
        }
    }
}

/// The event that a layer of the namespace opens or closes.
pub open spec fn layer_event(namespace: Text, opening: bool) -> EventView {
    if opening {
        EventView::OpenLayer { namespace }
    } else {
        EventView::CloseLayer { namespace }
    }
}

/// A snapshot shows what the event told of a namespace that had `n` focused layers: more of
/// it than that after an open, fewer or none after a close.
pub open spec fn bears_out(snapshot: Seq<Text>, namespace: Text, opening: bool, n: nat) -> bool {
    if opening {
        layers::occurrences(snapshot, namespace) > n
    } else {
        layers::occurrences(snapshot, namespace) < n || layers::occurrences(snapshot, namespace)
            == 0
    }
}

/// An event waits for a snapshot just where it is that of a layer and some layer is focused
/// or its namespace is configured.
pub proof fn law_what_waits(s: StateView, event: EventView)
    ensures
        waiting(s, event) is Some <==> match event {
            EventView::OpenLayer { namespace } | EventView::CloseLayer { namespace } => {
                s.focused_layers.len() > 0 || s.layer_rules.lookup(namespace) is Some
            },
            _ => false,
        },
{
}

/// The first reply that decides counts, whatever comes after it.
proof fn lemma_played(
    pending: PendingView,
    s: StateView,
    replies: Seq<Option<Seq<Text>>>,
    k: int,
)
    requires
        0 <= k < replies.len(),
        k <= pending.retries_left,
        forall|i: int|
            0 <= i < k ==> (#[trigger] replies[i]) is Some && !pending.settled_by(
                replies[i].unwrap(),
            ),
        replies[k] is None || pending.settled_by(replies[k].unwrap()) || k
            == pending.retries_left,
    ensures
        pending.played(s, replies) == Some(pending.decided(s, replies[k])),
    decreases k,
{
    if k > 0 {
        assert(replies[0] is Some && !pending.settled_by(replies[0].unwrap()));
        let rest = replies.drop_first();
        let next = pending.retried();
        assert forall|i: int| 0 <= i < k - 1 implies (#[trigger] rest[i]) is Some
            && !next.settled_by(rest[i].unwrap()) by {
            assert(rest[i] == replies[i + 1]);
        }
        assert(rest[k - 1] == replies[k]);
        lemma_played(next, s, rest, k - 1);
    }
}

/// A layer event goes by the first reply that fails, that bears the event out, or that is
/// the tenth. Where there is no snapshot, the event does what it does on
/// its own. Else an open of a namespace with `n` focused layers leaves `n + 1` of them; it
/// leaves `n` where the snapshot does not bear it out and `n` is not 0. A close leaves
/// `n - 1`, and none of none. The other layers are as many as stay of them in the
/// snapshot, and the layout follows the focus.
pub proof fn law_replies_decide(
    s: StateView,
    namespace: Text,
    opening: bool,
    replies: Seq<Option<Seq<Text>>>,
    k: int,
)
    requires
        s.valid(),
        s.focused_layers.len() > 0 || s.layer_rules.lookup(namespace) is Some,
        layers::occurrences(s.focused_layers, namespace) < usize::MAX,
        0 <= k < replies.len(),
        k <= 9,
        forall|i: int|
            0 <= i < k ==> (#[trigger] replies[i]) is Some && !bears_out(
                replies[i].unwrap(),
                namespace,
                opening,
                layers::occurrences(s.focused_layers, namespace),
            ),
        replies[k] is None || k == 9 || bears_out(
            replies[k].unwrap(),
            namespace,
            opening,
            layers::occurrences(s.focused_layers, namespace),
        ),
    ensures
        ({
            let n = layers::occurrences(s.focused_layers, namespace);
            let pending = waiting(s, layer_event(namespace, opening));
            let result = pending.unwrap().played(s, replies);
            let (next, actions) = result.unwrap();
            &&& pending is Some
            &&& result is Some
            &&& replies[k] is None ==> result.unwrap() == s.handled(
                layer_event(namespace, opening),
            )
            &&& replies[k] is Some ==> {
                let snapshot = replies[k].unwrap();
                let left = if opening && (n == 0 || bears_out(snapshot, namespace, opening, n)) {
                    n + 1
                } else if opening {
                    n
                } else if n > 0 {
                    (n - 1) as nat
                } else {
                    0
                };
                &&& forall|x: Text| #[trigger]
                    layers::occurrences(next.focused_layers, x) == effects::settled_count(
                        s,
                        namespace,
                        left,
                        snapshot,
                        x,
                    )
                &&& effects::focus_entails(s, next, actions)
            }
        }),
{
    let n = layers::occurrences(s.focused_layers, namespace);
    let pending = waiting(s, layer_event(namespace, opening)).unwrap();
    assert forall|i: int| 0 <= i < k implies (#[trigger] replies[i]) is Some
        && !pending.settled_by(replies[i].unwrap()) by {
        assert(!bears_out(replies[i].unwrap(), namespace, opening, n));
    }
    lemma_played(pending, s, replies, k);
    if replies[k] is Some {
        let snapshot = replies[k].unwrap();
        effects::law_layer_event(
            s,
            namespace,
            pending.target(pending.settled_by(snapshot)),
            snapshot,
            0,
        );
    }
}

/// As long as every reply is a snapshot that does not bear the event out, and there were
/// no more than nine of them, nothing is decided.
pub proof fn law_undecided(
    s: StateView,
    namespace: Text,
    opening: bool,
    replies: Seq<Option<Seq<Text>>>,
)
    requires
        s.focused_layers.len() > 0 || s.layer_rules.lookup(namespace) is Some,
        layers::occurrences(s.focused_layers, namespace) < usize::MAX,
        replies.len() <= 9,
        forall|i: int|
            0 <= i < replies.len() ==> (#[trigger] replies[i]) is Some && !bears_out(
                replies[i].unwrap(),
                namespace,
                opening,
                layers::occurrences(s.focused_layers, namespace),
            ),
    ensures
        waiting(s, layer_event(namespace, opening)).unwrap().played(s, replies) is None,
{
    let n = layers::occurrences(s.focused_layers, namespace);
    let pending = waiting(s, layer_event(namespace, opening)).unwrap();
    assert forall|i: int| 0 <= i < replies.len() implies (#[trigger] replies[i]) is Some
        && !pending.settled_by(replies[i].unwrap()) by {
        assert(!bears_out(replies[i].unwrap(), namespace, opening, n));
    }
    lemma_undecided(pending, s, replies);
}

proof fn lemma_undecided(pending: PendingView, s: StateView, replies: Seq<Option<Seq<Text>>>)
    requires
        replies.len() <= pending.retries_left,
        forall|i: int|
            0 <= i < replies.len() ==> (#[trigger] replies[i]) is Some && !pending.settled_by(
                replies[i].unwrap(),
            ),
    ensures
        pending.played(s, replies) is None,
    decreases replies.len(),
{
    if replies.len() > 0 {
        let rest = replies.drop_first();
        let next = pending.retried();
        assert(replies[0] is Some && !pending.settled_by(replies[0].unwrap()));
        assert forall|i: int| 0 <= i < rest.len() implies (#[trigger] rest[i]) is Some
            && !next.settled_by(rest[i].unwrap()) by {
            assert(rest[i] == replies[i + 1]);
        }
        lemma_undecided(next, s, rest);
    }
}

/// A snapshot that shows one more layer than the `n` that were focused settles an open at
/// `n + 1`, for every `n`, and one that shows one fewer settles a close at `n - 1`: opening
/// and closing a second surface of a configured namespace gives back the first.
pub proof fn law_second_surface(
    s: StateView,
    namespace: Text,
    opened: Seq<Text>,
    closed: Seq<Text>,
)
    requires
        s.valid(),
        s.layer_rules.lookup(namespace) is Some,
        layers::occurrences(s.focused_layers, namespace) < usize::MAX - 1,
        layers::occurrences(opened, namespace) > layers::occurrences(
            s.focused_layers,
            namespace,
        ),
        layers::occurrences(closed, namespace) <= layers::occurrences(
            s.focused_layers,
            namespace,
        ),
    ensures
        ({
            let n = layers::occurrences(s.focused_layers, namespace);
            let open = waiting(s, EventView::OpenLayer { namespace }).unwrap();
            let step = open.played(s, seq![Some(opened)]).unwrap();
            let close = waiting(step.0, EventView::CloseLayer { namespace }).unwrap();
            let back = close.played(step.0, seq![Some(closed)]).unwrap();
            &&& layers::occurrences(step.0.focused_layers, namespace) == n + 1
            &&& model::step_fits(step) ==> layers::occurrences(
                back.0.focused_layers,
                namespace,
            ) == n
        }),
{
    let n = layers::occurrences(s.focused_layers, namespace);
    let open = waiting(s, EventView::OpenLayer { namespace }).unwrap();
    let first = seq![Some(opened)];
    law_replies_decide(s, namespace, true, first, 0);
    let step = open.played(s, first).unwrap();
    assert(layers::occurrences(step.0.focused_layers, namespace) == effects::settled_count(
        s,
        namespace,
        n + 1,
        opened,
        namespace,
    ));
    if model::step_fits(step) {
        let input = crate::laws::Input::LayerEvent { namespace, target: n + 1, snapshot: opened };
        assert(step == crate::laws::taken(s, input));
        crate::laws::law_valid_kept(s, input);
        law_replies_decide(step.0, namespace, false, seq![Some(closed)], 0);
        let close = waiting(step.0, EventView::CloseLayer { namespace }).unwrap();
        let back = close.played(step.0, seq![Some(closed)]).unwrap();
        assert(layers::occurrences(back.0.focused_layers, namespace) == effects::settled_count(
            step.0,
            namespace,
            n,
            closed,
            namespace,
        ));
    }
}

/// A step that fits is taken: the state is the one after it and what it asks is handed on.
/// One that does not fit leaves the state as it was.
pub proof fn law_step_taken(
    result: LayerStep,
    before: StateView,
    after: StateView,
    step: Step,
)
    requires
        step_taken(result, before, after, step),
    ensures
        model::step_fits(step) ==> after == step.0 && (result matches LayerStep::Done(actions)
            && state::asked(actions@) == step.1),
        !model::step_fits(step) ==> after == before && result is TooManyEchoes,
{
}

/// A snapshot that was handed in is viewed by its texts, and none is none.
pub proof fn law_reply_view(reply: Vec<String>)
    ensures
        reply_view(Some(reply)) == Some(text::texts(reply@)),
        reply_view(None) is None,
{
}

} // verus!
