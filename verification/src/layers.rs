//! Which layer surfaces hold the keyboard, and in what order.

use vstd::prelude::*;

use crate::rules::LayoutRules;
#[allow(unused_imports)]
use crate::rules::RulesView;
use crate::string_map::StringMap;
use crate::text;
#[allow(unused_imports)]
use crate::text::Text;

verus! {

/// How often `x` stands in the list.
pub open spec fn occurrences(list: Seq<Text>, x: Text) -> nat
    decreases list.len(),
{
    if list.len() == 0 {
        0
    } else {
        occurrences(list.drop_last(), x) + if list.last() == x { 1nat } else { 0nat }
    }
}

/// The namespaces of a snapshot that are configured, in their order.
pub open spec fn tracked_layers(live: Seq<Text>, rules: RulesView) -> Seq<Text>
    decreases live.len(),
{
    if live.len() == 0 {
        Seq::empty()
    } else {
        let before = tracked_layers(live.drop_last(), rules);
        if rules.lookup(live.last()) is Some {
            before.push(live.last())
        } else {
            before
        }
    }
}

/// Of each namespace the first ones of the list, as many as `supply` holds
/// beyond those in `used`.
pub open spec fn fitting(list: Seq<Text>, supply: Seq<Text>, used: Seq<Text>) -> Seq<Text>
    decreases list.len(),
{
    if list.len() == 0 {
        Seq::empty()
    } else {
        let before = fitting(list.drop_last(), supply, used);
        let x = list.last();
        if occurrences(list.drop_last(), x) < occurrences(supply, x) - occurrences(used, x) {
            before.push(x)
        } else {
            before
        }
    }
}

/// The focused layers after a snapshot: those that are still mapped keep their
/// order, and the new ones come after them.
pub open spec fn reconciled(focused: Seq<Text>, mapped: Seq<Text>) -> Seq<Text> {
    let kept = fitting(focused, mapped, Seq::empty());
    kept + fitting(mapped, mapped, kept)
}

/// The list without the last `x` in it.
pub open spec fn without_last(list: Seq<Text>, x: Text) -> Seq<Text>
    decreases list.len(),
{
    if list.len() == 0 {
        list
    } else if list.last() == x {
        list.drop_last()
    } else {
        without_last(list.drop_last(), x).push(list.last())
    }
}

/// Of `focused` the ones that stay: of the named namespace no more than `target`,
/// of every other no more than the snapshot holds.
pub open spec fn staying(
    focused: Seq<Text>,
    namespace: Text,
    target: nat,
    snapshot: Seq<Text>,
) -> Seq<Text>
    decreases focused.len(),
{
    if focused.len() == 0 {
        Seq::empty()
    } else {
        let before = staying(focused.drop_last(), namespace, target, snapshot);
        let x = focused.last();
        let limit = if x == namespace { target } else { occurrences(snapshot, x) };
        if occurrences(focused.drop_last(), x) < limit {
            before.push(x)
        } else {
            before
        }
    }
}

/// The layers that an event leaves: what stays, and the named namespace as often
/// as it takes to reach `target`. Nothing else of the snapshot is taken up.
pub open spec fn event_layers(
    focused: Seq<Text>,
    namespace: Text,
    target: nat,
    snapshot: Seq<Text>,
) -> Seq<Text> {
    let stay = staying(focused, namespace, target, snapshot);
    stay + Seq::new((target - occurrences(stay, namespace)) as nat, |i: int| namespace)
}

/// Adding one element adds one occurrence of it.
pub proof fn lemma_occurrences_push(list: Seq<Text>, x: Text, y: Text)
    ensures
        occurrences(list.push(x), y) == occurrences(list, y) + if x == y { 1nat } else { 0nat },
{
    assert(list.push(x).drop_last() =~= list);
}

/// The occurrences in two lists add up.
pub proof fn lemma_occurrences_concat(a: Seq<Text>, b: Seq<Text>, x: Text)
    ensures
        occurrences(a + b, x) == occurrences(a, x) + occurrences(b, x),
    decreases b.len(),
{
    if b.len() == 0 {
        assert(a + b =~= a);
    } else {
        lemma_occurrences_concat(a, b.drop_last(), x);
        assert((a + b).drop_last() =~= a + b.drop_last());
    }
}

/// An element occurs in a list just where the list contains it, and never more
/// often than the list is long.
pub proof fn lemma_occurrences_contains(list: Seq<Text>, x: Text)
    ensures
        occurrences(list, x) > 0 <==> list.contains(x),
        occurrences(list, x) <= list.len(),
    decreases list.len(),
{
    if list.len() > 0 {
        lemma_occurrences_contains(list.drop_last(), x);
        if list.contains(x) && list.last() != x {
            let i = list.index_of(x);
            assert(list.drop_last()[i] == x);
        }
        if list.drop_last().contains(x) {
            let i = list.drop_last().index_of(x);
            assert(list[i] == x);
        }
        if list.last() == x {
            assert(list[list.len() - 1] == x);
        }
    }
}

/// A list without duplicates holds nothing twice.
pub proof fn lemma_occurrences_once(list: Seq<Text>, x: Text)
    requires
        list.no_duplicates(),
    ensures
        occurrences(list, x) <= 1,
    decreases list.len(),
{
    if list.len() > 0 {
        let before = list.drop_last();
        lemma_occurrences_once(before, x);
        lemma_occurrences_contains(before, x);
        if before.contains(x) {
            let i = before.index_of(x);
            assert(list[i] == x);
            assert(list[list.len() - 1] == list.last());
        }
    }
}

/// A prefix holds no more of an element than the list.
pub proof fn lemma_occurrences_prefix(list: Seq<Text>, i: int, x: Text)
    requires
        0 <= i <= list.len(),
    ensures
        occurrences(list.take(i), x) <= occurrences(list, x),
{
    lemma_occurrences_concat(list.take(i), list.skip(i), x);
    assert(list.take(i) + list.skip(i) =~= list);
}

/// `fitting` keeps of each element as many as there are, up to what is left.
pub proof fn lemma_fitting_count(list: Seq<Text>, supply: Seq<Text>, used: Seq<Text>, x: Text)
    ensures
        occurrences(fitting(list, supply, used), x) == ({
            let room = occurrences(supply, x) - occurrences(used, x);
            if room <= 0 {
                0
            } else if occurrences(list, x) <= room {
                occurrences(list, x) as int
            } else {
                room
            }
        }),
    decreases list.len(),
{
    if list.len() > 0 {
        let before = list.drop_last();
        lemma_fitting_count(before, supply, used, x);
        lemma_occurrences_push(fitting(before, supply, used), list.last(), x);
    }
}

/// A reconciled list holds each namespace exactly as often as the snapshot.
pub proof fn lemma_reconciled_count(focused: Seq<Text>, mapped: Seq<Text>, x: Text)
    ensures
        occurrences(reconciled(focused, mapped), x) == occurrences(mapped, x),
{
    let kept = fitting(focused, mapped, Seq::empty());
    lemma_fitting_count(focused, mapped, Seq::empty(), x);
    lemma_fitting_count(mapped, mapped, kept, x);
    lemma_occurrences_concat(kept, fitting(mapped, mapped, kept), x);
}

/// Of a snapshot just the configured namespaces are taken, as often as it shows them.
pub proof fn lemma_tracked_configured(live: Seq<Text>, rules: RulesView, x: Text)
    ensures
        tracked_layers(live, rules).contains(x) ==> rules.lookup(x) is Some,
        occurrences(tracked_layers(live, rules), x) == if rules.lookup(x) is Some {
            occurrences(live, x)
        } else {
            0
        },
    decreases live.len(),
{
    if live.len() > 0 {
        lemma_tracked_configured(live.drop_last(), rules, x);
        lemma_occurrences_push(
            tracked_layers(live.drop_last(), rules),
            live.last(),
            x,
        );
    }
    lemma_occurrences_contains(tracked_layers(live, rules), x);
}

/// Every focused namespace is configured, if it came out of a snapshot.
pub proof fn lemma_reconciled_configured(
    focused: Seq<Text>,
    live: Seq<Text>,
    rules: RulesView,
    x: Text,
)
    ensures
        reconciled(focused, tracked_layers(live, rules)).contains(x) ==> rules.lookup(x) is Some,
{
    let mapped = tracked_layers(live, rules);
    lemma_reconciled_count(focused, mapped, x);
    lemma_occurrences_contains(reconciled(focused, mapped), x);
    lemma_occurrences_contains(mapped, x);
    lemma_tracked_configured(live, rules, x);
}

/// How often the namespace stands in the list.
pub fn count_layer(list: &[String], namespace: &str) -> (n: usize)
    ensures
        n == occurrences(text::texts(list@), namespace@),
{
    let mut n: usize = 0;
    let mut i: usize = 0;
    while i < list.len()
        invariant
            i <= list.len(),
            n <= i,
            n == occurrences(text::texts(list@).take(i as int), namespace@),
        decreases list.len() - i,
    {
        proof {
            assert(text::texts(list@).take(i + 1).drop_last() =~= text::texts(list@).take(i as int));
        }
        if text::same_text(list[i].as_str(), namespace) {
            n += 1;
        }
        i += 1;
    }
    assert(text::texts(list@).take(i as int) =~= text::texts(list@));
    n
}

/// The configured namespaces of a snapshot.
pub fn track_layers(live: &[String], rules: &LayoutRules) -> (mapped: Vec<String>)
    ensures
        text::texts(mapped@) == tracked_layers(text::texts(live@), rules@),
{
    let mut mapped: Vec<String> = Vec::new();
    let mut i: usize = 0;
    while i < live.len()
        invariant
            i <= live.len(),
            text::texts(mapped@) =~= tracked_layers(text::texts(live@).take(i as int), rules@),
        decreases live.len() - i,
    {
        proof {
            assert(text::texts(live@).take(i + 1).drop_last() =~= text::texts(live@).take(i as int));
            text::lemma_texts_push(mapped@, live@[i as int]);
        }
        if rules.lookup(live[i].as_str()).is_some() {
            mapped.push(live[i].clone());
        }
        i += 1;
    }
    assert(text::texts(live@).take(i as int) =~= text::texts(live@));
    mapped
}

/// How many of a namespace are left in a table of counts.
spec fn left(counts: Map<Text, usize>, x: Text) -> int {
    if counts.contains_key(x) {
        counts[x] as int
    } else {
        0
    }
}

/// Counts the namespaces of a list.
fn count_layers(list: &[String]) -> (counts: StringMap<usize>)
    ensures
        forall|x: Text| left(counts@, x) == #[trigger] occurrences(text::texts(list@), x),
{
    let mut counts: StringMap<usize> = StringMap::new();
    let mut i: usize = 0;
    while i < list.len()
        invariant
            i <= list.len(),
            forall|x: Text|
                left(counts@, x) == #[trigger] occurrences(text::texts(list@).take(i as int), x),
            forall|x: Text| #[trigger] left(counts@, x) <= i,
        decreases list.len() - i,
    {
        let ghost before = counts@;
        let ghost y = list@[i as int]@;
        assert(left(before, y) <= i);
        let n: usize = match counts.get(list[i].as_str()) {
            Some(n) => n,
            None => 0,
        };
        counts.insert(list[i].clone(), n + 1);
        proof {
            let done = text::texts(list@).take(i as int);
            assert(text::texts(list@).take(i + 1) =~= done.push(y));
            assert forall|x: Text|
                left(counts@, x) == #[trigger] occurrences(text::texts(list@).take(i + 1), x) by {
                lemma_occurrences_push(done, y, x);
                assert(left(before, x) == occurrences(done, x));
            }
            assert forall|x: Text| #[trigger] left(counts@, x) <= i + 1 by {
                assert(left(before, x) <= i);
            }
        }
        i += 1;
    }
    assert(text::texts(list@).take(i as int) =~= text::texts(list@));
    counts
}

/// Re-aligns the focused layers with the mapped ones of a snapshot.
pub fn reconcile(focused: &[String], mapped: &[String]) -> (result: Vec<String>)
    ensures
        text::texts(result@) == reconciled(text::texts(focused@), text::texts(mapped@)),
{
    let ghost f = text::texts(focused@);
    let ghost t = text::texts(mapped@);
    let ghost none = Seq::<Text>::empty();
    let mut counts = count_layers(mapped);
    let mut result: Vec<String> = Vec::new();
    let mut i: usize = 0;
    while i < focused.len()
        invariant
            i <= focused.len(),
            f == text::texts(focused@),
            none == Seq::<Text>::empty(),
            text::texts(result@) =~= fitting(f.take(i as int), t, none),
            forall|x: Text|
                left(counts@, x) + #[trigger] occurrences(fitting(f.take(i as int), t, none), x)
                    == occurrences(t, x),
        decreases focused.len() - i,
    {
        let ghost before = counts@;
        let ghost y = focused@[i as int]@;
        let ghost done = f.take(i as int);
        proof {
            assert(f.take(i + 1).drop_last() =~= done);
            assert(f.take(i + 1).last() == y);
            lemma_fitting_count(done, t, none, y);
            assert(left(before, y) + occurrences(fitting(done, t, none), y) == occurrences(t, y));
            text::lemma_texts_push(result@, focused@[i as int]);
        }
        if let Some(n) = counts.get(focused[i].as_str()) {
            if n > 0 {
                result.push(focused[i].clone());
                counts.insert(focused[i].clone(), n - 1);
            }
        }
        proof {
            assert forall|x: Text|
                left(counts@, x) + #[trigger] occurrences(fitting(f.take(i + 1), t, none), x)
                    == occurrences(t, x) by {
                lemma_occurrences_push(fitting(done, t, none), y, x);
                assert(left(before, x) + occurrences(fitting(done, t, none), x) == occurrences(
                    t,
                    x,
                ));
            }
        }
        i += 1;
    }
    let ghost kept = fitting(f, t, none);
    proof {
        assert(f.take(i as int) =~= f);
    }
    let mut j: usize = 0;
    while j < mapped.len()
        invariant
            j <= mapped.len(),
            t == text::texts(mapped@),
            kept == fitting(f, t, none),
            text::texts(result@) =~= kept + fitting(t.take(j as int), t, kept),
            forall|x: Text|
                left(counts@, x) + occurrences(kept, x) + #[trigger] occurrences(
                    fitting(t.take(j as int), t, kept),
                    x,
                ) == occurrences(t, x),
        decreases mapped.len() - j,
    {
        let ghost before = counts@;
        let ghost y = mapped@[j as int]@;
        let ghost done = t.take(j as int);
        proof {
            assert(t.take(j + 1).drop_last() =~= done);
            assert(t.take(j + 1).last() == y);
            lemma_fitting_count(done, t, kept, y);
            assert(left(before, y) + occurrences(kept, y) + occurrences(fitting(done, t, kept), y)
                == occurrences(t, y));
            text::lemma_texts_push(result@, mapped@[j as int]);
        }
        if let Some(n) = counts.get(mapped[j].as_str()) {
            if n > 0 {
                result.push(mapped[j].clone());
                counts.insert(mapped[j].clone(), n - 1);
            }
        }
        proof {
            assert forall|x: Text|
                left(counts@, x) + occurrences(kept, x) + #[trigger] occurrences(
                    fitting(t.take(j + 1), t, kept),
                    x,
                ) == occurrences(t, x) by {
                lemma_occurrences_push(fitting(done, t, kept), y, x);
                assert(left(before, x) + occurrences(kept, x) + occurrences(
                    fitting(done, t, kept),
                    x,
                ) == occurrences(t, x));
            }
        }
        j += 1;
    }
    proof {
        assert(t.take(j as int) =~= t);
    }
    result
}

/// The list without the last layer of the namespace.
pub fn close_one(list: &[String], namespace: &str) -> (rest: Vec<String>)
    ensures
        text::texts(rest@) == without_last(text::texts(list@), namespace@),
{
    let ghost all = text::texts(list@);
    let mut i: usize = list.len();
    proof {
        assert(all.take(i as int) =~= all);
        assert(without_last(all, namespace@) =~= without_last(all, namespace@) + all.skip(i as int));
    }
    while i > 0
        invariant
            i <= list.len(),
            all == text::texts(list@),
            without_last(all, namespace@) == without_last(all.take(i as int), namespace@)
                + all.skip(i as int),
        decreases i,
    {
        let ghost head = all.take(i as int);
        proof {
            assert(head.drop_last() =~= all.take(i - 1));
            assert(head.last() == list@[i - 1]@);
        }
        if text::same_text(list[i - 1].as_str(), namespace) {
            let mut rest = text::copy_list(list);
            proof {
                assert(without_last(head, namespace@) == all.take(i - 1));
                assert(without_last(all, namespace@) =~= all.take(i - 1) + all.skip(i as int));
                assert(text::texts(rest@).len() == rest@.len());
                assert(all.len() == list@.len());
            }
            let ghost before = rest@;
            let _ = rest.remove(i - 1);
            proof {
                assert forall|j: int| 0 <= j < rest@.len() implies #[trigger] text::texts(rest@)[j]
                    == without_last(all, namespace@)[j] by {
                    let k = if j < i - 1 { j } else { j + 1 };
                    assert(rest@[j] == before[k]);
                    assert(text::texts(before)[k] == all[k]);
                }
                assert(text::texts(rest@) =~= without_last(all, namespace@));
            }
            return rest;
        }
        proof {
            assert(without_last(head, namespace@) == without_last(
                all.take(i - 1),
                namespace@,
            ).push(head.last()));
            assert(without_last(all, namespace@) =~= without_last(all.take(i - 1), namespace@)
                + all.skip(i - 1));
        }
        i -= 1;
    }
    proof {
        assert(all.take(0) =~= Seq::<Text>::empty());
        assert(without_last(all, namespace@) =~= all);
    }
    text::copy_list(list)
}

/// `staying` keeps of each namespace as many as there are, up to its limit.
pub proof fn lemma_staying_count(
    focused: Seq<Text>,
    namespace: Text,
    target: nat,
    snapshot: Seq<Text>,
    x: Text,
)
    ensures
        occurrences(staying(focused, namespace, target, snapshot), x) == ({
            let limit = if x == namespace { target } else { occurrences(snapshot, x) };
            if occurrences(focused, x) <= limit {
                occurrences(focused, x)
            } else {
                limit
            }
        }),
    decreases focused.len(),
{
    if focused.len() > 0 {
        let before = focused.drop_last();
        lemma_staying_count(before, namespace, target, snapshot, x);
        lemma_occurrences_push(
            staying(before, namespace, target, snapshot),
            focused.last(),
            x,
        );
    }
}

/// The layers that an event leaves, as far as a snapshot settles it.
pub fn settle_event(
    focused: &[String],
    namespace: &str,
    target: usize,
    snapshot: &[String],
) -> (result: Vec<String>)
    ensures
        text::texts(result@) == event_layers(
            text::texts(focused@),
            namespace@,
            target as nat,
            text::texts(snapshot@),
        ),
{
    let ghost f = text::texts(focused@);
    let ghost s = text::texts(snapshot@);
    let ghost name = namespace@;
    let ghost goal = target as nat;
    let mut counts = count_layers(snapshot);
    let ghost start = counts@;
    counts.insert(namespace.to_owned(), target);
    proof {
        assert forall|x: Text| #[trigger] left(counts@, x) == (if x == name {
            goal
        } else {
            occurrences(s, x)
        }) by {
            assert(left(start, x) == occurrences(s, x));
        }
        assert(f.take(0) =~= Seq::<Text>::empty());
    }
    let mut result: Vec<String> = Vec::new();
    let mut kept: usize = 0;
    let mut i: usize = 0;
    while i < focused.len()
        invariant
            i <= focused.len(),
            f == text::texts(focused@),
            name == namespace@,
            goal == target,
            text::texts(result@) =~= staying(f.take(i as int), name, goal, s),
            kept == occurrences(staying(f.take(i as int), name, goal, s), name),
            kept <= i,
            forall|x: Text|
                left(counts@, x) + #[trigger] occurrences(
                    staying(f.take(i as int), name, goal, s),
                    x,
                ) == (if x == name {
                    goal
                } else {
                    occurrences(s, x)
                }),
        decreases focused.len() - i,
    {
        let ghost before = counts@;
        let ghost y = focused@[i as int]@;
        let ghost done = f.take(i as int);
        let ghost stay = staying(done, name, goal, s);
        proof {
            assert(f.take(i + 1).drop_last() =~= done);
            assert(f.take(i + 1).last() == y);
            lemma_staying_count(done, name, goal, s, y);
            lemma_occurrences_push(stay, y, name);
            assert(left(before, y) + occurrences(stay, y) == (if y == name {
                goal
            } else {
                occurrences(s, y)
            }));
            text::lemma_texts_push(result@, focused@[i as int]);
        }
        if let Some(n) = counts.get(focused[i].as_str()) {
            if n > 0 {
                result.push(focused[i].clone());
                counts.insert(focused[i].clone(), n - 1);
                if text::same_text(focused[i].as_str(), namespace) {
                    kept += 1;
                }
            }
        }
        proof {
            assert forall|x: Text|
                left(counts@, x) + #[trigger] occurrences(
                    staying(f.take(i + 1), name, goal, s),
                    x,
                ) == (if x == name {
                    goal
                } else {
                    occurrences(s, x)
                }) by {
                lemma_occurrences_push(stay, y, x);
                assert(left(before, x) + occurrences(stay, x) == (if x == name {
                    goal
                } else {
                    occurrences(s, x)
                }));
            }
        }
        i += 1;
    }
    let ghost stay = staying(f, name, goal, s);
    let ghost had = kept;
    proof {
        assert(f.take(i as int) =~= f);
        assert(left(counts@, name) + occurrences(stay, name) == goal);
    }
    while kept < target
        invariant
            had <= kept <= target,
            name == namespace@,
            text::texts(result@) =~= stay + Seq::new((kept - had) as nat, |j: int| name),
        decreases target - kept,
    {
        let added = namespace.to_owned();
        proof {
            text::lemma_texts_push(result@, added);
        }
        result.push(added);
        kept += 1;
    }
    result
}

/// Where there is room for all, all fit.
pub proof fn lemma_fitting_all(list: Seq<Text>, supply: Seq<Text>, used: Seq<Text>)
    requires
        forall|x: Text|
            #[trigger] occurrences(list, x) <= occurrences(supply, x) - occurrences(used, x),
    ensures
        fitting(list, supply, used) == list,
    decreases list.len(),
{
    if list.len() > 0 {
        let before = list.drop_last();
        let last = list.last();
        assert forall|x: Text|
            #[trigger] occurrences(before, x) <= occurrences(supply, x) - occurrences(used, x) by {
            assert(occurrences(list, x) <= occurrences(supply, x) - occurrences(used, x));
        }
        lemma_fitting_all(before, supply, used);
        assert(occurrences(list, last) <= occurrences(supply, last) - occurrences(used, last));
        assert(before.push(last) =~= list);
    } else {
        assert(fitting(list, supply, used) =~= list);
    }
}

/// Where there is no room, none fits.
pub proof fn lemma_fitting_none(list: Seq<Text>, supply: Seq<Text>, used: Seq<Text>)
    requires
        forall|x: Text| #[trigger] occurrences(supply, x) <= occurrences(used, x),
    ensures
        fitting(list, supply, used) == Seq::<Text>::empty(),
    decreases list.len(),
{
    if list.len() > 0 {
        lemma_fitting_none(list.drop_last(), supply, used);
        assert(occurrences(supply, list.last()) <= occurrences(used, list.last()));
    }
}

/// A list that holds one element once is that element alone.
proof fn lemma_single(list: Seq<Text>, x: Text)
    requires
        forall|y: Text|
            #[trigger] occurrences(list, y) == if x == y { 1nat } else { 0nat },
    ensures
        list == seq![x],
{
    assert(occurrences(list, x) == 1);
    assert(list.len() > 0);
    let last = list.last();
    lemma_occurrences_contains(list, last);
    assert(list[list.len() - 1] == last);
    assert(occurrences(list, last) > 0);
    assert(last == x);
    let before = list.drop_last();
    if before.len() > 0 {
        lemma_occurrences_contains(before, before.last());
        assert(before[before.len() - 1] == before.last());
        assert(occurrences(list, before.last()) > 0);
        assert(before.last() == x);
        assert(occurrences(before, x) > 0);
    }
    assert(list =~= seq![x]);
}

/// Layers that are all mapped stay as they are, in front of what is new.
pub proof fn lemma_reconciled_prefix(focused: Seq<Text>, mapped: Seq<Text>)
    requires
        forall|x: Text| #[trigger] occurrences(focused, x) <= occurrences(mapped, x),
    ensures
        reconciled(focused, mapped) == focused + fitting(mapped, mapped, focused),
{
    let none = Seq::<Text>::empty();
    assert forall|x: Text|
        #[trigger] occurrences(focused, x) <= occurrences(mapped, x) - occurrences(none, x) by {}
    lemma_fitting_all(focused, mapped, none);
}

/// A snapshot that shows what is focused changes nothing.
pub proof fn lemma_reconciled_same(focused: Seq<Text>, mapped: Seq<Text>)
    requires
        forall|x: Text| #[trigger] occurrences(focused, x) == occurrences(mapped, x),
    ensures
        reconciled(focused, mapped) == focused,
{
    lemma_reconciled_prefix(focused, mapped);
    assert forall|x: Text| #[trigger] occurrences(mapped, x) <= occurrences(focused, x) by {
        assert(occurrences(focused, x) == occurrences(mapped, x));
    }
    lemma_fitting_none(mapped, mapped, focused);
    assert(focused + Seq::<Text>::empty() =~= focused);
}

/// One more layer comes after those that are focused.
pub proof fn lemma_reconciled_open(focused: Seq<Text>, namespace: Text)
    ensures
        reconciled(focused, focused.push(namespace)) == focused.push(namespace),
{
    let mapped = focused.push(namespace);
    assert forall|x: Text| #[trigger] occurrences(focused, x) <= occurrences(mapped, x) by {
        lemma_occurrences_push(focused, namespace, x);
    }
    lemma_reconciled_prefix(focused, mapped);
    let added = fitting(mapped, mapped, focused);
    assert forall|x: Text|
        #[trigger] occurrences(added, x) == if namespace == x { 1nat } else { 0nat } by {
        lemma_occurrences_push(focused, namespace, x);
        lemma_fitting_count(mapped, mapped, focused, x);
    }
    lemma_single(added, namespace);
    assert(focused + seq![namespace] =~= mapped);
}

/// Leaving out one layer takes one occurrence of it away.
pub proof fn lemma_without_last_count(list: Seq<Text>, x: Text, y: Text)
    ensures
        occurrences(without_last(list, x), y) == if x == y && occurrences(list, x) > 0 {
            (occurrences(list, x) - 1) as nat
        } else {
            occurrences(list, y)
        },
        !list.contains(x) ==> without_last(list, x) == list,
    decreases list.len(),
{
    if list.len() > 0 {
        let before = list.drop_last();
        lemma_without_last_count(before, x, y);
        lemma_occurrences_push(without_last(before, x), list.last(), y);
        lemma_occurrences_contains(list, x);
        lemma_occurrences_contains(before, x);
        assert(before.push(list.last()) =~= list);
    }
}

/// Where only the last `x` has no room, it is left out.
proof fn lemma_fitting_without_last(list: Seq<Text>, supply: Seq<Text>, x: Text)
    requires
        occurrences(list, x) == occurrences(supply, x) + 1,
        forall|y: Text| y != x ==> #[trigger] occurrences(list, y) <= occurrences(supply, y),
    ensures
        fitting(list, supply, Seq::empty()) == without_last(list, x),
    decreases list.len(),
{
    let none = Seq::<Text>::empty();
    if list.len() > 0 {
        let before = list.drop_last();
        let last = list.last();
        if last == x {
            assert forall|y: Text|
                #[trigger] occurrences(before, y) <= occurrences(supply, y) - occurrences(
                    none,
                    y,
                ) by {
                if y != x {
                    assert(occurrences(list, y) <= occurrences(supply, y));
                }
            }
            lemma_fitting_all(before, supply, none);
        } else {
            assert forall|y: Text| y != x implies #[trigger] occurrences(before, y)
                <= occurrences(supply, y) by {
                assert(occurrences(list, y) <= occurrences(supply, y));
            }
            lemma_fitting_without_last(before, supply, x);
            assert(occurrences(list, last) <= occurrences(supply, last));
        }
    }
}

/// One layer fewer leaves the others in their order.
pub proof fn lemma_reconciled_close(focused: Seq<Text>, namespace: Text)
    ensures
        reconciled(focused, without_last(focused, namespace)) == without_last(focused, namespace),
{
    let mapped = without_last(focused, namespace);
    lemma_without_last_count(focused, namespace, namespace);
    lemma_occurrences_contains(focused, namespace);
    if focused.contains(namespace) {
        assert forall|y: Text| y != namespace implies #[trigger] occurrences(focused, y)
            <= occurrences(mapped, y) by {
            lemma_without_last_count(focused, namespace, y);
        }
        lemma_fitting_without_last(focused, mapped, namespace);
        lemma_fitting_none(mapped, mapped, mapped);
        assert(mapped + Seq::<Text>::empty() =~= mapped);
    } else {
        lemma_reconciled_same(focused, mapped);
    }
}

/// Of a list of configured namespaces all are taken.
pub proof fn lemma_tracked_all(live: Seq<Text>, rules: RulesView)
    requires
        forall|i: int| 0 <= i < live.len() ==> rules.lookup(#[trigger] live[i]) is Some,
    ensures
        tracked_layers(live, rules) == live,
    decreases live.len(),
{
    if live.len() > 0 {
        let before = live.drop_last();
        assert forall|i: int| 0 <= i < before.len() implies rules.lookup(
            #[trigger] before[i],
        ) is Some by {
            assert(before[i] == live[i]);
        }
        lemma_tracked_all(before, rules);
        assert(live[live.len() - 1] == live.last());
        assert(before.push(live.last()) =~= live);
    } else {
        assert(tracked_layers(live, rules) =~= live);
    }
}

/// A list of one namespace holds it as often as it is long.
proof fn lemma_repeated_count(n: nat, x: Text, y: Text)
    ensures
        occurrences(Seq::new(n, |i: int| x), y) == if x == y { n } else { 0 },
    decreases n,
{
    let list = Seq::new(n, |i: int| x);
    if n > 0 {
        lemma_repeated_count((n - 1) as nat, x, y);
        assert(list.drop_last() =~= Seq::new((n - 1) as nat, |i: int| x));
    }
}

/// An event leaves its own namespace `target` times, and of every other as many as
/// were focused, up to what the snapshot holds.
pub proof fn lemma_event_layers_count(
    focused: Seq<Text>,
    namespace: Text,
    target: nat,
    snapshot: Seq<Text>,
    x: Text,
)
    ensures
        occurrences(event_layers(focused, namespace, target, snapshot), x) == if x == namespace {
            target
        } else if occurrences(focused, x) <= occurrences(snapshot, x) {
            occurrences(focused, x)
        } else {
            occurrences(snapshot, x)
        },
{
    let stay = staying(focused, namespace, target, snapshot);
    let more = (target - occurrences(stay, namespace)) as nat;
    lemma_staying_count(focused, namespace, target, snapshot, x);
    lemma_staying_count(focused, namespace, target, snapshot, namespace);
    lemma_repeated_count(more, namespace, x);
    lemma_occurrences_concat(stay, Seq::new(more, |i: int| namespace), x);
}

/// Where every limit is met, all stay.
proof fn lemma_staying_all(focused: Seq<Text>, namespace: Text, target: nat, snapshot: Seq<Text>)
    requires
        occurrences(focused, namespace) <= target,
        forall|x: Text|
            x != namespace ==> #[trigger] occurrences(focused, x) <= occurrences(snapshot, x),
    ensures
        staying(focused, namespace, target, snapshot) == focused,
    decreases focused.len(),
{
    if focused.len() > 0 {
        let before = focused.drop_last();
        let last = focused.last();
        assert forall|x: Text| x != namespace implies #[trigger] occurrences(before, x)
            <= occurrences(snapshot, x) by {
            assert(occurrences(focused, x) <= occurrences(snapshot, x));
        }
        lemma_staying_all(before, namespace, target, snapshot);
        if last != namespace {
            assert(occurrences(focused, last) <= occurrences(snapshot, last));
        }
        assert(before.push(last) =~= focused);
    } else {
        assert(staying(focused, namespace, target, snapshot) =~= focused);
    }
}

/// Where one of the namespace is too many, the last of them goes.
proof fn lemma_staying_without_last(
    focused: Seq<Text>,
    namespace: Text,
    target: nat,
    snapshot: Seq<Text>,
)
    requires
        occurrences(focused, namespace) == target + 1,
        forall|x: Text|
            x != namespace ==> #[trigger] occurrences(focused, x) <= occurrences(snapshot, x),
    ensures
        staying(focused, namespace, target, snapshot) == without_last(focused, namespace),
    decreases focused.len(),
{
    if focused.len() > 0 {
        let before = focused.drop_last();
        let last = focused.last();
        assert forall|x: Text| x != namespace implies #[trigger] occurrences(before, x)
            <= occurrences(snapshot, x) by {
            assert(occurrences(focused, x) <= occurrences(snapshot, x));
        }
        if last == namespace {
            lemma_staying_all(before, namespace, target, snapshot);
        } else {
            lemma_staying_without_last(before, namespace, target, snapshot);
            assert(occurrences(focused, last) <= occurrences(snapshot, last));
        }
    }
}

/// An open that a snapshot shows adds the layer to the others.
pub proof fn lemma_event_layers_open(focused: Seq<Text>, namespace: Text)
    ensures
        event_layers(
            focused,
            namespace,
            occurrences(focused, namespace) + 1,
            focused.push(namespace),
        ) == focused.push(namespace),
{
    let target = occurrences(focused, namespace) + 1;
    let opened = focused.push(namespace);
    assert forall|x: Text| x != namespace implies #[trigger] occurrences(focused, x)
        <= occurrences(opened, x) by {
        lemma_occurrences_push(focused, namespace, x);
    }
    lemma_staying_all(focused, namespace, target, opened);
    assert(event_layers(focused, namespace, target, opened) =~= opened);
}

/// A close that a snapshot shows takes the last such layer away.
pub proof fn lemma_event_layers_close(focused: Seq<Text>, namespace: Text)
    requires
        focused.contains(namespace),
    ensures
        event_layers(
            focused,
            namespace,
            (occurrences(focused, namespace) - 1) as nat,
            without_last(focused, namespace),
        ) == without_last(focused, namespace),
{
    lemma_occurrences_contains(focused, namespace);
    let target = (occurrences(focused, namespace) - 1) as nat;
    let closed = without_last(focused, namespace);
    assert forall|x: Text| x != namespace implies #[trigger] occurrences(focused, x)
        <= occurrences(closed, x) by {
        lemma_without_last_count(focused, namespace, x);
    }
    lemma_staying_without_last(focused, namespace, target, closed);
    lemma_without_last_count(focused, namespace, namespace);
    assert(event_layers(focused, namespace, target, closed) =~= closed);
}

/// How often an element stands in a list is how often it stands in the list's multiset.
pub proof fn law_occurrences(list: Seq<Text>, x: Text)
    ensures
        occurrences(list, x) == list.to_multiset().count(x),
    decreases list.len(),
{
    broadcast use vstd::seq_lib::group_to_multiset_ensures;

    if list.len() > 0 {
        law_occurrences(list.drop_last(), x);
        assert(list.drop_last().push(list.last()) =~= list);
    } else {
        assert(list =~= Seq::<Text>::empty());
    }
}

/// What fits of a prefix is a prefix of what fits.
pub proof fn lemma_fitting_prefix(list: Seq<Text>, supply: Seq<Text>, used: Seq<Text>, n: int)
    requires
        0 <= n <= list.len(),
    ensures
        fitting(list.take(n), supply, used).is_prefix_of(fitting(list, supply, used)),
    decreases list.len() - n,
{
    if n == list.len() {
        assert(list.take(n) =~= list);
    } else {
        lemma_fitting_prefix(list, supply, used, n + 1);
        assert(list.take(n + 1).drop_last() =~= list.take(n));
    }
}

/// What is configured of a prefix is a prefix of what is configured.
pub proof fn lemma_tracked_prefix(live: Seq<Text>, rules: RulesView, n: int)
    requires
        0 <= n <= live.len(),
    ensures
        tracked_layers(live.take(n), rules).is_prefix_of(tracked_layers(live, rules)),
    decreases live.len() - n,
{
    if n == live.len() {
        assert(live.take(n) =~= live);
    } else {
        lemma_tracked_prefix(live, rules, n + 1);
        assert(live.take(n + 1).drop_last() =~= live.take(n));
    }
}

/// Leaving out the last layer of a namespace takes it out where it stands.
pub proof fn lemma_without_last_place(list: Seq<Text>, x: Text) -> (i: int)
    requires
        list.contains(x),
    ensures
        0 <= i < list.len(),
        list[i] == x,
        forall|j: int| i < j < list.len() ==> #[trigger] list[j] != x,
        without_last(list, x) == list.remove(i),
    decreases list.len(),
{
    let last = list.len() - 1;
    if list.last() == x {
        assert(list.drop_last() =~= list.remove(last));
        last
    } else {
        let before = list.drop_last();
        assert(before.contains(x)) by {
            let k = list.index_of(x);
            assert(before[k] == x);
        }
        let i = lemma_without_last_place(before, x);
        assert(list[i] == before[i]);
        assert forall|j: int| i < j < list.len() implies #[trigger] list[j] != x by {
            if j < last {
                assert(list[j] == before[j]);
            }
        }
        assert(before.remove(i).push(list.last()) =~= list.remove(i));
        i
    }
}

} // verus!
