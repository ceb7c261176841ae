//! A map keyed by strings that keeps its entries in the order of the keys.

use vstd::prelude::*;

use crate::text;
#[allow(unused_imports)]
use crate::text::{Text, TextOrder};

verus! {

/// The keys are in strictly ascending order, so none occurs twice.
pub open spec fn ascending<V>(entries: Seq<(Text, V)>) -> bool {
    forall|i: int, j: int|
        0 <= i < j < entries.len() ==> text::text_before(
            #[trigger] entries[i].0,
            #[trigger] entries[j].0,
        )
}

/// Some entry has the key.
pub open spec fn has_key<V>(entries: Seq<(Text, V)>, key: Text) -> bool {
    exists|i: int| 0 <= i < entries.len() && (#[trigger] entries[i]).0 == key
}

/// The map that a list of entries stands for.
pub open spec fn entries_map<V>(entries: Seq<(Text, V)>) -> Map<Text, V> {
    Map::new(
        |key: Text| has_key(entries, key),
        |key: Text|
            entries[choose|i: int| 0 <= i < entries.len() && (#[trigger] entries[i]).0 == key].1,
    )
}

/// A map from strings to small values.
#[derive(Debug, PartialEq, Eq)]
pub struct StringMap<V> {
    entries: Vec<(String, V)>,
}

impl<V> View for StringMap<V> {
    type V = Map<Text, V>;

    open spec fn view(&self) -> Map<Text, V> {
        entries_map(self.entries())
    }
}

/// In an ascending list each key has one entry, and the map holds its value.
pub proof fn lemma_entry<V>(entries: Seq<(Text, V)>, i: int)
    requires
        ascending(entries),
        0 <= i < entries.len(),
    ensures
        entries_map(entries).contains_key(entries[i].0),
        entries_map(entries)[entries[i].0] == entries[i].1,
        forall|j: int| 0 <= j < entries.len() && entries[j].0 == entries[i].0 ==> i == j,
{
    let key = entries[i].0;
    text::lemma_before_irreflexive(key);
    assert(has_key(entries, key));
    assert forall|j: int| 0 <= j < entries.len() && entries[j].0 == key implies i == j by {
        if i < j {
            assert(text::text_before(entries[i].0, entries[j].0));
        } else if j < i {
            assert(text::text_before(entries[j].0, entries[i].0));
        }
    }
}

/// The entries of a map in the order of their keys.
pub open spec fn sorted_entries<V>(map: Map<Text, V>) -> Seq<(Text, V)> {
    choose|entries: Seq<(Text, V)>| #[trigger]
        ascending(entries) && entries_map(entries) == map
}

impl<V> StringMap<V> {
    /// The entries in the order of their keys.
    pub closed spec fn entries(&self) -> Seq<(Text, V)> {
        self.entries@.map_values(|e: (String, V)| (e.0@, e.1))
    }

    #[verifier::type_invariant]
    spec fn is_ascending(&self) -> bool {
        ascending(self.entries())
    }
}

/// Where a key stands among the entries, or would have to stand.
enum Slot {
    Found(usize),
    Vacant(usize),
}

impl<V: Copy> StringMap<V> {
    /// A map without entries.
    pub fn new() -> (map: Self)
        ensures
            map@ == Map::<Text, V>::empty(),
    {
        let map = StringMap { entries: Vec::new() };
        assert(map.entries() =~= Seq::<(Text, V)>::empty());
        assert(map@ =~= Map::<Text, V>::empty());
        map
    }

    fn locate(&self, key: &str) -> (slot: Slot)
        ensures
            match slot {
                Slot::Found(i) => i < self.entries().len() && self.entries()[i as int].0 == key@,
                Slot::Vacant(i) => {
                    &&& i <= self.entries().len()
                    &&& forall|j: int|
                        0 <= j < i ==> text::text_before(#[trigger] self.entries()[j].0, key@)
                    &&& forall|j: int|
                        i <= j < self.entries().len() ==> text::text_before(
                            key@,
                            #[trigger] self.entries()[j].0,
                        )
                },
            },
    {
        proof {
            use_type_invariant(self);
        }
        let mut low: usize = 0;
        let mut high: usize = self.entries.len();
        while low < high
            invariant
                low <= high <= self.entries.len(),
                self.entries().len() == self.entries.len(),
                ascending(self.entries()),
                forall|j: int|
                    0 <= j < low ==> text::text_before(#[trigger] self.entries()[j].0, key@),
                forall|j: int|
                    high <= j < self.entries().len() ==> text::text_before(
                        key@,
                        #[trigger] self.entries()[j].0,
                    ),
            decreases high - low,
        {
            let middle: usize = low + (high - low) / 2;
            let ghost at = self.entries()[middle as int].0;
            assert(at == self.entries@[middle as int].0@);
            match text::compare_texts(self.entries[middle].0.as_str(), key) {
                TextOrder::Same => {
                    return Slot::Found(middle);
                },
                TextOrder::Before => {
                    proof {
                        assert forall|j: int| 0 <= j < middle + 1 implies text::text_before(
                            #[trigger] self.entries()[j].0,
                            key@,
                        ) by {
                            if j < middle {
                                assert(text::text_before(self.entries()[j].0, at));
                                text::lemma_before_transitive(self.entries()[j].0, at, key@);
                            }
                        }
                    }
                    low = middle + 1;
                },
                TextOrder::After => {
                    proof {
                        assert forall|j: int|
                            middle <= j < self.entries().len() implies text::text_before(
                            key@,
                            #[trigger] self.entries()[j].0,
                        ) by {
                            if j > middle {
                                assert(text::text_before(at, self.entries()[j].0));
                                text::lemma_before_transitive(key@, at, self.entries()[j].0);
                            }
                        }
                    }
                    high = middle;
                },
            }
        }
        Slot::Vacant(low)
    }

    /// The value of a key.
    pub fn get(&self, key: &str) -> (value: Option<V>)
        ensures
            value == (if self@.contains_key(key@) { Some(self@[key@]) } else { None }),
    {
        proof {
            use_type_invariant(self);
        }
        match self.locate(key) {
            Slot::Found(i) => {
                proof {
                    lemma_entry(self.entries(), i as int);
                }
                Some(self.entries[i].1)
            },
            Slot::Vacant(_) => {
                proof {
                    text::lemma_before_irreflexive(key@);
                }
                None
            },
        }
    }

    /// Whether the key has a value.
    pub fn contains_key(&self, key: &str) -> (found: bool)
        ensures
            found == self@.contains_key(key@),
    {
        self.get(key).is_some()
    }

    /// Gives the key the value, in place of the one it had.
    pub fn insert(&mut self, key: String, value: V)
        ensures
            final(self)@ == old(self)@.insert(key@, value),
    {
        proof {
            use_type_invariant(&*self);
        }
        let ghost before = self.entries();
        let slot = self.locate(key.as_str());
        let ghost name = key@;
        let mut entries: Vec<(String, V)> = Vec::new();
        std::mem::swap(&mut entries, &mut self.entries);
        match slot {
            Slot::Found(i) => {
                entries.set(i, (key, value));
            },
            Slot::Vacant(i) => {
                entries.insert(i, (key, value));
            },
        }
        let ghost after = entries@.map_values(|e: (String, V)| (e.0@, e.1));
        proof {
            text::lemma_before_irreflexive(name);
            match slot {
                Slot::Found(i) => {
                    assert(after =~= before.update(i as int, (name, value)));
                    lemma_update(before, i as int, value);
                },
                Slot::Vacant(i) => {
                    assert(after =~= before.insert(i as int, (name, value)));
                    lemma_insert(before, i as int, name, value);
                },
            }
        }
        self.entries = entries;
    }

    /// Takes the key out.
    pub fn remove(&mut self, key: &str)
        ensures
            final(self)@ == old(self)@.remove(key@),
    {
        proof {
            use_type_invariant(&*self);
        }
        let ghost before = self.entries();
        match self.locate(key) {
            Slot::Found(i) => {
                let mut entries: Vec<(String, V)> = Vec::new();
                std::mem::swap(&mut entries, &mut self.entries);
                let _ = entries.remove(i);
                let ghost after = entries@.map_values(|e: (String, V)| (e.0@, e.1));
                proof {
                    assert(after =~= before.remove(i as int));
                    lemma_remove(before, i as int);
                }
                self.entries = entries;
            },
            Slot::Vacant(_) => {
                proof {
                    text::lemma_before_irreflexive(key@);
                    assert(before == self.entries());
                    assert(!has_key(before, key@));
                    assert(old(self)@.remove(key@) =~= old(self)@);
                }
            },
        }
    }

    /// The number of keys.
    pub fn len(&self) -> (n: usize)
        ensures
            n == sorted_entries(self@).len(),
    {
        proof {
            use_type_invariant(self);
            lemma_sorted_entries(self.entries());
        }
        self.entries.len()
    }

    /// Whether there is no key.
    pub fn is_empty(&self) -> (empty: bool)
        ensures
            empty == (self@ == Map::<Text, V>::empty()),
    {
        proof {
            use_type_invariant(self);
            if self.entries().len() > 0 {
                lemma_entry(self.entries(), 0);
                assert(!Map::<Text, V>::empty().contains_key(self.entries()[0].0));
            } else {
                assert(self@ =~= Map::<Text, V>::empty());
            }
        }
        self.entries.len() == 0
    }

    /// The `i`-th entry in the order of the keys.
    pub fn entry(&self, i: usize) -> (entry: (&String, V))
        requires
            i < sorted_entries(self@).len(),
        ensures
            (entry.0@, entry.1) == sorted_entries(self@)[i as int],
    {
        proof {
            use_type_invariant(self);
            lemma_sorted_entries(self.entries());
        }
        (&self.entries[i].0, self.entries[i].1)
    }
}

impl<V: Copy> Clone for StringMap<V> {
    fn clone(&self) -> (copy: Self)
        ensures
            copy@ == self@,
    {
        proof {
            use_type_invariant(self);
        }
        let mut entries: Vec<(String, V)> = Vec::new();
        let mut i: usize = 0;
        while i < self.entries.len()
            invariant
                i <= self.entries.len(),
                i == entries.len(),
                forall|j: int|
                    0 <= j < i ==> (#[trigger] entries@[j]).0@ == self.entries@[j].0@
                        && entries@[j].1 == self.entries@[j].1,
            decreases self.entries.len() - i,
        {
            entries.push((self.entries[i].0.clone(), self.entries[i].1));
            i += 1;
        }
        proof {
            assert(entries@.map_values(|e: (String, V)| (e.0@, e.1)) =~= self.entries());
        }
        StringMap { entries }
    }
}

proof fn lemma_update<V>(entries: Seq<(Text, V)>, i: int, value: V)
    requires
        ascending(entries),
        0 <= i < entries.len(),
    ensures
        ascending(entries.update(i, (entries[i].0, value))),
        entries_map(entries.update(i, (entries[i].0, value))) == entries_map(entries).insert(
            entries[i].0,
            value,
        ),
{
    let key = entries[i].0;
    let after = entries.update(i, (key, value));
    assert forall|a: int, b: int| 0 <= a < b < after.len() implies text::text_before(
        #[trigger] after[a].0,
        #[trigger] after[b].0,
    ) by {
        assert(text::text_before(entries[a].0, entries[b].0));
    }
    assert forall|k: Text| has_key(after, k) == has_key(entries, k) by {
        if has_key(after, k) {
            let j = choose|j: int| 0 <= j < after.len() && (#[trigger] after[j]).0 == k;
            assert(entries[j].0 == k);
        }
        if has_key(entries, k) {
            let j = choose|j: int| 0 <= j < entries.len() && (#[trigger] entries[j]).0 == k;
            assert(after[j].0 == k);
        }
    }
    lemma_entry(after, i);
    assert forall|k: Text| has_key(after, k) && k != key implies entries_map(after)[k]
        == entries_map(entries)[k] by {
        let j = choose|j: int| 0 <= j < after.len() && (#[trigger] after[j]).0 == k;
        lemma_entry(after, j);
        lemma_entry(entries, j);
    }
    assert(has_key(entries, key)) by {
        assert(entries[i].0 == key);
    }
    assert(entries_map(after) =~= entries_map(entries).insert(key, value));
}

proof fn lemma_insert<V>(entries: Seq<(Text, V)>, i: int, key: Text, value: V)
    requires
        ascending(entries),
        0 <= i <= entries.len(),
        forall|j: int| 0 <= j < i ==> text::text_before(#[trigger] entries[j].0, key),
        forall|j: int| i <= j < entries.len() ==> text::text_before(key, #[trigger] entries[j].0),
    ensures
        ascending(entries.insert(i, (key, value))),
        entries_map(entries.insert(i, (key, value))) == entries_map(entries).insert(key, value),
{
    let after = entries.insert(i, (key, value));
    text::lemma_before_irreflexive(key);
    assert forall|a: int, b: int| 0 <= a < b < after.len() implies text::text_before(
        #[trigger] after[a].0,
        #[trigger] after[b].0,
    ) by {
        let x = if a < i { a } else { a - 1 };
        let y = if b < i { b } else { b - 1 };
        if a == i {
            assert(text::text_before(key, entries[y].0));
        } else if b == i {
            assert(text::text_before(entries[x].0, key));
        } else {
            assert(text::text_before(entries[x].0, entries[y].0));
        }
    }
    lemma_entry(after, i);
    assert forall|k: Text| #[trigger] has_key(entries, k) implies {
        &&& k != key
        &&& has_key(after, k)
        &&& entries_map(after)[k] == entries_map(entries)[k]
    } by {
        let j = choose|j: int| 0 <= j < entries.len() && (#[trigger] entries[j]).0 == k;
        let m = if j < i { j } else { j + 1 };
        assert(after[m] == entries[j]);
        lemma_entry(after, m);
        lemma_entry(entries, j);
    }
    assert forall|k: Text| #[trigger] has_key(after, k) && k != key implies has_key(
        entries,
        k,
    ) by {
        let j = choose|j: int| 0 <= j < after.len() && (#[trigger] after[j]).0 == k;
        let m = if j < i { j } else { j - 1 };
        assert(entries[m] == after[j]);
    }
    assert(entries_map(after) =~= entries_map(entries).insert(key, value));
}

proof fn lemma_remove<V>(entries: Seq<(Text, V)>, i: int)
    requires
        ascending(entries),
        0 <= i < entries.len(),
    ensures
        ascending(entries.remove(i)),
        entries_map(entries.remove(i)) == entries_map(entries).remove(entries[i].0),
{
    let key = entries[i].0;
    let after = entries.remove(i);
    assert forall|a: int, b: int| 0 <= a < b < after.len() implies text::text_before(
        #[trigger] after[a].0,
        #[trigger] after[b].0,
    ) by {
        let x = if a < i { a } else { a + 1 };
        let y = if b < i { b } else { b + 1 };
        assert(text::text_before(entries[x].0, entries[y].0));
    }
    lemma_entry(entries, i);
    assert forall|k: Text| #[trigger] has_key(after, k) implies {
        &&& k != key
        &&& has_key(entries, k)
        &&& entries_map(after)[k] == entries_map(entries)[k]
    } by {
        let j = choose|j: int| 0 <= j < after.len() && (#[trigger] after[j]).0 == k;
        let m = if j < i { j } else { j + 1 };
        assert(entries[m] == after[j]);
        lemma_entry(after, j);
        lemma_entry(entries, m);
    }
    assert forall|k: Text| #[trigger] has_key(entries, k) && k != key implies has_key(
        after,
        k,
    ) by {
        let j = choose|j: int| 0 <= j < entries.len() && (#[trigger] entries[j]).0 == k;
        let m = if j < i { j } else { j - 1 };
        assert(after[m] == entries[j]);
    }
    assert(entries_map(after) =~= entries_map(entries).remove(key));
}

/// Two ascending lists that stand for the same map are the same list: the map
/// alone decides in which order its entries come.
pub proof fn lemma_map_decides_entries<V>(a: Seq<(Text, V)>, b: Seq<(Text, V)>)
    requires
        ascending(a),
        ascending(b),
        entries_map(a) == entries_map(b),
    ensures
        a == b,
    decreases a.len(),
{
    if a.len() == 0 {
        if b.len() > 0 {
            lemma_entry(b, 0);
            assert(!has_key(a, b[0].0));
        }
        assert(a =~= b);
    } else {
        let last = a.len() - 1;
        lemma_entry(a, last);
        assert(has_key(b, a[last].0));
        let top = b.len() - 1;
        lemma_entry(b, top);
        assert(has_key(a, b[top].0));
        let i = choose|i: int| 0 <= i < a.len() && (#[trigger] a[i]).0 == b[top].0;
        let j = choose|j: int| 0 <= j < b.len() && (#[trigger] b[j]).0 == a[last].0;
        if i < last {
            assert(text::text_before(a[i].0, a[last].0));
            if j < top {
                assert(text::text_before(b[j].0, b[top].0));
                text::lemma_before_transitive(a[last].0, b[top].0, a[last].0);
            }
            text::lemma_before_irreflexive(a[last].0);
        }
        assert(a[last].0 == b[top].0);
        assert(a[last] == b[top]);
        lemma_remove(a, last);
        lemma_remove(b, top);
        assert(a.remove(last) =~= a.drop_last());
        assert(b.remove(top) =~= b.drop_last());
        lemma_map_decides_entries(a.drop_last(), b.drop_last());
        assert(a =~= a.drop_last().push(a[last]));
        assert(b =~= b.drop_last().push(b[top]));
    }
}

/// An ascending list is the one that its map is sorted into.
pub proof fn lemma_sorted_entries<V>(entries: Seq<(Text, V)>)
    requires
        ascending(entries),
    ensures
        sorted_entries(entries_map(entries)) == entries,
{
    let sorted = sorted_entries(entries_map(entries));
    assert(ascending(entries) && entries_map(entries) == entries_map(entries));
    lemma_map_decides_entries(sorted, entries);
}

/// Where a key that is not in an ascending list has its place, at `i` or before it.
proof fn lemma_place<V>(entries: Seq<(Text, V)>, key: Text, i: int) -> (place: int)
    requires
        ascending(entries),
        !has_key(entries, key),
        0 <= i <= entries.len(),
        forall|j: int| i <= j < entries.len() ==> text::text_before(key, #[trigger] entries[j].0),
    ensures
        0 <= place <= entries.len(),
        forall|j: int| 0 <= j < place ==> text::text_before(#[trigger] entries[j].0, key),
        forall|j: int|
            place <= j < entries.len() ==> text::text_before(key, #[trigger] entries[j].0),
    decreases i,
{
    if i == 0 {
        i
    } else {
        let at = entries[i - 1].0;
        assert(at != key);
        text::lemma_before_total(at, key);
        if text::text_before(at, key) {
            assert forall|j: int| 0 <= j < i implies text::text_before(
                #[trigger] entries[j].0,
                key,
            ) by {
                if j < i - 1 {
                    assert(text::text_before(entries[j].0, entries[i - 1].0));
                    text::lemma_before_transitive(entries[j].0, at, key);
                }
            }
            i
        } else {
            lemma_place(entries, key, i - 1)
        }
    }
}

/// Every finite map can be sorted.
proof fn lemma_sortable<V>(map: Map<Text, V>) -> (entries: Seq<(Text, V)>)
    requires
        map.dom().finite(),
    ensures
        ascending(entries),
        entries_map(entries) == map,
    decreases map.dom().len(),
{
    if map.dom().len() == 0 {
        let entries = Seq::<(Text, V)>::empty();
        assert(map.dom() =~= Set::<Text>::empty());
        assert(entries_map(entries) =~= map);
        entries
    } else {
        let key = map.dom().choose();
        let rest = map.remove(key);
        assert(rest.dom() =~= map.dom().remove(key));
        let entries = lemma_sortable(rest);
        assert(!has_key(entries, key)) by {
            assert(!entries_map(entries).contains_key(key));
        }
        let place = lemma_place(entries, key, entries.len() as int);
        lemma_insert(entries, place, key, map[key]);
        assert(rest.insert(key, map[key]) =~= map);
        entries.insert(place, (key, map[key]))
    }
}

/// The sorted entries of a finite map come in ascending order of their keys, and are the
/// entries of the map.
pub proof fn law_sorted_entries<V>(map: Map<Text, V>)
    requires
        map.dom().finite(),
    ensures
        ascending(sorted_entries(map)),
        entries_map(sorted_entries(map)) == map,
{
    let entries = lemma_sortable(map);
    assert(ascending(entries) && entries_map(entries) == map);
}

/// The entries of a string map can be sorted: they come in ascending order of their keys,
/// and are the entries of the map.
pub proof fn law_string_map_sorted<V>(map: StringMap<V>)
    ensures
        map@.dom().finite(),
        ascending(sorted_entries(map@)),
        entries_map(sorted_entries(map@)) == map@,
{
    let entries = map.entries();
    let keys = entries.map_values(|e: (Text, V)| e.0);
    assert forall|k: Text| #[trigger] map@.dom().contains(k) == keys.to_set().contains(k) by {
        if has_key(entries, k) {
            let i = choose|i: int| 0 <= i < entries.len() && (#[trigger] entries[i]).0 == k;
            assert(keys[i] == k);
        }
        if keys.contains(k) {
            let i = keys.index_of(k);
            assert(entries[i].0 == k);
        }
    }
    assert(map@.dom() =~= keys.to_set());
    vstd::seq_lib::seq_to_set_is_finite(keys);
    law_sorted_entries(map@);
}

} // verus!
