//! Configured layouts, looked up by an exact name first and by a pattern then.

use regex_lite::Regex;
use vstd::prelude::*;

use crate::state::LayoutIndex;
#[allow(unused_imports)]
use crate::string_map;
use crate::string_map::StringMap;
#[allow(unused_imports)]
use crate::text;
#[allow(unused_imports)]
use crate::text::Text;

verus! {

/// `regex_lite::Regex`, a compiled pattern.
#[verifier::external_type_specification]
#[verifier::external_body]
pub struct ExRegex(regex_lite::Regex);

/// `regex_lite::Error`, the reason why a pattern does not compile.
#[verifier::external_type_specification]
#[verifier::external_body]
pub struct ExRegexError(regex_lite::Error);

/// Whether `regex_lite::Regex::new` accepts the pattern, on a machine with pointers of
/// so many bits: what it compiles to must fit a limit in bytes, and is larger where
/// pointers are wider.
pub uninterp spec fn regex_compiles(pattern: Seq<char>, pointer_bits: u32) -> bool;

/// The pattern that a compiled regex was made from, as `regex_lite::Regex::as_str`
/// gives it back.
pub uninterp spec fn regex_text(regex: regex_lite::Regex) -> Seq<char>;

/// Whether a regex compiled from the pattern finds a match in the text.
pub uninterp spec fn regex_matches(pattern: Seq<char>, text: Seq<char>) -> bool;

/// `regex_lite::Regex::new` compiles a pattern or refuses it, by the pattern and the
/// width of pointers alone, and a compiled regex keeps the pattern it was made from.
/// Which patterns it refuses is left to the crate.
pub assume_specification[ regex_lite::Regex::new ](pattern: &str) -> (regex: Result<
    regex_lite::Regex,
    regex_lite::Error,
>)
    ensures
        regex is Ok <==> regex_compiles(pattern@, usize::BITS),
        regex matches Ok(r) ==> regex_text(r) == pattern@,
;

/// `regex_lite::Regex::is_match` searches a text for a match anywhere in it. What
/// it finds is decided by the pattern that the regex was made from and by the
/// text; which texts match a pattern is left to the crate.
pub assume_specification[ regex_lite::Regex::is_match ](
    regex: &regex_lite::Regex,
    haystack: &str,
) -> (found: bool)
    ensures
        found == regex_matches(regex_text(*regex), haystack@),
;

/// The regex text that matches a whole name by the given key, if the key is a regex by
/// itself. Brackets that do not pair up in the key would pair up with those around it.
pub open spec fn anchored(key: Text) -> Text {
    "^(?:"@ + key + ")$"@
}

/// The patterns of the entries whose key is a regex, by itself and as a whole name, in the
/// order of the entries.
pub open spec fn compiled_patterns(entries: Seq<(Text, LayoutIndex)>) -> Seq<(Text, LayoutIndex)>
    decreases entries.len(),
{
    if entries.len() == 0 {
        Seq::empty()
    } else {
        let pattern = anchored(entries.last().0);
        let before = compiled_patterns(entries.drop_last());
        if regex_compiles(entries.last().0, usize::BITS) && regex_compiles(
            pattern,
            usize::BITS,
        ) {
            before.push((pattern, entries.last().1))
        } else {
            before
        }
    }
}

/// The exact entry where there is one, else the first candidate that matched.
pub open spec fn chosen_layout(
    exact: Option<LayoutIndex>,
    candidates: Seq<(bool, LayoutIndex)>,
) -> Option<LayoutIndex>
    decreases candidates.len(),
{
    if exact is Some {
        exact
    } else if candidates.len() == 0 {
        None
    } else if candidates[0].0 {
        Some(candidates[0].1)
    } else {
        chosen_layout(exact, candidates.drop_first())
    }
}

/// What each pattern says of a name, with the layout it stands for.
pub open spec fn match_results(patterns: Seq<(Text, LayoutIndex)>, name: Text) -> Seq<
    (bool, LayoutIndex),
> {
    patterns.map_values(|p: (Text, LayoutIndex)| (regex_matches(p.0, name), p.1))
}

/// The configured layouts: by name, and by pattern in the order of the keys.
pub struct RulesView {
    pub exact: Map<Text, LayoutIndex>,
    pub patterns: Seq<(Text, LayoutIndex)>,
}

impl RulesView {
    /// The layout configured for exactly this name.
    pub open spec fn exact_layout(self, name: Text) -> Option<LayoutIndex> {
        if self.exact.contains_key(name) {
            Some(self.exact[name])
        } else {
            None
        }
    }

    /// The layout configured for a name.
    pub open spec fn lookup(self, name: Text) -> Option<LayoutIndex> {
        chosen_layout(self.exact_layout(name), match_results(self.patterns, name))
    }
}

/// Takes the exact entry, or else the first candidate that matched.
pub fn choose_layout(exact: Option<LayoutIndex>, candidates: &[(bool, LayoutIndex)]) -> (layout:
    Option<LayoutIndex>)
    ensures
        layout == chosen_layout(exact, candidates@),
{
    if exact.is_some() {
        return exact;
    }
    let mut i: usize = 0;
    proof {
        assert(candidates@.skip(0) =~= candidates@);
    }
    while i < candidates.len()
        invariant
            i <= candidates.len(),
            exact is None,
            chosen_layout(exact, candidates@) == chosen_layout(exact, candidates@.skip(i as int)),
        decreases candidates.len() - i,
    {
        if candidates[i].0 {
            return Some(candidates[i].1);
        }
        proof {
            assert(candidates@.skip(i as int).drop_first() =~= candidates@.skip(i + 1));
        }
        i += 1;
    }
    None
}

/// The patterns and layouts of a list of compiled regexes.
pub open spec fn pattern_views(patterns: Seq<(Regex, LayoutIndex)>) -> Seq<(Text, LayoutIndex)> {
    patterns.map_values(|p: (Regex, LayoutIndex)| (regex_text(p.0), p.1))
}

/// Keeps a pattern that compiled; one that did not is passed over.
pub fn keep_compiled(
    patterns: &mut Vec<(Regex, LayoutIndex)>,
    compiled: Result<Regex, regex_lite::Error>,
    layout: LayoutIndex,
)
    ensures
        final(patterns)@ == (match compiled {
            Ok(regex) => old(patterns)@.push((regex, layout)),
            Err(_) => old(patterns)@,
        }),
{
    match compiled {
        Ok(regex) => {
            patterns.push((regex, layout));
        },
        Err(_) => {},
    }
}

/// Every configured key is also usable as a regex that matches a whole name. The
/// patterns come in the order of their keys, so that overlapping ones resolve the
/// same way on every run. A key that is no regex by itself (stray parens etc.) has
/// no pattern and still works as an exact name.
pub fn compile_patterns(defaults: &StringMap<LayoutIndex>) -> (patterns: Vec<(Regex, LayoutIndex)>)
    ensures
        pattern_views(patterns@) == compiled_patterns(string_map::sorted_entries(defaults@)),
{
    let mut patterns: Vec<(Regex, LayoutIndex)> = Vec::new();
    let mut i: usize = 0;
    let n: usize = defaults.len();
    let ghost entries = string_map::sorted_entries(defaults@);
    while i < n
        invariant
            i <= n,
            entries == string_map::sorted_entries(defaults@),
            n == entries.len(),
            pattern_views(patterns@) =~= compiled_patterns(entries.take(i as int)),
        decreases n - i,
    {
        let (key, layout) = defaults.entry(i);
        let ghost done = entries.take(i as int);
        proof {
            assert(entries.take(i + 1).drop_last() =~= done);
            assert(entries.take(i + 1).last() == entries[i as int]);
        }
        if Regex::new(key.as_str()).is_ok() {
            let mut text = String::new();
            text.append("^(?:");
            text.append(key.as_str());
            text.append(")$");
            assert(text@ =~= anchored(key@));
            let ghost before = patterns@;
            let compiled = Regex::new(text.as_str());
            let ghost result = compiled;
            keep_compiled(&mut patterns, compiled, layout);
            proof {
                if let Ok(regex) = result {
                    assert(pattern_views(patterns@) =~= pattern_views(before).push(
                        (regex_text(regex), layout),
                    ));
                }
            }
        }
        i += 1;
    }
    proof {
        assert(entries.take(i as int) =~= entries);
    }
    patterns
}

/// Configured layouts, ready to be looked up.
#[derive(Debug, Clone)]
pub struct LayoutRules {
    exact: StringMap<LayoutIndex>,
    patterns: Vec<(Regex, LayoutIndex)>,
}

impl View for LayoutRules {
    type V = RulesView;

    closed spec fn view(&self) -> RulesView {
        RulesView { exact: self.exact@, patterns: pattern_views(self.patterns@) }
    }
}

impl LayoutRules {
    /// Prepares the configured layouts.
    pub fn new(defaults: StringMap<LayoutIndex>) -> (rules: Self)
        ensures
            rules@.exact == defaults@,
            rules@.patterns == compiled_patterns(string_map::sorted_entries(defaults@)),
    {
        let patterns = compile_patterns(&defaults);
        LayoutRules { exact: defaults, patterns }
    }

    /// The layout configured for a name: an exact entry wins over the patterns,
    /// and of those the first that matches the whole name.
    pub fn lookup(&self, name: &str) -> (layout: Option<LayoutIndex>)
        ensures
            layout == self@.lookup(name@),
    {
        let exact = self.exact.get(name);
        if exact.is_some() {
            return exact;
        }
        let mut candidates: Vec<(bool, LayoutIndex)> = Vec::new();
        let ghost results = match_results(self@.patterns, name@);
        let mut i: usize = 0;
        while i < self.patterns.len()
            invariant
                i <= self.patterns.len(),
                results == match_results(self@.patterns, name@),
                candidates@ =~= results.take(i as int),
            decreases self.patterns.len() - i,
        {
            let found = self.patterns[i].0.is_match(name);
            candidates.push((found, self.patterns[i].1));
            proof {
                assert(self@.patterns[i as int] == (
                    regex_text(self.patterns@[i as int].0),
                    self.patterns@[i as int].1,
                ));
                assert(results[i as int] == (found, self.patterns@[i as int].1));
            }
            i += 1;
        }
        proof {
            assert(results.take(i as int) =~= results);
        }
        choose_layout(exact, candidates.as_slice())
    }
}

/// An exact entry wins over every pattern.
pub proof fn law_exact_entry_wins(rules: RulesView, name: Text)
    requires
        rules.exact.contains_key(name),
    ensures
        rules.lookup(name) == Some(rules.exact[name]),
{
}

/// The layout that a pattern gives comes from the first pattern that matches, and there
/// is one just where a pattern matches.
proof fn lemma_first_match(candidates: Seq<(bool, LayoutIndex)>)
    ensures
        match chosen_layout(None, candidates) {
            Some(layout) => exists|i: int|
                0 <= i < candidates.len() && #[trigger] candidates[i] == (true, layout)
                    && forall|j: int| 0 <= j < i ==> !(#[trigger] candidates[j]).0,
            None => forall|i: int| 0 <= i < candidates.len() ==> !(#[trigger] candidates[i]).0,
        },
    decreases candidates.len(),
{
    if candidates.len() > 0 {
        let rest = candidates.drop_first();
        if candidates[0].0 {
            assert(candidates[0] == (true, candidates[0].1));
        } else {
            lemma_first_match(rest);
            match chosen_layout(None, rest) {
                Some(layout) => {
                    let i = choose|i: int|
                        0 <= i < rest.len() && #[trigger] rest[i] == (true, layout) && forall|j: int|
                            0 <= j < i ==> !(#[trigger] rest[j]).0;
                    assert(candidates[i + 1] == (true, layout));
                    assert forall|j: int| 0 <= j < i + 1 implies !(#[trigger] candidates[j]).0 by {
                        if j > 0 {
                            assert(candidates[j] == rest[j - 1]);
                        }
                    }
                },
                None => {
                    assert forall|i: int| 0 <= i < candidates.len() implies !(
                    #[trigger] candidates[i]).0 by {
                        if i > 0 {
                            assert(candidates[i] == rest[i - 1]);
                        }
                    }
                },
            }
        }
    }
}

/// Without an exact entry, a name has the layout of the first pattern that matches it,
/// and none where no pattern does.
pub proof fn law_first_pattern_decides(rules: RulesView, name: Text)
    requires
        !rules.exact.contains_key(name),
    ensures
        match rules.lookup(name) {
            Some(layout) => exists|i: int|
                0 <= i < rules.patterns.len() && regex_matches((#[trigger] rules.patterns[i]).0, name)
                    && rules.patterns[i].1 == layout && forall|j: int|
                    0 <= j < i ==> !regex_matches((#[trigger] rules.patterns[j]).0, name),
            None => forall|i: int|
                0 <= i < rules.patterns.len() ==> !regex_matches(
                    (#[trigger] rules.patterns[i]).0,
                    name,
                ),
        },
{
    let results = match_results(rules.patterns, name);
    lemma_first_match(results);
    assert forall|i: int| 0 <= i < rules.patterns.len() implies #[trigger] results[i] == (
        regex_matches(rules.patterns[i].0, name),
        rules.patterns[i].1,
    ) by {}
    match rules.lookup(name) {
        Some(layout) => {
            let i = choose|i: int|
                0 <= i < results.len() && #[trigger] results[i] == (true, layout) && forall|j: int|
                    0 <= j < i ==> !(#[trigger] results[j]).0;
            assert(regex_matches(rules.patterns[i].0, name));
            assert forall|j: int| 0 <= j < i implies !regex_matches(
                (#[trigger] rules.patterns[j]).0,
                name,
            ) by {
                assert(!results[j].0);
            }
        },
        None => {
            assert forall|i: int| 0 <= i < rules.patterns.len() implies !regex_matches(
                (#[trigger] rules.patterns[i]).0,
                name,
            ) by {
                assert(!results[i].0);
            }
        },
    }
}

/// The table of keys alone decides the patterns and their order, however it came about:
/// they are those of the keys in ascending order.
pub proof fn law_patterns_in_order(entries: Seq<(Text, LayoutIndex)>)
    requires
        string_map::ascending(entries),
    ensures
        compiled_patterns(string_map::sorted_entries(string_map::entries_map(entries)))
            == compiled_patterns(entries),
{
    string_map::lemma_sorted_entries(entries);
}

/// Every pattern comes from an entry whose key is a regex by itself, is that key as a whole
/// name, and stands for the layout of that entry.
pub proof fn law_patterns_from_keys(entries: Seq<(Text, LayoutIndex)>, i: int)
    requires
        0 <= i < compiled_patterns(entries).len(),
    ensures
        exists|j: int|
            {
                &&& 0 <= j < entries.len()
                &&& regex_compiles((#[trigger] entries[j]).0, usize::BITS)
                &&& compiled_patterns(entries)[i] == (anchored(entries[j].0), entries[j].1)
            },
    decreases entries.len(),
{
    let before = entries.drop_last();
    let last = entries.len() - 1;
    if i < compiled_patterns(before).len() {
        law_patterns_from_keys(before, i);
        let j = choose|j: int|
            {
                &&& 0 <= j < before.len()
                &&& regex_compiles((#[trigger] before[j]).0, usize::BITS)
                &&& compiled_patterns(before)[i] == (anchored(before[j].0), before[j].1)
            };
        assert(entries[j] == before[j]);
    } else {
        assert(entries[last] == entries.last());
        assert(regex_compiles(entries[last].0, usize::BITS));
    }
}

/// A key that is no regex by itself works as an exact name only: the patterns are those
/// of the other keys.
pub proof fn law_exact_name_only(entries: Seq<(Text, LayoutIndex)>, i: int)
    requires
        0 <= i < entries.len(),
        !regex_compiles(entries[i].0, usize::BITS),
    ensures
        compiled_patterns(entries.remove(i)) == compiled_patterns(entries),
    decreases entries.len(),
{
    let before = entries.drop_last();
    let others = entries.remove(i);
    if i == before.len() {
        assert(others =~= before);
    } else {
        law_exact_name_only(before, i);
        assert(others.drop_last() =~= before.remove(i));
        assert(others.last() == entries.last());
    }
}

/// The key is a regex, by itself and as a whole name, and matches the name.
pub open spec fn key_matches(key: Text, name: Text) -> bool {
    &&& regex_compiles(key, usize::BITS)
    &&& regex_compiles(anchored(key), usize::BITS)
    &&& regex_matches(anchored(key), name)
}

/// One more candidate counts where none before it matched.
proof fn lemma_choose_push(candidates: Seq<(bool, LayoutIndex)>, more: (bool, LayoutIndex))
    ensures
        chosen_layout(None, candidates.push(more)) == match chosen_layout(None, candidates) {
            Some(layout) => Some(layout),
            None => if more.0 {
                Some(more.1)
            } else {
                None
            },
        },
    decreases candidates.len(),
{
    let all = candidates.push(more);
    if candidates.len() == 0 {
        assert(all.drop_first() =~= Seq::<(bool, LayoutIndex)>::empty());
        assert(chosen_layout(None, all.drop_first()) == None::<LayoutIndex>);
    } else {
        lemma_choose_push(candidates.drop_first(), more);
        assert(all.drop_first() =~= candidates.drop_first().push(more));
    }
}

/// The patterns of a list of entries give the layout of the first entry whose key matches.
proof fn lemma_first_key(entries: Seq<(Text, LayoutIndex)>, name: Text)
    ensures
        match chosen_layout(None, match_results(compiled_patterns(entries), name)) {
            Some(layout) => exists|i: int|
                {
                    &&& 0 <= i < entries.len()
                    &&& key_matches((#[trigger] entries[i]).0, name)
                    &&& entries[i].1 == layout
                    &&& forall|j: int| 0 <= j < i ==> !key_matches((#[trigger] entries[j]).0, name)
                },
            None => forall|i: int|
                0 <= i < entries.len() ==> !key_matches((#[trigger] entries[i]).0, name),
        },
    decreases entries.len(),
{
    if entries.len() > 0 {
        let before = entries.drop_last();
        let last = entries.len() - 1;
        let found = match_results(compiled_patterns(before), name);
        lemma_first_key(before, name);
        assert forall|j: int| 0 <= j < before.len() implies before[j] == #[trigger] entries[j] by {}
        assert(entries[last] == entries.last());
        let pattern = anchored(entries.last().0);
        let more = (regex_matches(pattern, name), entries.last().1);
        lemma_choose_push(found, more);
        if regex_compiles(entries.last().0, usize::BITS) && regex_compiles(pattern, usize::BITS) {
            assert(match_results(compiled_patterns(entries), name) =~= found.push(more));
        }
        match chosen_layout(None, found) {
            Some(layout) => {
                let i = choose|i: int|
                    {
                        &&& 0 <= i < before.len()
                        &&& key_matches((#[trigger] before[i]).0, name)
                        &&& before[i].1 == layout
                        &&& forall|j: int|
                            0 <= j < i ==> !key_matches((#[trigger] before[j]).0, name)
                    };
                assert(key_matches(entries[i].0, name));
                assert forall|j: int| 0 <= j < i implies !key_matches(
                    (#[trigger] entries[j]).0,
                    name,
                ) by {
                    assert(!key_matches(before[j].0, name));
                }
            },
            None => {
                assert forall|j: int| 0 <= j < last implies !key_matches(
                    (#[trigger] entries[j]).0,
                    name,
                ) by {
                    assert(!key_matches(before[j].0, name));
                }
                if key_matches(entries[last].0, name) {
                    assert(chosen_layout(
                        None,
                        match_results(compiled_patterns(entries), name),
                    ) == Some(entries[last].1));
                }
            },
        }
    }
}

/// Of the keys that match a name without an exact entry, the smallest decides; where none
/// matches, the name has no layout.
pub proof fn law_smallest_key_decides(table: Map<Text, LayoutIndex>, name: Text)
    requires
        table.dom().finite(),
        !table.contains_key(name),
    ensures
        ({
            let rules = RulesView {
                exact: table,
                patterns: compiled_patterns(string_map::sorted_entries(table)),
            };
            match rules.lookup(name) {
                Some(layout) => exists|key: Text|
                    {
                        &&& #[trigger] table.contains_key(key)
                        &&& key_matches(key, name)
                        &&& table[key] == layout
                        &&& forall|other: Text| #[trigger]
                            table.contains_key(other) && key_matches(other, name) ==> other == key
                                || text::text_before(key, other)
                    },
                None => forall|key: Text| #[trigger]
                    table.contains_key(key) ==> !key_matches(key, name),
            }
        }),
{
    let entries = string_map::sorted_entries(table);
    string_map::law_sorted_entries(table);
    lemma_first_key(entries, name);
    assert forall|key: Text| #[trigger] table.contains_key(key) implies string_map::has_key(
        entries,
        key,
    ) by {
        assert(string_map::entries_map(entries).contains_key(key));
    }
    match chosen_layout(None, match_results(compiled_patterns(entries), name)) {
        Some(layout) => {
            let i = choose|i: int|
                {
                    &&& 0 <= i < entries.len()
                    &&& key_matches((#[trigger] entries[i]).0, name)
                    &&& entries[i].1 == layout
                    &&& forall|j: int| 0 <= j < i ==> !key_matches((#[trigger] entries[j]).0, name)
                };
            let key = entries[i].0;
            string_map::lemma_entry(entries, i);
            assert(table.contains_key(key));
            assert forall|other: Text| #[trigger]
                table.contains_key(other) && key_matches(other, name) implies other == key
                || text::text_before(key, other) by {
                let j = choose|j: int|
                    0 <= j < entries.len() && (#[trigger] entries[j]).0 == other;
                assert(string_map::has_key(entries, other));
                if j < i {
                    assert(!key_matches(entries[j].0, name));
                } else if i < j {
                    assert(text::text_before(entries[i].0, entries[j].0));
                }
            }
        },
        None => {
            assert forall|key: Text| #[trigger] table.contains_key(key) implies !key_matches(
                key,
                name,
            ) by {
                assert(string_map::has_key(entries, key));
                let j = choose|j: int| 0 <= j < entries.len() && (#[trigger] entries[j]).0 == key;
                assert(!key_matches(entries[j].0, name));
            }
        },
    }
}

} // verus!
