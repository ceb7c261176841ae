//! The daemon's configuration.

use vstd::prelude::*;
use vstd::string::*;
use vstd::utf8::*;

use crate::numbers;
use crate::paths;
use crate::state::LayoutIndex;
use crate::string_map::StringMap;
use crate::text;
#[allow(unused_imports)]
use crate::text::Text;

verus! {

/// Which keyboards to watch and switch, and the layouts to start from.
#[derive(Debug, Clone, PartialEq, Eq)]
pub struct Config {
    pub keyboards: KeyboardConfig,
    pub default_layouts: StringMap<LayoutIndex>,
    pub layer_layouts: StringMap<LayoutIndex>,
}

/// Which keyboards to watch and switch.
#[derive(Debug, Clone, PartialEq, Eq)]
pub struct KeyboardConfig {
    pub include_names: Vec<String>,
    pub exclude_contains: Vec<String>,
}

/// Why there is no configuration.
#[derive(Debug)]
pub enum ConfigError {
    /// The file could not be read, with the reason.
    Io(String),
    /// The file is not the TOML that is wanted, with the reason.
    Parse(String),
    /// A layout index does not fit.
    InvalidLayoutIndex { class_name: String, value: u16 },
}

/// What stands in the configuration file, before the layout indexes are checked.
/// A table is a list of its entries.
#[derive(Debug)]
pub struct RawConfig {
    pub keyboards: Option<RawKeyboardConfig>,
    pub default_layouts: Option<Vec<(String, u16)>>,
    pub layer_layouts: Option<Vec<(String, u16)>>,
}

/// The `keyboards` table of the configuration file.
#[derive(Debug)]
pub struct RawKeyboardConfig {
    pub include_names: Vec<String>,
    pub exclude_contains: Option<Vec<String>>,
}

/// What there is at the path of the configuration file.
#[derive(Debug)]
pub enum ConfigFile {
    /// No file.
    Missing,
    /// A file that could not be read, with the reason.
    Unreadable(String),
    /// A file that is not the TOML that is wanted, with the reason.
    Malformed(String),
    /// A file with these tables.
    Tables(RawConfig),
}

/// The fragments that exclude a keyboard where the file names none.
pub open spec fn default_excludes() -> Seq<Text> {
    seq!["wlr_virtual_keyboard_v"@, "yubikey"@]
}

/// Some fragment that is not empty stands in the keyboard's name.
pub open spec fn excluded_by(fragments: Seq<Text>, keyboard: Text) -> bool {
    exists|i: int|
        0 <= i < fragments.len() && (#[trigger] fragments[i]).len() > 0 && text::contains_text(
            keyboard,
            fragments[i],
        )
}

/// Whether a fragment excludes a keyboard.
pub fn is_excluded_by(fragments: &[String], keyboard: &str) -> (excluded: bool)
    ensures
        excluded == excluded_by(text::texts(fragments@), keyboard@),
{
    let mut i: usize = 0;
    while i < fragments.len()
        invariant
            i <= fragments.len(),
            forall|j: int|
                0 <= j < i ==> !((#[trigger] text::texts(fragments@)[j]).len() > 0
                    && text::contains_text(keyboard@, text::texts(fragments@)[j])),
        decreases fragments.len() - i,
    {
        let fragment = fragments[i].as_str();
        assert(text::texts(fragments@)[i as int] == fragment@);
        if !fragment.is_empty() && text::contains(keyboard, fragment) {
            return true;
        }
        i += 1;
    }
    false
}

impl KeyboardConfig {
    /// Whether the keyboard is excluded by its name.
    pub fn is_excluded(&self, keyboard: &str) -> (excluded: bool)
        ensures
            excluded == excluded_by(text::texts(self.exclude_contains@), keyboard@),
    {
        is_excluded_by(self.exclude_contains.as_slice(), keyboard)
    }

    /// Whether the keyboards are named one by one.
    pub fn is_configured(&self) -> (configured: bool)
        ensures
            configured == (self.include_names@.len() > 0),
    {
        self.include_names.len() > 0
    }
}

fn make_default_excludes() -> (excludes: Vec<String>)
    ensures
        text::texts(excludes@) == default_excludes(),
{
    let mut excludes: Vec<String> = Vec::new();
    excludes.push("wlr_virtual_keyboard_v".to_owned());
    excludes.push("yubikey".to_owned());
    assert(text::texts(excludes@) =~= default_excludes());
    excludes
}

impl Default for KeyboardConfig {
    fn default() -> (config: Self)
        ensures
            config.include_names@.len() == 0,
            text::texts(config.exclude_contains@) == default_excludes(),
    {
        KeyboardConfig { include_names: Vec::new(), exclude_contains: make_default_excludes() }
    }
}

impl Config {
    /// The configuration that holds where no file says otherwise.
    pub open spec fn is_default(self) -> bool {
        &&& self.keyboards.include_names@.len() == 0
        &&& text::texts(self.keyboards.exclude_contains@) == default_excludes()
        &&& self.default_layouts@ == Map::<Text, LayoutIndex>::empty()
        &&& self.layer_layouts@ == Map::<Text, LayoutIndex>::empty()
    }
}

impl Default for Config {
    fn default() -> (config: Self)
        ensures
            config.is_default(),
    {
        Config {
            keyboards: KeyboardConfig::default(),
            default_layouts: StringMap::new(),
            layer_layouts: StringMap::new(),
        }
    }
}

/// The entries of a table.
pub open spec fn raw_entries(table: Option<Vec<(String, u16)>>) -> Seq<(Text, u16)> {
    match table {
        Some(entries) => entries@.map_values(|e: (String, u16)| (e.0@, e.1)),
        None => Seq::empty(),
    }
}

/// The first entry whose value is too large for a layout index.
pub open spec fn first_too_large(entries: Seq<(Text, u16)>) -> Option<(Text, u16)>
    decreases entries.len(),
{
    if entries.len() == 0 {
        None
    } else {
        match first_too_large(entries.drop_last()) {
            Some(entry) => Some(entry),
            None => if entries.last().1 > LayoutIndex::MAX {
                Some(entries.last())
            } else {
                None
            },
        }
    }
}

/// The table that the entries make; of two with one key the later one counts.
pub open spec fn layout_table(entries: Seq<(Text, u16)>) -> Map<Text, LayoutIndex>
    decreases entries.len(),
{
    if entries.len() == 0 {
        Map::empty()
    } else {
        layout_table(entries.drop_last()).insert(
            entries.last().0,
            entries.last().1 as LayoutIndex,
        )
    }
}

/// Checks the layout indexes of a table, in the order in which its entries come.
fn read_layouts(table: Option<Vec<(String, u16)>>) -> (layouts: Result<
    StringMap<LayoutIndex>,
    ConfigError,
>)
    ensures
        match layouts {
            Ok(map) => first_too_large(raw_entries(table)) is None && map@ == layout_table(
                raw_entries(table),
            ),
            Err(ConfigError::InvalidLayoutIndex { class_name, value }) => first_too_large(
                raw_entries(table),
            ) == Some((class_name@, value)),
            Err(_) => false,
        },
{
    let mut layouts: StringMap<LayoutIndex> = StringMap::new();
    let ghost all = raw_entries(table);
    match &table {
        Some(entries) => {
            let mut i: usize = 0;
            while i < entries.len()
                invariant
                    i <= entries.len(),
                    all == raw_entries(table),
                    all == entries@.map_values(|e: (String, u16)| (e.0@, e.1)),
                    first_too_large(all.take(i as int)) is None,
                    layouts@ == layout_table(all.take(i as int)),
                decreases entries.len() - i,
            {
                let value: u16 = entries[i].1;
                proof {
                    assert(all.take(i + 1).drop_last() =~= all.take(i as int));
                    assert(all.take(i + 1).last() == (entries@[i as int].0@, value));
                }
                if value > 255 {
                    proof {
                        lemma_first_too_large(all, i + 1);
                    }
                    return Err(
                        ConfigError::InvalidLayoutIndex {
                            class_name: entries[i].0.clone(),
                            value,
                        },
                    );
                }
                layouts.insert(entries[i].0.clone(), value as LayoutIndex);
                i += 1;
            }
            assert(all.take(i as int) =~= all);
        },
        None => {},
    }
    Ok(layouts)
}

/// The first entry that is too large stays the first.
proof fn lemma_first_too_large(entries: Seq<(Text, u16)>, i: int)
    requires
        0 <= i <= entries.len(),
        first_too_large(entries.take(i)) is Some,
    ensures
        first_too_large(entries) == first_too_large(entries.take(i)),
    decreases entries.len() - i,
{
    if i < entries.len() {
        assert(entries.take(i + 1).drop_last() =~= entries.take(i));
        lemma_first_too_large(entries, i + 1);
    } else {
        assert(entries.take(i) =~= entries);
    }
}

/// The keyboards that the file names.
pub open spec fn raw_include(raw: RawConfig) -> Seq<Text> {
    match raw.keyboards {
        Some(keyboards) => text::texts(keyboards.include_names@),
        None => Seq::empty(),
    }
}

/// The fragments that the file names, or the default ones where it names none.
pub open spec fn raw_excludes(raw: RawConfig) -> Seq<Text> {
    match raw.keyboards {
        Some(RawKeyboardConfig { exclude_contains: Some(fragments), .. }) => text::texts(fragments@),
        _ => default_excludes(),
    }
}

/// The entry that makes a file unusable: the first too large one of the classes,
/// or else of the layers.
pub open spec fn raw_too_large(raw: RawConfig) -> Option<(Text, u16)> {
    match first_too_large(raw_entries(raw.default_layouts)) {
        Some(entry) => Some(entry),
        None => first_too_large(raw_entries(raw.layer_layouts)),
    }
}

/// What the tables of a file come to: a configuration where every layout index fits, else
/// an error that names the first one that does not.
pub open spec fn parsed(raw: RawConfig, config: Result<Config, ConfigError>) -> bool {
    match config {
        Ok(c) => {
            &&& raw_too_large(raw) is None
            &&& text::texts(c.keyboards.include_names@) == raw_include(raw)
            &&& text::texts(c.keyboards.exclude_contains@) == raw_excludes(raw)
            &&& c.default_layouts@ == layout_table(raw_entries(raw.default_layouts))
            &&& c.layer_layouts@ == layout_table(raw_entries(raw.layer_layouts))
        },
        Err(ConfigError::InvalidLayoutIndex { class_name, value }) => raw_too_large(raw) == Some(
            (class_name@, value),
        ),
        Err(_) => false,
    }
}

/// Checks what stands in the configuration file and fills in what it leaves out.
pub fn parse(raw: RawConfig) -> (config: Result<Config, ConfigError>)
    ensures
        parsed(raw, config),
{
    let default_layouts = match read_layouts(raw.default_layouts) {
        Ok(layouts) => layouts,
        Err(err) => {
            return Err(err);
        },
    };
    let layer_layouts = match read_layouts(raw.layer_layouts) {
        Ok(layouts) => layouts,
        Err(err) => {
            return Err(err);
        },
    };
    let keyboards = match raw.keyboards {
        Some(keyboards) => KeyboardConfig {
            include_names: keyboards.include_names,
            exclude_contains: match keyboards.exclude_contains {
                Some(fragments) => fragments,
                None => make_default_excludes(),
            },
        },
        None => {
            let keyboards = KeyboardConfig::default();
            assert(text::texts(keyboards.include_names@) =~= Seq::<Text>::empty());
            keyboards
        },
    };
    Ok(Config { keyboards, default_layouts, layer_layouts })
}

/// A file that says nothing means the same as no file.
pub proof fn law_empty_file(raw: RawConfig)
    requires
        raw.keyboards is None,
        raw.default_layouts is None,
        raw.layer_layouts is None,
    ensures
        raw_too_large(raw) is None,
        raw_include(raw) == Seq::<Text>::empty(),
        raw_excludes(raw) == default_excludes(),
        layout_table(raw_entries(raw.default_layouts)) == Map::<Text, LayoutIndex>::empty(),
        layout_table(raw_entries(raw.layer_layouts)) == Map::<Text, LayoutIndex>::empty(),
{
}

/// A file is usable just where every layout index of both tables is small enough.
pub proof fn law_usable_file(raw: RawConfig)
    ensures
        raw_too_large(raw) is None <==> {
            &&& forall|i: int|
                0 <= i < raw_entries(raw.default_layouts).len() ==> (#[trigger] raw_entries(
                    raw.default_layouts,
                )[i]).1 <= LayoutIndex::MAX
            &&& forall|i: int|
                0 <= i < raw_entries(raw.layer_layouts).len() ==> (#[trigger] raw_entries(
                    raw.layer_layouts,
                )[i]).1 <= LayoutIndex::MAX
        },
{
    lemma_none_too_large(raw_entries(raw.default_layouts));
    lemma_none_too_large(raw_entries(raw.layer_layouts));
}

/// There is no first one just where there is none.
proof fn lemma_none_too_large(entries: Seq<(Text, u16)>)
    ensures
        first_too_large(entries) is None <==> forall|i: int|
            0 <= i < entries.len() ==> (#[trigger] entries[i]).1 <= LayoutIndex::MAX,
    decreases entries.len(),
{
    if entries.len() > 0 {
        let before = entries.drop_last();
        lemma_none_too_large(before);
        assert forall|i: int| 0 <= i < before.len() implies before[i] == #[trigger] entries[i] by {}
        assert(entries[entries.len() - 1] == entries.last());
        if first_too_large(before) is Some {
            let i = choose|i: int|
                0 <= i < before.len() && (#[trigger] before[i]).1 > LayoutIndex::MAX;
            assert(entries[i].1 > LayoutIndex::MAX);
        }
    }
}

/// Where no key stands twice, a table gives each key the layout that stands beside it,
/// and holds no other key. The order of the entries does not matter.
pub proof fn law_layout_table(entries: Seq<(Text, u16)>, key: Text)
    requires
        forall|i: int, j: int|
            0 <= i < j < entries.len() ==> (#[trigger] entries[i]).0 != (#[trigger] entries[j]).0,
    ensures
        layout_table(entries).contains_key(key) <==> exists|i: int|
            0 <= i < entries.len() && (#[trigger] entries[i]).0 == key,
        forall|i: int|
            0 <= i < entries.len() && (#[trigger] entries[i]).0 == key ==> layout_table(
                entries,
            )[key] == entries[i].1 as LayoutIndex,
    decreases entries.len(),
{
    if entries.len() > 0 {
        let before = entries.drop_last();
        let last = entries.len() - 1;
        assert forall|i: int, j: int| 0 <= i < j < before.len() implies (#[trigger] before[i]).0
            != (#[trigger] before[j]).0 by {
            assert(before[i] == entries[i] && before[j] == entries[j]);
        }
        law_layout_table(before, key);
        assert(entries[last] == entries.last());
        assert forall|i: int| 0 <= i < entries.len() && (#[trigger] entries[i]).0
            == key implies layout_table(entries)[key] == entries[i].1 as LayoutIndex by {
            if i < last {
                assert(before[i] == entries[i]);
                assert(entries[i].0 != entries[last].0);
            }
        }
        if layout_table(entries).contains_key(key) {
            if key == entries[last].0 {
            } else {
                let i = choose|i: int| 0 <= i < before.len() && (#[trigger] before[i]).0 == key;
                assert(entries[i].0 == key);
            }
        }
        if exists|i: int| 0 <= i < entries.len() && (#[trigger] entries[i]).0 == key {
            let i = choose|i: int| 0 <= i < entries.len() && (#[trigger] entries[i]).0 == key;
            if i < last {
                assert(before[i].0 == key);
            }
        }
    }
}

/// An empty fragment excludes no keyboard.
pub proof fn law_empty_fragment(fragments: Seq<Text>, keyboard: Text)
    ensures
        excluded_by(fragments.push(Seq::empty()), keyboard) == excluded_by(fragments, keyboard),
{
    let more = fragments.push(Seq::empty());
    if excluded_by(fragments, keyboard) {
        let i = choose|i: int|
            0 <= i < fragments.len() && (#[trigger] fragments[i]).len() > 0 && text::contains_text(
                keyboard,
                fragments[i],
            );
        assert(more[i] == fragments[i]);
    }
    if excluded_by(more, keyboard) {
        let i = choose|i: int|
            0 <= i < more.len() && (#[trigger] more[i]).len() > 0 && text::contains_text(
                keyboard,
                more[i],
            );
        assert(fragments[i] == more[i]);
    }
}

/// The path of the configuration file under a base directory.
pub open spec fn config_path(base: Seq<u8>) -> Seq<u8> {
    paths::joined(
        paths::joined(base, encode_utf8("hypr-kblayoutd"@)),
        encode_utf8("config.toml"@),
    )
}

/// The base directory for configurations: `XDG_CONFIG_HOME`, or else `.config` in
/// `HOME`.
pub open spec fn config_base(xdg_config_home: Option<&[u8]>, home: Option<&[u8]>) -> Option<
    Seq<u8>,
> {
    match (xdg_config_home, home) {
        (Some(base), _) => Some(base@),
        (None, Some(home)) => Some(paths::joined(home@, encode_utf8(".config"@))),
        (None, None) => None,
    }
}

/// Where the configuration file is, by the values of `XDG_CONFIG_HOME` and `HOME`.
pub fn default_config_path(xdg_config_home: Option<&[u8]>, home: Option<&[u8]>) -> (path: Option<
    Vec<u8>,
>)
    ensures
        path is Some <==> config_base(xdg_config_home, home) is Some,
        path matches Some(p) ==> config_base(xdg_config_home, home) matches Some(base) && p@
            == config_path(base),
{
    let base: Vec<u8> = match xdg_config_home {
        Some(base) => vstd::slice::slice_to_vec(base),
        None => match home {
            Some(home) => paths::join_str(home, ".config"),
            None => {
                return None;
            },
        },
    };
    let directory = paths::join_str(base.as_slice(), "hypr-kblayoutd");
    Some(paths::join_str(directory.as_slice(), "config.toml"))
}

/// What a file comes to: the default configuration where there is none, what its tables
/// come to where it has any, else an error with the reason.
pub open spec fn loaded(file: ConfigFile, config: Result<Config, ConfigError>) -> bool {
    match file {
        ConfigFile::Missing => config matches Ok(c) && c.is_default(),
        ConfigFile::Unreadable(reason) => config == Err::<Config, ConfigError>(
            ConfigError::Io(reason),
        ),
        ConfigFile::Malformed(reason) => config == Err::<Config, ConfigError>(
            ConfigError::Parse(reason),
        ),
        ConfigFile::Tables(raw) => parsed(raw, config),
    }
}

/// What the usual place comes to: the file counts where there is a base directory, else
/// the configuration is the default one.
pub open spec fn loaded_by_default(
    base: Option<Seq<u8>>,
    file: ConfigFile,
    config: Result<Config, ConfigError>,
) -> bool {
    match base {
        Some(_) => loaded(file, config),
        None => config matches Ok(c) && c.is_default(),
    }
}

/// Whatever the files are, the configuration is the default one where there is no base
/// directory or no file at the path under it; where there is a file, it comes to what its
/// tables come to, or to an error that says that it could not be read or is malformed.
pub proof fn law_load_default(
    xdg_config_home: Option<&[u8]>,
    home: Option<&[u8]>,
    files: spec_fn(Seq<u8>) -> ConfigFile,
    file: ConfigFile,
    config: Result<Config, ConfigError>,
)
    requires
        config_base(xdg_config_home, home) matches Some(base) ==> file == files(config_path(base)),
        loaded_by_default(config_base(xdg_config_home, home), file, config),
    ensures
        match config_base(xdg_config_home, home) {
            Some(base) => match files(config_path(base)) {
                ConfigFile::Missing => config matches Ok(c) && c.is_default(),
                ConfigFile::Unreadable(reason) => config matches Err(ConfigError::Io(r)) && r
                    == reason,
                ConfigFile::Malformed(reason) => config matches Err(ConfigError::Parse(r)) && r
                    == reason,
                ConfigFile::Tables(raw) => parsed(raw, config),
            },
            None => config matches Ok(c) && c.is_default(),
        },
{
}

/// The configuration from its usual place, by the values of `XDG_CONFIG_HOME` and `HOME`
/// and by what there is at the path that they give. Where they give none, no file counts
/// and the configuration is the default one.
pub fn load_default(
    xdg_config_home: Option<&[u8]>,
    home: Option<&[u8]>,
    file: ConfigFile,
) -> (config: Result<Config, ConfigError>)
    ensures
        loaded_by_default(config_base(xdg_config_home, home), file, config),
{
    match default_config_path(xdg_config_home, home) {
        Some(_) => load_optional(file),
        None => Ok(Config::default()),
    }
}

/// The configuration of a file, or the default one where there is no file.
pub fn load_optional(file: ConfigFile) -> (config: Result<Config, ConfigError>)
    ensures
        loaded(file, config),
{
    match file {
        ConfigFile::Missing => Ok(Config::default()),
        ConfigFile::Unreadable(reason) => Err(ConfigError::Io(reason)),
        ConfigFile::Malformed(reason) => Err(ConfigError::Parse(reason)),
        ConfigFile::Tables(raw) => parse(raw),
    }
}

/// How `{:?}` writes a string: in quotes, with escapes.
pub uninterp spec fn debug_text(s: Seq<char>) -> Seq<char>;

/// `<str as Debug>::fmt`, through `format!` with `{:?}`: a text decided by the
/// string alone. Which characters it escapes, and how, is left to the standard
/// library.
#[verifier::external_body]
pub(crate) fn quoted(s: &str) -> (quoted: String)
    ensures
        quoted@ == debug_text(s@),
{
    format!("{:?}", s)
}

/// The message for a layout index that does not fit, with the class in quotes.
pub open spec fn index_message(quoted_class: Text, value: u16) -> Text {
    "layout index "@ + numbers::decimal_text(value as nat) + " for class "@ + quoted_class
        + " is too large"@
}

/// Writes the message for a layout index that does not fit.
pub fn layout_index_message(quoted_class: &str, value: u16) -> (message: String)
    ensures
        message@ == index_message(quoted_class@, value),
{
    let mut message = String::new();
    message.append("layout index ");
    numbers::append_decimal(&mut message, value as u64);
    message.append(" for class ");
    message.append(quoted_class);
    message.append(" is too large");
    assert(message@ =~= index_message(quoted_class@, value));
    message
}

impl ConfigError {
    /// What to tell the user.
    pub open spec fn text(self) -> Text {
        match self {
            ConfigError::Io(err) => "failed to read config: "@ + err@,
            ConfigError::Parse(err) => "failed to parse config: "@ + err@,
            ConfigError::InvalidLayoutIndex { class_name, value } => index_message(
                debug_text(class_name@),
                value,
            ),
        }
    }

    /// What to tell the user.
    pub fn message(&self) -> (message: String)
        ensures
            message@ == self.text(),
    {
        match self {
            ConfigError::Io(err) => "failed to read config: ".to_owned().concat(err.as_str()),
            ConfigError::Parse(err) => "failed to parse config: ".to_owned().concat(err.as_str()),
            ConfigError::InvalidLayoutIndex { class_name, value } => layout_index_message(
                quoted(class_name.as_str()).as_str(),
                *value,
            ),
        }
    }
}

/// A keyboard is excluded just where its name is some fragment, not an empty one, with
/// something, or nothing, on both sides.
pub proof fn law_excluded(fragments: Seq<Text>, keyboard: Text)
    ensures
        excluded_by(fragments, keyboard) <==> exists|fragment: Text, before: Text, after: Text|
            {
                &&& fragments.contains(fragment)
                &&& fragment.len() > 0
                &&& keyboard == #[trigger] (before + fragment + after)
            },
{
    if excluded_by(fragments, keyboard) {
        let i = choose|i: int|
            0 <= i < fragments.len() && (#[trigger] fragments[i]).len() > 0 && text::contains_text(
                keyboard,
                fragments[i],
            );
        text::law_contains_text(keyboard, fragments[i]);
        let (before, after) = choose|before: Text, after: Text|
            keyboard == #[trigger] (before + fragments[i] + after);
        assert(fragments.contains(fragments[i]));
        assert(keyboard == before + fragments[i] + after);
    }
    if exists|fragment: Text, before: Text, after: Text|
        {
            &&& fragments.contains(fragment)
            &&& fragment.len() > 0
            &&& keyboard == #[trigger] (before + fragment + after)
        } {
        let (fragment, before, after) = choose|fragment: Text, before: Text, after: Text|
            {
                &&& fragments.contains(fragment)
                &&& fragment.len() > 0
                &&& keyboard == #[trigger] (before + fragment + after)
            };
        text::law_contains_text(keyboard, fragment);
        let i = fragments.index_of(fragment);
        assert(fragments[i] == fragment);
    }
}

/// The entry that makes a table unusable is the first whose index does not fit a byte.
pub proof fn law_first_too_large(entries: Seq<(Text, u16)>)
    ensures
        match first_too_large(entries) {
            Some(entry) => exists|i: int|
                {
                    &&& 0 <= i < entries.len()
                    &&& #[trigger] entries[i] == entry
                    &&& entry.1 > 255
                    &&& forall|j: int| 0 <= j < i ==> (#[trigger] entries[j]).1 <= 255
                },
            None => forall|i: int| 0 <= i < entries.len() ==> (#[trigger] entries[i]).1 <= 255,
        },
    decreases entries.len(),
{
    if entries.len() > 0 {
        let before = entries.drop_last();
        law_first_too_large(before);
        assert(entries[entries.len() - 1] == entries.last());
        assert forall|j: int| 0 <= j < before.len() implies #[trigger] entries[j] == before[j] by {}
        match first_too_large(before) {
            Some(entry) => {
                let i = choose|i: int|
                    {
                        &&& 0 <= i < before.len()
                        &&& #[trigger] before[i] == entry
                        &&& entry.1 > 255
                        &&& forall|j: int| 0 <= j < i ==> (#[trigger] before[j]).1 <= 255
                    };
                assert(entries[i] == entry);
                assert forall|j: int| 0 <= j < i implies (#[trigger] entries[j]).1 <= 255 by {
                    assert(before[j].1 <= 255);
                }
            },
            None => {
                assert forall|j: int| 0 <= j < before.len() implies (#[trigger] entries[j]).1
                    <= 255 by {
                    assert(before[j].1 <= 255);
                }
            },
        }
    }
}

/// What a file says of keyboards is what counts, and the default fragments count where it
/// names none.
pub proof fn law_keyboards_read(raw: RawConfig, config: Result<Config, ConfigError>)
    requires
        parsed(raw, config),
        config is Ok,
    ensures
        ({
            let keyboards = config->Ok_0.keyboards;
            let defaults = seq!["wlr_virtual_keyboard_v"@, "yubikey"@];
            match raw.keyboards {
                Some(said) => {
                    &&& text::texts(keyboards.include_names@) == text::texts(
                        said.include_names@,
                    )
                    &&& text::texts(keyboards.exclude_contains@) == match said.exclude_contains {
                        Some(fragments) => text::texts(fragments@),
                        None => defaults,
                    }
                },
                None => keyboards.include_names@.len() == 0 && text::texts(
                    keyboards.exclude_contains@,
                ) == defaults,
            }
        }),
{
    text::law_texts(config->Ok_0.keyboards.include_names@, 0);
}

/// The table of layers in the file is read entry by entry, if no key stands twice, and a
/// missing one is empty, whatever stands in the table of classes.
pub proof fn law_layer_table_read(raw: RawConfig, config: Result<Config, ConfigError>, key: Text)
    requires
        parsed(raw, config),
        config is Ok,
        raw.layer_layouts matches Some(entries) ==> forall|i: int, j: int|
            0 <= i < j < entries@.len() ==> (#[trigger] entries@[i]).0@ != (
            #[trigger] entries@[j]).0@,
    ensures
        raw.layer_layouts is None ==> !config->Ok_0.layer_layouts@.contains_key(key),
        raw.layer_layouts matches Some(entries) ==> {
            &&& config->Ok_0.layer_layouts@.contains_key(key) <==> exists|i: int|
                0 <= i < entries@.len() && (#[trigger] entries@[i]).0@ == key
            &&& forall|i: int|
                0 <= i < entries@.len() && (#[trigger] entries@[i]).0@ == key
                    ==> config->Ok_0.layer_layouts@[key] == entries@[i].1 && entries@[i].1 <= 255
        },
{
    lemma_table_read(raw.layer_layouts, config->Ok_0.layer_layouts@, key);
}

/// The table of classes is read in the same way, whatever stands in the table of layers.
pub proof fn law_class_table_read(raw: RawConfig, config: Result<Config, ConfigError>, key: Text)
    requires
        parsed(raw, config),
        config is Ok,
        raw.default_layouts matches Some(entries) ==> forall|i: int, j: int|
            0 <= i < j < entries@.len() ==> (#[trigger] entries@[i]).0@ != (
            #[trigger] entries@[j]).0@,
    ensures
        raw.default_layouts is None ==> !config->Ok_0.default_layouts@.contains_key(key),
        raw.default_layouts matches Some(entries) ==> {
            &&& config->Ok_0.default_layouts@.contains_key(key) <==> exists|i: int|
                0 <= i < entries@.len() && (#[trigger] entries@[i]).0@ == key
            &&& forall|i: int|
                0 <= i < entries@.len() && (#[trigger] entries@[i]).0@ == key
                    ==> config->Ok_0.default_layouts@[key] == entries@[i].1 && entries@[i].1 <= 255
        },
{
    lemma_table_read(raw.default_layouts, config->Ok_0.default_layouts@, key);
}

proof fn lemma_table_read(
    table: Option<Vec<(String, u16)>>,
    layouts: Map<Text, LayoutIndex>,
    key: Text,
)
    requires
        layouts == layout_table(raw_entries(table)),
        first_too_large(raw_entries(table)) is None,
        table matches Some(entries) ==> forall|i: int, j: int|
            0 <= i < j < entries@.len() ==> (#[trigger] entries@[i]).0@ != (
            #[trigger] entries@[j]).0@,
    ensures
        table is None ==> !layouts.contains_key(key),
        table matches Some(entries) ==> {
            &&& layouts.contains_key(key) <==> exists|i: int|
                0 <= i < entries@.len() && (#[trigger] entries@[i]).0@ == key
            &&& forall|i: int|
                0 <= i < entries@.len() && (#[trigger] entries@[i]).0@ == key ==> layouts[key]
                    == entries@[i].1 && entries@[i].1 <= 255
        },
{
    let all = raw_entries(table);
    match table {
        Some(entries) => {
            assert forall|i: int| 0 <= i < entries@.len() implies #[trigger] all[i] == (
                entries@[i].0@,
                entries@[i].1,
            ) by {}
            assert forall|i: int, j: int| 0 <= i < j < all.len() implies (#[trigger] all[i]).0 != (
            #[trigger] all[j]).0 by {
                assert(entries@[i].0@ != entries@[j].0@);
            }
            law_layout_table(all, key);
            law_first_too_large(all);
            assert forall|i: int|
                0 <= i < entries@.len() && (#[trigger] entries@[i]).0@ == key implies layouts[key]
                == entries@[i].1 && entries@[i].1 <= 255 by {
                assert(all[i].0 == key);
                assert(all[i].1 <= 255);
            }
            if exists|i: int| 0 <= i < entries@.len() && (#[trigger] entries@[i]).0@ == key {
                let i = choose|i: int|
                    0 <= i < entries@.len() && (#[trigger] entries@[i]).0@ == key;
                assert(all[i].0 == key);
            }
            if layouts.contains_key(key) {
                let i = choose|i: int| 0 <= i < all.len() && (#[trigger] all[i]).0 == key;
                assert(entries@[i].0@ == key);
            }
        },
        None => {},
    }
}

/// A file is refused for the first index of the classes that does not fit a byte, and for
/// the first of the layers where all of the classes fit.
pub proof fn law_refused_file(raw: RawConfig, config: Result<Config, ConfigError>)
    requires
        parsed(raw, config),
        config is Err,
    ensures
        config matches Err(ConfigError::InvalidLayoutIndex { class_name, value }) && {
            let classes = raw_entries(raw.default_layouts);
            let layers = raw_entries(raw.layer_layouts);
            ||| exists|i: int|
                {
                    &&& 0 <= i < classes.len()
                    &&& #[trigger] classes[i] == (class_name@, value)
                    &&& value > 255
                    &&& forall|j: int| 0 <= j < i ==> (#[trigger] classes[j]).1 <= 255
                }
            ||| exists|i: int|
                {
                    &&& 0 <= i < layers.len()
                    &&& #[trigger] layers[i] == (class_name@, value)
                    &&& value > 255
                    &&& forall|j: int| 0 <= j < i ==> (#[trigger] layers[j]).1 <= 255
                    &&& forall|j: int|
                        0 <= j < classes.len() ==> (#[trigger] classes[j]).1 <= 255
                }
        },
{
    law_first_too_large(raw_entries(raw.default_layouts));
    law_first_too_large(raw_entries(raw.layer_layouts));
}

/// The base directory is the value of `XDG_CONFIG_HOME`, or else `.config` in that of
/// `HOME`, or none; and the file is `hypr-kblayoutd/config.toml` in it.
pub proof fn law_config_place(xdg_config_home: Option<&[u8]>, home: Option<&[u8]>)
    ensures
        xdg_config_home matches Some(xdg) ==> config_base(xdg_config_home, home) == Some(xdg@),
        xdg_config_home is None && home is None ==> config_base(xdg_config_home, home) is None,
        xdg_config_home is None && home is Some && home.unwrap()@.len() > 0
            && home.unwrap()@.last() != 47 ==> config_base(xdg_config_home, home) == Some(
            home.unwrap()@ + seq![47u8] + encode_utf8(".config"@),
        ),
        config_base(xdg_config_home, home) matches Some(base) ==> base.len() > 0 && base.last()
            != 47 ==> config_path(base) == base + seq![47u8] + encode_utf8("hypr-kblayoutd"@)
            + seq![47u8] + encode_utf8("config.toml"@),
{
    reveal_strlit(".config");
    reveal_strlit("hypr-kblayoutd");
    reveal_strlit("config.toml");
    if home is Some && home.unwrap()@.len() > 0 && home.unwrap()@.last() != 47 {
        paths::law_joined_text(home.unwrap()@, ".config"@);
    }
    match config_base(xdg_config_home, home) {
        Some(base) => {
            if base.len() > 0 && base.last() != 47 {
                paths::law_joined_text(base, "hypr-kblayoutd"@);
                let dir = paths::joined(base, encode_utf8("hypr-kblayoutd"@));
                crate::utf8_facts::lemma_no_slash_at_end("hypr-kblayoutd"@);
                assert(dir.last() == encode_utf8("hypr-kblayoutd"@).last());
                paths::law_joined_text(dir, "config.toml"@);
            }
        },
        None => {},
    }
}

/// The default configuration names no keyboards, excludes those with the two default
/// fragments in their names, and has no layouts.
pub proof fn law_default_config(config: Config, key: Text)
    requires
        config.is_default(),
    ensures
        config.keyboards.include_names@.len() == 0,
        text::texts(config.keyboards.exclude_contains@) == seq![
            "wlr_virtual_keyboard_v"@,
            "yubikey"@,
        ],
        !config.default_layouts@.contains_key(key),
        !config.layer_layouts@.contains_key(key),
{
}

/// What is told of an error holds all that is known of it: the reason, or the class in
/// quotes and the index in decimal.
pub proof fn law_messages(reason: String, class_name: String, value: u16)
    ensures
        ConfigError::Io(reason).text() == "failed to read config: "@ + reason@,
        ConfigError::Parse(reason).text() == "failed to parse config: "@ + reason@,
        (ConfigError::InvalidLayoutIndex { class_name, value }).text() == "layout index "@
            + numbers::decimal_text(value as nat) + " for class "@ + debug_text(class_name@)
            + " is too large"@,
{
}

} // verus!
