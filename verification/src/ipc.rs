//! What to send to Hyprland's command socket, and what the replies mean.

use vstd::prelude::*;
use vstd::string::*;
use vstd::utf8::*;

#[allow(unused_imports)]
use crate::config;
use crate::event;
use crate::numbers;
use crate::paths;
use crate::state::{LayoutIndex, WindowAddr};
use crate::text;
#[allow(unused_imports)]
use crate::text::Text;

verus! {

/// Why Hyprland could not be asked, or its reply not be used.
#[derive(Debug, Clone)]
pub enum IpcError {
    MissingHyprlandSignature,
    /// The socket made trouble, with the reason.
    Io(String),
    /// The reply is not the JSON that is wanted, with the reason.
    Json(String),
    MissingKeyboard(String),
    InvalidLayoutIndex(u64),
    InvalidWindowAddress(String),
}

/// The message for a keyboard that is missing, with its name in quotes.
pub open spec fn missing_message(quoted_keyboard: Text) -> Text {
    "keyboard "@ + quoted_keyboard + " was not found"@
}

/// Writes the message for a keyboard that is missing.
pub fn missing_keyboard_message(quoted_keyboard: &str) -> (message: String)
    ensures
        message@ == missing_message(quoted_keyboard@),
{
    "keyboard ".to_owned().concat(quoted_keyboard).concat(" was not found")
}

impl IpcError {
    /// What to tell the user.
    pub open spec fn text(self) -> Text {
        match self {
            IpcError::MissingHyprlandSignature => "HYPRLAND_INSTANCE_SIGNATURE is not set"@,
            IpcError::Io(err) => "Hyprland IPC error: "@ + err@,
            IpcError::Json(err) => "failed to parse Hyprland JSON: "@ + err@,
            IpcError::MissingKeyboard(keyboard) => missing_message(config::debug_text(keyboard@)),
            IpcError::InvalidLayoutIndex(index) => "Hyprland returned layout index "@
                + numbers::decimal_text(index as nat) + ", which is too large"@,
            IpcError::InvalidWindowAddress(address) => "Hyprland returned window address "@
                + address@ + ", which is not hexadecimal"@,
        }
    }

    /// What to tell the user.
    pub fn message(&self) -> (message: String)
        ensures
            message@ == self.text(),
    {
        match self {
            IpcError::MissingHyprlandSignature => {
                "HYPRLAND_INSTANCE_SIGNATURE is not set".to_owned()
            },
            IpcError::Io(err) => "Hyprland IPC error: ".to_owned().concat(err.as_str()),
            IpcError::Json(err) => {
                "failed to parse Hyprland JSON: ".to_owned().concat(err.as_str())
            },
            IpcError::MissingKeyboard(keyboard) => missing_keyboard_message(
                config::quoted(keyboard.as_str()).as_str(),
            ),
            IpcError::InvalidLayoutIndex(index) => {
                let mut message = "Hyprland returned layout index ".to_owned();
                numbers::append_decimal(&mut message, *index);
                message.append(", which is too large");
                message
            },
            IpcError::InvalidWindowAddress(address) => {
                "Hyprland returned window address ".to_owned().concat(address.as_str()).concat(
                    ", which is not hexadecimal",
                )
            },
        }
    }
}

/// Where the sockets of the running Hyprland are.
#[derive(Debug, Clone)]
pub struct HyprlandPaths {
    pub signature: String,
    pub command_socket: Vec<u8>,
    pub event_socket: Vec<u8>,
}

/// The directory of an instance's sockets under a base directory.
pub open spec fn instance_dir(base: Seq<u8>, signature: Text) -> Seq<u8> {
    paths::joined(paths::joined(base, encode_utf8("hypr"@)), encode_utf8(signature))
}

/// The command socket in an instance's directory.
pub open spec fn command_socket_in(dir: Seq<u8>) -> Seq<u8> {
    paths::joined(dir, encode_utf8(".socket.sock"@))
}

/// The event socket in an instance's directory.
pub open spec fn event_socket_in(dir: Seq<u8>) -> Seq<u8> {
    paths::joined(dir, encode_utf8(".socket2.sock"@))
}

fn make_instance_dir(base: &[u8], signature: &str) -> (dir: Vec<u8>)
    ensures
        dir@ == instance_dir(base@, signature@),
{
    paths::join_str(paths::join_str(base, "hypr").as_slice(), signature)
}

impl HyprlandPaths {
    /// The socket to look for in the runtime directory.
    pub fn runtime_socket(runtime_dir: &[u8], signature: &str) -> (path: Vec<u8>)
        ensures
            path@ == command_socket_in(instance_dir(runtime_dir@, signature@)),
    {
        paths::join_str(make_instance_dir(runtime_dir, signature).as_slice(), ".socket.sock")
    }

    /// The sockets by the values of `HYPRLAND_INSTANCE_SIGNATURE` and
    /// `XDG_RUNTIME_DIR`: in the runtime directory, if the command socket exists
    /// there, and else under `/tmp`.
    pub fn discover(
        signature: Option<String>,
        runtime_dir: Option<&[u8]>,
        runtime_socket_exists: bool,
    ) -> (found: Result<HyprlandPaths, IpcError>)
        ensures
            match signature {
                Some(signature) => found matches Ok(p) && {
                    let dir = if runtime_dir is Some && runtime_socket_exists {
                        instance_dir(runtime_dir.unwrap()@, signature@)
                    } else {
                        instance_dir(encode_utf8("/tmp"@), signature@)
                    };
                    &&& p.signature == signature
                    &&& p.command_socket@ == command_socket_in(dir)
                    &&& p.event_socket@ == event_socket_in(dir)
                },
                None => found matches Err(IpcError::MissingHyprlandSignature),
            },
    {
        let signature = match signature {
            Some(signature) => signature,
            None => {
                return Err(IpcError::MissingHyprlandSignature);
            },
        };
        let dir = match runtime_dir {
            Some(runtime_dir) if runtime_socket_exists => make_instance_dir(
                runtime_dir,
                signature.as_str(),
            ),
            _ => make_instance_dir("/tmp".as_bytes(), signature.as_str()),
        };
        Ok(
            HyprlandPaths {
                signature,
                command_socket: paths::join_str(dir.as_slice(), ".socket.sock"),
                event_socket: paths::join_str(dir.as_slice(), ".socket2.sock"),
            },
        )
    }
}

/// The connection to Hyprland's command socket.
#[derive(Debug)]
pub struct HyprlandIpc {
    paths: HyprlandPaths,
}

/// A text to write to a socket.
#[derive(Debug)]
pub struct Request {
    pub socket: Vec<u8>,
    pub payload: String,
}

/// What Hyprland can be asked, with a reply in JSON.
#[derive(Debug, Clone, Copy, PartialEq, Eq)]
pub enum Query {
    KbLayout,
    KbFile,
    Devices,
    ActiveWindow,
    Clients,
    Layers,
}

impl Query {
    /// The command that asks it.
    pub open spec fn text(self) -> Text {
        match self {
            Query::KbLayout => "j/getoption input:kb_layout"@,
            Query::KbFile => "j/getoption input:kb_file"@,
            Query::Devices => "j/devices"@,
            Query::ActiveWindow => "j/activewindow"@,
            Query::Clients => "j/clients"@,
            Query::Layers => "j/layers"@,
        }
    }

    /// The command that asks it.
    pub fn command_text(&self) -> (command: &'static str)
        ensures
            command@ == self.text(),
    {
        match self {
            Query::KbLayout => "j/getoption input:kb_layout",
            Query::KbFile => "j/getoption input:kb_file",
            Query::Devices => "j/devices",
            Query::ActiveWindow => "j/activewindow",
            Query::Clients => "j/clients",
            Query::Layers => "j/layers",
        }
    }
}

/// The reply about an option.
#[derive(Debug)]
pub struct OptionResponse {
    pub str: String,
    pub set: bool,
}

/// The reply about the devices.
#[derive(Debug)]
pub struct DevicesResponse {
    pub keyboards: Vec<KeyboardResponse>,
}

/// One keyboard of the reply about the devices.
#[derive(Debug)]
pub struct KeyboardResponse {
    pub name: String,
    pub active_layout_index: u64,
    pub main: bool,
}

/// The reply about the active window; without an address there is none.
#[derive(Debug)]
pub struct ActiveWindowResponse {
    pub address: Option<String>,
    pub class_name: String,
}

/// The reply about the layers: of each monitor the namespaces, level by level.
#[derive(Debug)]
pub struct LayersResponse {
    pub monitors: Vec<MonitorLayers>,
}

/// The namespaces on one monitor, level by level.
#[derive(Debug)]
pub struct MonitorLayers {
    pub levels: Vec<Vec<String>>,
}

/// The namespaces of all levels, one after the other.
pub open spec fn level_namespaces(levels: Seq<Vec<String>>) -> Seq<Text>
    decreases levels.len(),
{
    if levels.len() == 0 {
        Seq::empty()
    } else {
        level_namespaces(levels.drop_last()) + text::texts(levels.last()@)
    }
}

/// The namespaces on all monitors, one after the other.
pub open spec fn monitor_namespaces(monitors: Seq<MonitorLayers>) -> Seq<Text>
    decreases monitors.len(),
{
    if monitors.len() == 0 {
        Seq::empty()
    } else {
        monitor_namespaces(monitors.drop_last()) + level_namespaces(monitors.last().levels@)
    }
}

fn append_names(out: &mut Vec<String>, names: &[String])
    ensures
        text::texts(final(out)@) == text::texts(old(out)@) + text::texts(names@),
{
    let ghost start = out@;
    let ghost all = text::texts(names@);
    let mut i: usize = 0;
    assert(all.take(0) =~= Seq::<Text>::empty());
    assert(text::texts(start) + all.take(0) =~= text::texts(start));
    while i < names.len()
        invariant
            i <= names.len(),
            all == text::texts(names@),
            text::texts(out@) =~= text::texts(start) + all.take(i as int),
        decreases names.len() - i,
    {
        let ghost before = out@;
        out.push(names[i].clone());
        proof {
            text::lemma_texts_push(before, out@.last());
            assert(all.take(i + 1) =~= all.take(i as int).push(all[i as int]));
        }
        i += 1;
    }
    assert(all.take(i as int) =~= all);
}

fn append_levels(out: &mut Vec<String>, levels: &[Vec<String>])
    ensures
        text::texts(final(out)@) == text::texts(old(out)@) + level_namespaces(levels@),
{
    let ghost start = text::texts(out@);
    let mut i: usize = 0;
    assert(start + level_namespaces(levels@.take(0)) =~= start);
    while i < levels.len()
        invariant
            i <= levels.len(),
            text::texts(out@) =~= start + level_namespaces(levels@.take(i as int)),
        decreases levels.len() - i,
    {
        append_names(out, levels[i].as_slice());
        proof {
            assert(levels@.take(i + 1).drop_last() =~= levels@.take(i as int));
        }
        i += 1;
    }
    assert(levels@.take(i as int) =~= levels@);
}

/// How many parts are not blank.
pub open spec fn count_not_blank(parts: Seq<Text>) -> nat
    decreases parts.len(),
{
    if parts.len() == 0 {
        0
    } else {
        (if text::blank(parts[0]) {
            0nat
        } else {
            1nat
        }) + count_not_blank(parts.drop_first())
    }
}

/// How many layouts an option names.
pub open spec fn layout_count(value: Text) -> nat {
    if value.len() == 0 || value == "[[EMPTY]]"@ {
        0
    } else {
        count_not_blank(text::split_all(value, ","@))
    }
}

/// The leftmost place that holds `true`.
pub open spec fn first_true(flags: Seq<bool>) -> Option<int>
    decreases flags.len(),
{
    if flags.len() == 0 {
        None
    } else {
        match first_true(flags.drop_last()) {
            Some(i) => Some(i),
            None => if flags.last() {
                Some(flags.len() - 1)
            } else {
                None
            },
        }
    }
}

/// A first place stays the first, and is a place.
proof fn lemma_first_true(flags: Seq<bool>, i: int)
    requires
        0 <= i <= flags.len(),
    ensures
        first_true(flags.take(i)) is Some ==> first_true(flags) == first_true(flags.take(i)),
        first_true(flags) matches Some(j) ==> 0 <= j < flags.len() && flags[j],
    decreases flags.len(), flags.len() - i,
{
    if i < flags.len() {
        lemma_first_true(flags, i + 1);
        assert(flags.take(i + 1).drop_last() =~= flags.take(i));
    } else {
        assert(flags.take(i) =~= flags);
        if flags.len() > 0 {
            lemma_first_true(flags.drop_last(), flags.len() - 1);
        }
    }
}

/// Which keyboards have the name.
pub open spec fn name_flags(keyboards: Seq<KeyboardResponse>, name: Text) -> Seq<bool> {
    keyboards.map_values(|k: KeyboardResponse| k.name@ == name)
}

/// The keyboard with the name.
pub open spec fn named_keyboard(keyboards: Seq<KeyboardResponse>, name: Text) -> Option<int> {
    first_true(name_flags(keyboards, name))
}

/// The keyboard to go by: the main one, or else the first.
pub open spec fn main_keyboard(keyboards: Seq<KeyboardResponse>) -> Option<int> {
    match first_true(keyboards.map_values(|k: KeyboardResponse| k.main)) {
        Some(i) => Some(i),
        None => if keyboards.len() > 0 {
            Some(0)
        } else {
            None
        },
    }
}

/// The layout of a keyboard in a reply: the index if it fits, else an error that
/// names it; where the keyboard is missing, an error with the given name.
pub open spec fn layout_reply(
    reply: Result<LayoutIndex, IpcError>,
    keyboards: Seq<KeyboardResponse>,
    keyboard: Option<int>,
    wanted: Text,
) -> bool {
    match keyboard {
        Some(i) => {
            let index = keyboards[i].active_layout_index;
            if index <= LayoutIndex::MAX {
                reply == Ok::<LayoutIndex, IpcError>(index as LayoutIndex)
            } else {
                reply == Err::<LayoutIndex, IpcError>(IpcError::InvalidLayoutIndex(index))
            }
        },
        None => reply matches Err(IpcError::MissingKeyboard(name)) && name@ == wanted,
    }
}

fn index_of_main(keyboards: &[KeyboardResponse]) -> (found: Option<usize>)
    ensures
        found is Some <==> main_keyboard(keyboards@) is Some,
        found matches Some(i) ==> i < keyboards@.len() && main_keyboard(keyboards@) == Some(
            i as int,
        ),
{
    let ghost flags = keyboards@.map_values(|k: KeyboardResponse| k.main);
    let mut i: usize = 0;
    while i < keyboards.len()
        invariant
            i <= keyboards.len(),
            flags == keyboards@.map_values(|k: KeyboardResponse| k.main),
            first_true(flags.take(i as int)) is None,
        decreases keyboards.len() - i,
    {
        proof {
            assert(flags.take(i + 1).drop_last() =~= flags.take(i as int));
            lemma_first_true(flags, i + 1);
        }
        if keyboards[i].main {
            return Some(i);
        }
        i += 1;
    }
    assert(flags.take(i as int) =~= flags);
    if keyboards.len() > 0 {
        Some(0)
    } else {
        None
    }
}

fn index_of_name(keyboards: &[KeyboardResponse], name: &str) -> (found: Option<usize>)
    ensures
        found is Some <==> named_keyboard(keyboards@, name@) is Some,
        found matches Some(i) ==> i < keyboards@.len() && named_keyboard(keyboards@, name@)
            == Some(i as int),
{
    let ghost flags = name_flags(keyboards@, name@);
    let mut i: usize = 0;
    while i < keyboards.len()
        invariant
            i <= keyboards.len(),
            flags == name_flags(keyboards@, name@),
            first_true(flags.take(i as int)) is None,
        decreases keyboards.len() - i,
    {
        proof {
            assert(flags.take(i + 1).drop_last() =~= flags.take(i as int));
            lemma_first_true(flags, i + 1);
        }
        if text::same_text(keyboards[i].name.as_str(), name) {
            return Some(i);
        }
        i += 1;
    }
    assert(flags.take(i as int) =~= flags);
    None
}

fn checked_index(index: u64) -> (layout: Result<LayoutIndex, IpcError>)
    ensures
        layout == (if index <= LayoutIndex::MAX {
            Ok::<LayoutIndex, IpcError>(index as LayoutIndex)
        } else {
            Err(IpcError::InvalidLayoutIndex(index))
        }),
{
    match event::parse_layout_index(index) {
        Some(layout) => Ok(layout),
        None => Err(IpcError::InvalidLayoutIndex(index)),
    }
}

impl View for HyprlandIpc {
    type V = HyprlandPaths;

    closed spec fn view(&self) -> HyprlandPaths {
        self.paths
    }
}

impl HyprlandIpc {
    /// The connection by its sockets.
    pub fn new(paths: HyprlandPaths) -> (ipc: Self)
        ensures
            ipc@ == paths,
    {
        HyprlandIpc { paths }
    }

    /// Where the sockets are.
    pub fn paths(&self) -> (paths: &HyprlandPaths)
        ensures
            *paths == self@,
    {
        &self.paths
    }

    /// A command for the command socket.
    pub fn command(&self, command: &str) -> (request: Request)
        ensures
            request.socket@ == self@.command_socket@,
            request.payload@ == command@,
    {
        Request {
            socket: vstd::slice::slice_to_vec(self.paths.command_socket.as_slice()),
            payload: command.to_owned(),
        }
    }

    /// A query for the command socket.
    pub fn json_command(&self, query: Query) -> (request: Request)
        ensures
            request.socket@ == self@.command_socket@,
            request.payload@ == query.text(),
    {
        self.command(query.command_text())
    }

    /// The command that switches a keyboard to a layout. Whatever Hyprland replies, the
    /// keyboard counts as switched.
    pub fn switch_layout(&self, keyboard: &str, layout: LayoutIndex) -> (request: Request)
        ensures
            request.socket@ == self@.command_socket@,
            request.payload@ == switch_command(keyboard@, layout),
    {
        self.command(switch_layout_command(keyboard, layout).as_str())
    }

    /// How many layouts are configured, by the reply about `input:kb_layout`.
    pub fn configured_layout_count(&self, response: &OptionResponse) -> (count: usize)
        ensures
            count == layout_count(response.str@),
    {
        let value = response.str.as_str();
        if value.is_empty() || text::same_text(value, "[[EMPTY]]") {
            return 0;
        }
        proof {
            reveal_strlit(",");
            crate::utf8_facts::lemma_encode_len(value@);
        }
        let total: usize = value.as_bytes().len();
        let mut rest: &str = value;
        let mut count: usize = 0;
        proof {
            assert(","@.len() == 1);
        }
        loop
            invariant
                ","@.len() == 1,
                value@ == response.str@,
                layout_count(response.str@) == count_not_blank(text::split_all(value@, ","@)),
                value@.len() <= total,
                rest@.len() <= value@.len(),
                count <= value@.len() - rest@.len(),
                count + count_not_blank(text::split_all(rest@, ","@)) == count_not_blank(
                    text::split_all(value@, ","@),
                ),
            decreases rest@.len(),
        {
            proof {
                text::lemma_split_parts(rest@, ","@);
            }
            match text::split_once(rest, ",") {
                Some((part, after)) => {
                    proof {
                        let parts = text::split_all(rest@, ","@);
                        assert(parts == seq![part@] + text::split_all(after@, ","@));
                        assert(parts[0] == part@);
                        assert(parts.drop_first() =~= text::split_all(after@, ","@));
                    }
                    if !text::is_blank(part) {
                        count += 1;
                    }
                    rest = after;
                },
                None => {
                    proof {
                        let parts = text::split_all(rest@, ","@);
                        assert(parts == seq![rest@]);
                        assert(parts.drop_first() =~= Seq::<Text>::empty());
                        assert(count_not_blank(parts.drop_first()) == 0);
                    }
                    if !text::is_blank(rest) {
                        count += 1;
                    }
                    return count;
                },
            }
        }
    }

    /// Whether a keymap file is set, by the reply about `input:kb_file`.
    pub fn kb_file_is_set(&self, response: &OptionResponse) -> (set: bool)
        ensures
            set == (response.set || response.str@ != "[[EMPTY]]"@),
    {
        response.set || !text::same_text(response.str.as_str(), "[[EMPTY]]")
    }

    /// The active layout of a keyboard, by the reply about the devices.
    pub fn active_layout_for_keyboard(&self, devices: &DevicesResponse, keyboard_name: &str) -> (
    layout: Result<LayoutIndex, IpcError>)
        ensures
            layout_reply(
                layout,
                devices.keyboards@,
                named_keyboard(devices.keyboards@, keyboard_name@),
                keyboard_name@,
            ),
    {
        match index_of_name(devices.keyboards.as_slice(), keyboard_name) {
            Some(i) => checked_index(devices.keyboards[i].active_layout_index),
            None => Err(IpcError::MissingKeyboard(keyboard_name.to_owned())),
        }
    }

    /// The active layout of the main keyboard, by the reply about the devices.
    pub fn initial_active_layout(&self, devices: &DevicesResponse) -> (layout: Result<
        LayoutIndex,
        IpcError,
    >)
        ensures
            layout_reply(
                layout,
                devices.keyboards@,
                main_keyboard(devices.keyboards@),
                "<any>"@,
            ),
    {
        match index_of_main(devices.keyboards.as_slice()) {
            Some(i) => checked_index(devices.keyboards[i].active_layout_index),
            None => Err(IpcError::MissingKeyboard("<any>".to_owned())),
        }
    }

    /// The main keyboard and its active layout, by the reply about the devices.
    pub fn current_active_keyboard(&self, devices: &DevicesResponse) -> (current: Result<
        (String, LayoutIndex),
        IpcError,
    >)
        ensures
            layout_reply(
                match current {
                    Ok((_, layout)) => Ok(layout),
                    Err(err) => Err(err),
                },
                devices.keyboards@,
                main_keyboard(devices.keyboards@),
                "<any>"@,
            ),
            current matches Ok((name, _)) ==> main_keyboard(devices.keyboards@) matches Some(i)
                && name == devices.keyboards@[i].name,
    {
        match index_of_main(devices.keyboards.as_slice()) {
            Some(i) => match checked_index(devices.keyboards[i].active_layout_index) {
                Ok(layout) => Ok((devices.keyboards[i].name.clone(), layout)),
                Err(err) => Err(err),
            },
            None => Err(IpcError::MissingKeyboard("<any>".to_owned())),
        }
    }

    /// The active window and its class, if there is one, by the reply about it.
    pub fn active_window(&self, response: ActiveWindowResponse) -> (active: Result<
        Option<(WindowAddr, String)>,
        IpcError,
    >)
        ensures
            match response.address {
                None => active == Ok::<Option<(WindowAddr, String)>, IpcError>(None),
                Some(address) => match event::window_addr(address@) {
                    Some(addr) => active == Ok::<Option<(WindowAddr, String)>, IpcError>(
                        Some((WindowAddr(addr), response.class_name)),
                    ),
                    None => active matches Err(IpcError::InvalidWindowAddress(bad)) && bad
                        == address,
                },
            },
    {
        match response.address {
            Some(address) => match event::parse_window_addr(address.as_str()) {
                Ok(addr) => Ok(Some((addr, response.class_name))),
                Err(_) => Err(IpcError::InvalidWindowAddress(address)),
            },
            None => Ok(None),
        }
    }

    /// The namespaces of all mapped layers, by the reply about them.
    pub fn mapped_layer_namespaces(&self, layers: &LayersResponse) -> (namespaces: Vec<String>)
        ensures
            text::texts(namespaces@) == monitor_namespaces(layers.monitors@),
    {
        let mut namespaces: Vec<String> = Vec::new();
        let mut i: usize = 0;
        assert(text::texts(namespaces@) =~= monitor_namespaces(layers.monitors@.take(0)));
        while i < layers.monitors.len()
            invariant
                i <= layers.monitors.len(),
                text::texts(namespaces@) =~= monitor_namespaces(layers.monitors@.take(i as int)),
            decreases layers.monitors.len() - i,
        {
            append_levels(&mut namespaces, layers.monitors[i].levels.as_slice());
            proof {
                assert(layers.monitors@.take(i + 1).drop_last() =~= layers.monitors@.take(
                    i as int,
                ));
            }
            i += 1;
        }
        assert(layers.monitors@.take(i as int) =~= layers.monitors@);
        namespaces
    }

    /// The addresses of all windows, by the reply about the clients.
    pub fn client_addresses(&self, clients: &[String]) -> (windows: Result<
        Vec<WindowAddr>,
        IpcError,
    >)
        ensures
            windows is Ok <==> forall|i: int|
                0 <= i < clients@.len() ==> event::window_addr(#[trigger] clients@[i]@) is Some,
            windows matches Ok(w) ==> {
                &&& w@.len() == clients@.len()
                &&& forall|i: int|
                    0 <= i < clients@.len() ==> event::window_addr(clients@[i]@) == Some(
                        (#[trigger] w@[i]).0,
                    )
            },
            windows matches Err(err) ==> exists|i: int|
                {
                    &&& 0 <= i < clients@.len()
                    &&& event::window_addr(#[trigger] clients@[i]@) is None
                    &&& err == IpcError::InvalidWindowAddress(clients@[i])
                    &&& forall|j: int|
                        0 <= j < i ==> event::window_addr(#[trigger] clients@[j]@) is Some
                },
    {
        let mut windows: Vec<WindowAddr> = Vec::new();
        let mut i: usize = 0;
        while i < clients.len()
            invariant
                i <= clients.len(),
                windows.len() == i,
                forall|j: int|
                    0 <= j < i ==> event::window_addr(clients@[j]@) == Some(
                        (#[trigger] windows@[j]).0,
                    ),
                forall|j: int|
                    0 <= j < i ==> event::window_addr(#[trigger] clients@[j]@) is Some,
            decreases clients.len() - i,
        {
            match event::parse_window_addr(clients[i].as_str()) {
                Ok(addr) => {
                    windows.push(addr);
                },
                Err(_) => {
                    assert(event::window_addr(clients@[i as int]@) is None);
                    return Err(IpcError::InvalidWindowAddress(clients[i].clone()));
                },
            }
            i += 1;
        }
        Ok(windows)
    }
}

/// The command that switches a keyboard to a layout.
pub open spec fn switch_command(keyboard: Text, layout: LayoutIndex) -> Text {
    "switchxkblayout "@ + keyboard + " "@ + numbers::decimal_text(layout as nat)
}

/// Writes the command that switches a keyboard to a layout.
pub fn switch_layout_command(keyboard: &str, layout: LayoutIndex) -> (command: String)
    ensures
        command@ == switch_command(keyboard@, layout),
{
    let mut command = "switchxkblayout ".to_owned().concat(keyboard).concat(" ");
    numbers::append_decimal(&mut command, layout as u64);
    command
}

/// Parts with a comma between each two of them.
pub open spec fn with_commas(parts: Seq<Text>) -> Text
    decreases parts.len(),
{
    if parts.len() == 0 {
        Seq::empty()
    } else if parts.len() == 1 {
        parts[0]
    } else {
        parts[0] + ","@ + with_commas(parts.drop_first())
    }
}

/// Parts without commas are what a text of them with commas is parted into.
proof fn lemma_split_commas(parts: Seq<Text>)
    requires
        parts.len() > 0,
        forall|i: int| 0 <= i < parts.len() ==> !(#[trigger] parts[i]).contains(','),
    ensures
        text::split_all(with_commas(parts), ","@) == parts,
    decreases parts.len(),
{
    reveal_strlit(",");
    let whole = with_commas(parts);
    let head = parts[0];
    assert(!head.contains(','));
    if parts.len() == 1 {
        if text::contains_text(whole, ","@) {
            let i = choose|i: int| text::occurs_at(whole, ","@, i);
            text::law_occurs_at(whole, ","@, i);
            assert(whole[i + 0] == ","@[0]);
            assert(head[i] == ',');
        }
        assert(text::split_first(whole, ","@) is None);
        assert(text::split_all(whole, ","@) =~= parts);
    } else {
        let rest = parts.drop_first();
        let tail = with_commas(rest);
        assert forall|i: int| 0 <= i < rest.len() implies !(#[trigger] rest[i]).contains(',') by {
            assert(rest[i] == parts[i + 1]);
        }
        lemma_split_commas(rest);
        assert forall|j: int| 0 <= j < head.len() implies !#[trigger] text::occurs_at(
            whole,
            ","@,
            j,
        ) by {
            text::law_occurs_at(whole, ","@, j);
            if text::occurs_at(whole, ","@, j) {
                assert(whole[j + 0] == ","@[0]);
                assert(head[j] == ',');
            }
        }
        text::law_split_first(whole, ","@, head, tail);
        assert(text::split_all(whole, ","@) == seq![head] + text::split_all(tail, ","@));
        assert(seq![head] + rest =~= parts);
    }
}

/// Parts that are not blank are counted one by one.
proof fn lemma_count_not_blank(parts: Seq<Text>)
    ensures
        count_not_blank(parts) == parts.filter(|p: Text| !text::blank(p)).len(),
    decreases parts.len(),
{
    let keep = |p: Text| !text::blank(p);
    if parts.len() > 0 {
        let rest = parts.drop_first();
        lemma_count_not_blank(rest);
        assert(seq![parts[0]] + rest =~= parts);
        Seq::filter_distributes_over_add(seq![parts[0]], rest, keep);
        reveal_with_fuel(Seq::filter, 2);
        assert(seq![parts[0]].drop_last() =~= Seq::<Text>::empty());
    } else {
        reveal_with_fuel(Seq::filter, 1);
        assert(parts.filter(keep).len() == 0);
    }
}

/// An option with parts between commas names as many layouts as there are parts that are
/// not blank. An option that is empty, or that Hyprland gives as such, names none.
pub proof fn law_layout_count(parts: Seq<Text>)
    requires
        parts.len() > 0,
        forall|i: int| 0 <= i < parts.len() ==> !(#[trigger] parts[i]).contains(','),
    ensures
        ({
            let value = with_commas(parts);
            layout_count(value) == if value.len() == 0 || value == "[[EMPTY]]"@ {
                0
            } else {
                parts.filter(|p: Text| !text::blank(p)).len()
            }
        }),
{
    lemma_split_commas(parts);
    lemma_count_not_blank(parts);
}

/// The leftmost place holds `true` and none before it does; where there is none, no place
/// does.
pub proof fn law_first_true(flags: Seq<bool>)
    ensures
        match first_true(flags) {
            Some(i) => 0 <= i < flags.len() && flags[i] && forall|j: int|
                0 <= j < i ==> !(#[trigger] flags[j]),
            None => forall|j: int| 0 <= j < flags.len() ==> !(#[trigger] flags[j]),
        },
    decreases flags.len(),
{
    if flags.len() > 0 {
        let before = flags.drop_last();
        law_first_true(before);
        assert(flags[flags.len() - 1] == flags.last());
        assert forall|j: int| 0 <= j < before.len() implies #[trigger] flags[j] == before[j] by {}
    }
}

/// The layout of a keyboard is that of the first keyboard with its name, if its index fits a
/// byte; an index that does not is told, and so is a name that no keyboard has.
pub proof fn law_named_layout(
    reply: Result<LayoutIndex, IpcError>,
    keyboards: Seq<KeyboardResponse>,
    name: Text,
)
    requires
        layout_reply(reply, keyboards, named_keyboard(keyboards, name), name),
    ensures
        forall|i: int|
            {
                &&& 0 <= i < keyboards.len()
                &&& (#[trigger] keyboards[i]).name@ == name
                &&& forall|j: int| 0 <= j < i ==> (#[trigger] keyboards[j]).name@ != name
            } ==> reply == if keyboards[i].active_layout_index <= 255 {
                Ok::<LayoutIndex, IpcError>(keyboards[i].active_layout_index as LayoutIndex)
            } else {
                Err(IpcError::InvalidLayoutIndex(keyboards[i].active_layout_index))
            },
        (forall|i: int| 0 <= i < keyboards.len() ==> (#[trigger] keyboards[i]).name@ != name) ==> (
        reply matches Err(IpcError::MissingKeyboard(missing)) && missing@ == name),
{
    let flags = name_flags(keyboards, name);
    law_first_true(flags);
    assert forall|i: int| 0 <= i < keyboards.len() implies #[trigger] flags[i] == (
    keyboards[i].name@ == name) by {}
    assert forall|i: int|
        {
            &&& 0 <= i < keyboards.len()
            &&& (#[trigger] keyboards[i]).name@ == name
            &&& forall|j: int| 0 <= j < i ==> (#[trigger] keyboards[j]).name@ != name
        } implies named_keyboard(keyboards, name) == Some(i) by {
        assert(flags[i]);
        let found = first_true(flags).unwrap();
        if found < i {
            assert(keyboards[found].name@ != name);
            assert(flags[found]);
        } else if i < found {
            assert(!flags[i]);
        }
    }
    if forall|i: int| 0 <= i < keyboards.len() ==> (#[trigger] keyboards[i]).name@ != name {
        if first_true(flags) is Some {
            let found = first_true(flags).unwrap();
            assert(flags[found]);
            assert(keyboards[found].name@ != name);
        }
    }
}

/// The keyboard to go by is the first that is marked as the main one, or the first of all
/// where none is.
pub proof fn law_main_keyboard(keyboards: Seq<KeyboardResponse>)
    ensures
        match main_keyboard(keyboards) {
            Some(i) => {
                &&& 0 <= i < keyboards.len()
                &&& keyboards[i].main ==> forall|j: int|
                    0 <= j < i ==> !(#[trigger] keyboards[j]).main
                &&& !keyboards[i].main ==> i == 0 && forall|j: int|
                    0 <= j < keyboards.len() ==> !(#[trigger] keyboards[j]).main
            },
            None => keyboards.len() == 0,
        },
{
    let flags = keyboards.map_values(|k: KeyboardResponse| k.main);
    law_first_true(flags);
    assert forall|j: int| 0 <= j < keyboards.len() implies #[trigger] keyboards[j].main
        == flags[j] by {}
}

/// What is told of the keyboard to go by is its layout, if its index fits a byte, and an
/// error with the index if not; without keyboards one is told to be missing.
pub proof fn law_main_layout(
    reply: Result<LayoutIndex, IpcError>,
    keyboards: Seq<KeyboardResponse>,
    wanted: Text,
)
    requires
        layout_reply(reply, keyboards, main_keyboard(keyboards), wanted),
    ensures
        main_keyboard(keyboards) matches Some(i) ==> reply
            == if keyboards[i].active_layout_index <= 255 {
            Ok::<LayoutIndex, IpcError>(keyboards[i].active_layout_index as LayoutIndex)
        } else {
            Err(IpcError::InvalidLayoutIndex(keyboards[i].active_layout_index))
        },
        keyboards.len() == 0 ==> (reply matches Err(IpcError::MissingKeyboard(missing)) && missing@
            == wanted),
{
    law_main_keyboard(keyboards);
}

/// The namespaces of a monitor are those of its levels, one level after the other, and
/// those of a reply are those of its monitors, one monitor after the other.
pub proof fn law_namespaces(
    levels: Seq<Vec<String>>,
    monitors: Seq<MonitorLayers>,
)
    ensures
        level_namespaces(levels) == levels.map_values(
            |level: Vec<String>| text::texts(level@),
        ).flatten(),
        monitor_namespaces(monitors) == monitors.map_values(
            |m: MonitorLayers| level_namespaces(m.levels@),
        ).flatten(),
{
    lemma_level_namespaces(levels);
    lemma_monitor_namespaces(monitors);
}

proof fn lemma_level_namespaces(levels: Seq<Vec<String>>)
    ensures
        level_namespaces(levels) == levels.map_values(
            |level: Vec<String>| text::texts(level@),
        ).flatten(),
    decreases levels.len(),
{
    let f = |level: Vec<String>| text::texts(level@);
    let all = levels.map_values(f);
    if levels.len() > 0 {
        let before = levels.drop_last();
        lemma_level_namespaces(before);
        assert(all =~= before.map_values(f).push(f(levels.last())));
        before.map_values(f).lemma_flatten_push(f(levels.last()));
    } else {
        assert(all =~= Seq::<Seq<Text>>::empty());
        assert(all.flatten() =~= Seq::<Text>::empty());
    }
}

proof fn lemma_monitor_namespaces(monitors: Seq<MonitorLayers>)
    ensures
        monitor_namespaces(monitors) == monitors.map_values(
            |m: MonitorLayers| level_namespaces(m.levels@),
        ).flatten(),
    decreases monitors.len(),
{
    let f = |m: MonitorLayers| level_namespaces(m.levels@);
    let all = monitors.map_values(f);
    if monitors.len() > 0 {
        let before = monitors.drop_last();
        lemma_monitor_namespaces(before);
        assert(all =~= before.map_values(f).push(f(monitors.last())));
        before.map_values(f).lemma_flatten_push(f(monitors.last()));
    } else {
        assert(all =~= Seq::<Seq<Text>>::empty());
        assert(all.flatten() =~= Seq::<Text>::empty());
    }
}

/// The sockets of an instance are those in the directory with its signature, in `hypr` in
/// the base directory.
pub proof fn law_sockets(base: Seq<u8>, signature: Text)
    requires
        base.len() > 0,
        base.last() != 47,
        signature.len() > 0,
        signature[0] != '/',
        signature.last() != '/',
    ensures
        ({
            let dir = instance_dir(base, signature);
            &&& dir == base + seq![47u8] + encode_utf8("hypr"@) + seq![47u8] + encode_utf8(
                signature,
            )
            &&& command_socket_in(dir) == dir + seq![47u8] + encode_utf8(".socket.sock"@)
            &&& event_socket_in(dir) == dir + seq![47u8] + encode_utf8(".socket2.sock"@)
        }),
{
    reveal_strlit("hypr");
    reveal_strlit(".socket.sock");
    reveal_strlit(".socket2.sock");
    paths::law_joined_text(base, "hypr"@);
    let outer = paths::joined(base, encode_utf8("hypr"@));
    crate::utf8_facts::lemma_no_slash_at_end("hypr"@);
    assert(outer.last() == encode_utf8("hypr"@).last());
    paths::law_joined_text(outer, signature);
    let dir = instance_dir(base, signature);
    crate::utf8_facts::lemma_no_slash_at_end(signature);
    assert(dir.last() == encode_utf8(signature).last());
    paths::law_joined_text(dir, ".socket.sock"@);
    paths::law_joined_text(dir, ".socket2.sock"@);
}

/// The command that switches a keyboard holds the keyboard's name as it is, and after one
/// space the layout in decimal.
pub proof fn law_switch_command(keyboard: Text, layout: LayoutIndex)
    ensures
        ({
            let command = switch_command(keyboard, layout);
            let start = "switchxkblayout "@.len() as int;
            let end = start + keyboard.len();
            &&& command.take(start) == "switchxkblayout "@
            &&& command.subrange(start, end) == keyboard
            &&& command[end] == ' '
            &&& numbers::decimal_value(command.skip(end + 1)) == layout
        }),
{
    reveal_strlit("switchxkblayout ");
    reveal_strlit(" ");
    let command = switch_command(keyboard, layout);
    let start = "switchxkblayout "@.len() as int;
    let end = start + keyboard.len();
    numbers::law_decimal_text(layout as nat);
    assert(command.take(start) =~= "switchxkblayout "@);
    assert(command.subrange(start, end) =~= keyboard);
    assert(command.skip(end + 1) =~= numbers::decimal_text(layout as nat));
}

/// What is told of an error holds all that is known of it: the reason, the keyboard in
/// quotes, the index in decimal or the address.
pub proof fn law_messages(reason: String, keyboard: String, index: u64, address: String)
    ensures
        IpcError::MissingHyprlandSignature.text() == "HYPRLAND_INSTANCE_SIGNATURE is not set"@,
        IpcError::Io(reason).text() == "Hyprland IPC error: "@ + reason@,
        IpcError::Json(reason).text() == "failed to parse Hyprland JSON: "@ + reason@,
        IpcError::MissingKeyboard(keyboard).text() == "keyboard "@ + config::debug_text(keyboard@)
            + " was not found"@,
        IpcError::InvalidLayoutIndex(index).text() == "Hyprland returned layout index "@
            + numbers::decimal_text(index as nat) + ", which is too large"@,
        IpcError::InvalidWindowAddress(address).text() == "Hyprland returned window address "@
            + address@ + ", which is not hexadecimal"@,
{
}

} // verus!
