//! The lines of Hyprland's event socket.

use vstd::prelude::*;

use crate::numbers;
use crate::state::{LayoutIndex, WindowAddr};
use crate::text;
#[allow(unused_imports)]
use crate::text::Text;

verus! {

/// What happened, as one line of the event socket tells it.
#[derive(Debug, Clone, PartialEq, Eq)]
pub enum Event<'a> {
    ActiveWindow { class_name: &'a str },
    ActiveWindowV2 { addr: WindowAddr },
    EmptyActiveWindow,
    CloseWindow { addr: WindowAddr },
    ActiveLayout { keyboard: &'a str, layout_name: &'a str },
    OpenLayer { namespace: &'a str },
    CloseLayer { namespace: &'a str },
    Ignored,
}

/// An event with its texts.
pub enum EventView {
    ActiveWindow { class_name: Text },
    ActiveWindowV2 { addr: u64 },
    EmptyActiveWindow,
    CloseWindow { addr: u64 },
    ActiveLayout { keyboard: Text, layout_name: Text },
    OpenLayer { namespace: Text },
    CloseLayer { namespace: Text },
    Ignored,
}

impl<'a> View for Event<'a> {
    type V = EventView;

    open spec fn view(&self) -> EventView {
        match self {
            Event::ActiveWindow { class_name } => EventView::ActiveWindow {
                class_name: class_name@,
            },
            Event::ActiveWindowV2 { addr } => EventView::ActiveWindowV2 { addr: addr.0 },
            Event::EmptyActiveWindow => EventView::EmptyActiveWindow,
            Event::CloseWindow { addr } => EventView::CloseWindow { addr: addr.0 },
            Event::ActiveLayout { keyboard, layout_name } => EventView::ActiveLayout {
                keyboard: keyboard@,
                layout_name: layout_name@,
            },
            Event::OpenLayer { namespace } => EventView::OpenLayer { namespace: namespace@ },
            Event::CloseLayer { namespace } => EventView::CloseLayer { namespace: namespace@ },
            Event::Ignored => EventView::Ignored,
        }
    }
}

/// Why a line is malformed.
#[derive(Debug, Clone, PartialEq, Eq)]
pub enum ParseError {
    MissingSeparator,
    BadWindowAddress,
    BadActiveLayout,
}

/// The address that a text stands for: hexadecimal, with or without `0x` before
/// it, once or more often.
pub open spec fn window_addr(input: Text) -> Option<u64> {
    numbers::hex_number(text::without_prefixes(input, "0x"@))
}

/// The event that a name and its data stand for.
pub open spec fn named_event(name: Text, data: Text) -> Result<EventView, ParseError> {
    if name == "activewindow"@ {
        Ok(
            EventView::ActiveWindow {
                class_name: match text::split_first(data, ","@) {
                    Some((class_name, _)) => class_name,
                    None => data,
                },
            },
        )
    } else if name == "activewindowv2"@ {
        if data.len() == 0 {
            Ok(EventView::EmptyActiveWindow)
        } else {
            match window_addr(data) {
                Some(addr) => Ok(EventView::ActiveWindowV2 { addr }),
                None => Err(ParseError::BadWindowAddress),
            }
        }
    } else if name == "closewindow"@ {
        match window_addr(data) {
            Some(addr) => Ok(EventView::CloseWindow { addr }),
            None => Err(ParseError::BadWindowAddress),
        }
    } else if name == "activelayout"@ {
        match text::split_first(data, ","@) {
            Some((keyboard, layout_name)) => Ok(EventView::ActiveLayout { keyboard, layout_name }),
            None => Err(ParseError::BadActiveLayout),
        }
    } else if name == "openlayer"@ {
        Ok(EventView::OpenLayer { namespace: data })
    } else if name == "closelayer"@ {
        Ok(EventView::CloseLayer { namespace: data })
    } else {
        Ok(EventView::Ignored)
    }
}

/// The event that a line of the socket stands for: a name, `>>` and its data.
pub open spec fn line_event(line: Text) -> Result<EventView, ParseError> {
    match text::split_first(text::without_line_end(line), ">>"@) {
        Some((name, data)) => named_event(name, data),
        None => Err(ParseError::MissingSeparator),
    }
}

/// Reads one line of the event socket.
pub fn parse_line<'a>(line: &'a str) -> (event: Result<Event<'a>, ParseError>)
    ensures
        event is Ok <==> line_event(line@) is Ok,
        event matches Ok(e) ==> line_event(line@) == Ok::<EventView, ParseError>(e@),
        event matches Err(e) ==> line_event(line@) == Err::<EventView, ParseError>(e),
{
    let line = text::trim_line_end(line);
    proof {
        reveal_strlit(">>");
        reveal_strlit(",");
    }
    let (name, data) = match text::split_once(line, ">>") {
        Some(parts) => parts,
        None => {
            return Err(ParseError::MissingSeparator);
        },
    };
    if text::same_text(name, "activewindow") {
        let class_name = match text::split_once(data, ",") {
            Some((class_name, _)) => class_name,
            None => data,
        };
        Ok(Event::ActiveWindow { class_name })
    } else if text::same_text(name, "activewindowv2") {
        if data.is_empty() {
            Ok(Event::EmptyActiveWindow)
        } else {
            match parse_window_addr(data) {
                Ok(addr) => Ok(Event::ActiveWindowV2 { addr }),
                Err(err) => Err(err),
            }
        }
    } else if text::same_text(name, "closewindow") {
        match parse_window_addr(data) {
            Ok(addr) => Ok(Event::CloseWindow { addr }),
            Err(err) => Err(err),
        }
    } else if text::same_text(name, "activelayout") {
        match text::split_once(data, ",") {
            Some((keyboard, layout_name)) => Ok(Event::ActiveLayout { keyboard, layout_name }),
            None => Err(ParseError::BadActiveLayout),
        }
    } else if text::same_text(name, "openlayer") {
        Ok(Event::OpenLayer { namespace: data })
    } else if text::same_text(name, "closelayer") {
        Ok(Event::CloseLayer { namespace: data })
    } else {
        Ok(Event::Ignored)
    }
}

/// Reads a window address.
pub fn parse_window_addr(input: &str) -> (addr: Result<WindowAddr, ParseError>)
    ensures
        addr == (match window_addr(input@) {
            Some(a) => Ok::<WindowAddr, ParseError>(WindowAddr(a)),
            None => Err(ParseError::BadWindowAddress),
        }),
{
    proof {
        reveal_strlit("0x");
    }
    match numbers::read_hex(text::trim_prefixes(input, "0x")) {
        Some(addr) => Ok(WindowAddr(addr)),
        None => Err(ParseError::BadWindowAddress),
    }
}

/// The layout index that a number stands for, if it is not too large for one.
pub fn parse_layout_index(input: u64) -> (index: Option<LayoutIndex>)
    ensures
        index == (if input <= LayoutIndex::MAX {
            Some(input as LayoutIndex)
        } else {
            None
        }),
{
    if input <= 255 {
        Some(input as LayoutIndex)
    } else {
        None
    }
}

/// Copies of `0x` are taken off in the same way where the digits are in upper case.
proof fn lemma_upper_prefixes(input: Text)
    ensures
        text::without_prefixes(numbers::upper_digits(input), "0x"@) == numbers::upper_digits(
            text::without_prefixes(input, "0x"@),
        ),
    decreases input.len(),
{
    reveal_strlit("0x");
    let upper = numbers::upper_digits(input);
    let prefix = "0x"@;
    assert(text::occurs_at(upper, prefix, 0) == text::occurs_at(input, prefix, 0)) by {
        if input.len() >= 2 {
            assert(upper[0] == numbers::upper_digit(input[0]));
            assert(upper[1] == numbers::upper_digit(input[1]));
            assert(upper.subrange(0, 2) =~= seq![upper[0], upper[1]]);
            assert(input.subrange(0, 2) =~= seq![input[0], input[1]]);
            assert(prefix =~= seq!['0', 'x']);
            assert(seq![upper[0], upper[1]][0] == upper[0] && seq![upper[0], upper[1]][1]
                == upper[1]);
            assert(seq![input[0], input[1]][0] == input[0] && seq![input[0], input[1]][1]
                == input[1]);
        }
    }
    if text::occurs_at(input, prefix, 0) {
        lemma_upper_prefixes(input.skip(2));
        assert(upper.skip(2) =~= numbers::upper_digits(input.skip(2)));
    }
}

/// An address reads the same with its digits in upper case.
pub proof fn law_address_case_ignored(input: Text)
    ensures
        window_addr(numbers::upper_digits(input)) == window_addr(input),
{
    lemma_upper_prefixes(input);
    numbers::law_upper_case_number(text::without_prefixes(input, "0x"@));
}

/// An address that was written is read back as itself, with or without the `0x`, and with
/// digits of either case.
pub proof fn law_address_round_trip(addr: WindowAddr)
    ensures
        window_addr(addr.text()) == Some(addr.0),
        window_addr(numbers::hex_text(addr.0 as nat)) == Some(addr.0),
        window_addr(numbers::upper_digits(addr.text())) == Some(addr.0),
        window_addr(numbers::upper_digits(numbers::hex_text(addr.0 as nat))) == Some(addr.0),
{
    reveal_strlit("0x");
    let digits = numbers::hex_text(addr.0 as nat);
    let written = addr.text();
    numbers::lemma_hex_text(addr.0 as nat);
    numbers::law_hex_round_trip(addr.0);
    assert(!text::occurs_at(digits, "0x"@, 0)) by {
        if text::occurs_at(digits, "0x"@, 0) {
            assert(digits.subrange(0, 2)[1] == 'x');
            assert(numbers::hex_digit(digits[1]) is Some);
        }
    }
    assert(written.subrange(0, 2) =~= "0x"@);
    assert(text::occurs_at(written, "0x"@, 0));
    assert(written.skip(2) =~= digits);
    assert(text::without_prefixes(digits, "0x"@) == digits);
    law_address_case_ignored(written);
    law_address_case_ignored(digits);
}

/// A line means the same with and without line ends, however many and in whatever order.
pub proof fn law_line_end_ignored(line: Text, ends: Text)
    requires
        forall|i: int| 0 <= i < ends.len() ==> #[trigger] ends[i] == '\n' || ends[i] == '\r',
    ensures
        line_event(line + ends) == line_event(line),
    decreases ends.len(),
{
    if ends.len() == 0 {
        assert(line + ends =~= line);
    } else {
        let fewer = ends.drop_last();
        assert forall|i: int| 0 <= i < fewer.len() implies #[trigger] fewer[i] == '\n' || fewer[i]
            == '\r' by {
            assert(fewer[i] == ends[i]);
        }
        law_line_end_ignored(line, fewer);
        assert(ends[ends.len() - 1] == ends.last());
        assert((line + ends).last() == ends.last());
        assert((line + ends).drop_last() =~= line + fewer);
    }
}

/// A line is read as what stands before the first `>>` and what stands after it.
pub proof fn law_line_read(name: Text, data: Text)
    requires
        name.len() > 0 ==> name.last() != '>',
        forall|i: int| 0 <= i < name.len() - 1 ==> !(#[trigger] name[i] == '>' && name[i + 1] == '>'),
        data.len() > 0 ==> data.last() != '\n' && data.last() != '\r',
    ensures
        line_event(name + ">>"@ + data) == named_event(name, data),
{
    reveal_strlit(">>");
    let line = name + ">>"@ + data;
    let i = name.len() as int;
    assert(text::without_line_end(line) == line) by {
        if data.len() > 0 {
            assert(line.last() == data.last());
        } else {
            assert(line.last() == '>');
        }
    }
    assert(line.subrange(i, i + 2) =~= ">>"@);
    assert forall|j: int| 0 <= j < i implies !text::occurs_at(line, ">>"@, j) by {
        if text::occurs_at(line, ">>"@, j) {
            assert(line.subrange(j, j + 2)[0] == '>');
            assert(line.subrange(j, j + 2)[1] == '>');
            assert(name[j] == '>');
            assert(line[j + 1] == '>');
            if j < i - 1 {
                assert(name[j + 1] == '>');
            }
        }
    }
    text::lemma_split_first(line, ">>"@, i);
    assert(line.take(i) =~= name);
    assert(line.skip(i + 2) =~= data);
}

/// The report of a keyboard is read as that, if the keyboard's name holds no comma.
pub proof fn law_layout_line(keyboard: Text, layout_name: Text)
    requires
        !keyboard.contains(','),
        layout_name.len() > 0 ==> layout_name.last() != '\n' && layout_name.last() != '\r',
    ensures
        line_event("activelayout"@ + ">>"@ + (keyboard + ","@ + layout_name)) == Ok::<
            EventView,
            ParseError,
        >(EventView::ActiveLayout { keyboard, layout_name }),
{
    reveal_strlit(",");
    reveal_strlit("activelayout");
    reveal_strlit("activewindow");
    reveal_strlit("activewindowv2");
    reveal_strlit("closewindow");
    let data = keyboard + ","@ + layout_name;
    let i = keyboard.len() as int;
    assert(data.last() == if layout_name.len() > 0 {
        layout_name.last()
    } else {
        ','
    });
    assert(!"activelayout"@.contains('>'));
    lemma_plain_name("activelayout"@, data);
    assert(data.subrange(i, i + 1) =~= ","@);
    assert forall|j: int| 0 <= j < i implies !text::occurs_at(data, ","@, j) by {
        if text::occurs_at(data, ","@, j) {
            assert(data.subrange(j, j + 1)[0] == ',');
            assert(keyboard[j] == ',');
        }
    }
    text::lemma_split_first(data, ","@, i);
    assert(data.take(i) =~= keyboard);
    assert(data.skip(i + 1) =~= layout_name);
    assert("activelayout"@.len() == 12 && "activewindow"@.len() == 12);
    assert("activelayout"@[6] == 'l' && "activewindow"@[6] == 'w');
}

/// The focus and the end of a window are read with the address that they name.
pub proof fn law_window_lines(addr: WindowAddr)
    ensures
        line_event("activewindowv2"@ + ">>"@ + addr.text()) == Ok::<EventView, ParseError>(
            EventView::ActiveWindowV2 { addr: addr.0 },
        ),
        line_event("closewindow"@ + ">>"@ + addr.text()) == Ok::<EventView, ParseError>(
            EventView::CloseWindow { addr: addr.0 },
        ),
{
    reveal_strlit("activewindow");
    reveal_strlit("activewindowv2");
    reveal_strlit("closewindow");
    let written = addr.text();
    law_address_round_trip(addr);
    numbers::lemma_hex_text(addr.0 as nat);
    let digits = numbers::hex_text(addr.0 as nat);
    assert(written.last() == digits.last());
    assert(numbers::hex_digit(digits[digits.len() - 1]) is Some);
    assert(!"activewindowv2"@.contains('>'));
    assert(!"closewindow"@.contains('>'));
    lemma_plain_name("activewindowv2"@, written);
    lemma_plain_name("closewindow"@, written);
    assert("closewindow"@.len() != "activewindow"@.len());
    assert("closewindow"@.len() != "activewindowv2"@.len());
    assert("activewindow"@.len() != "activewindowv2"@.len());
}

/// The names that a line can have are different, and hold no `>`.
proof fn lemma_names()
    ensures
        "activewindow"@ != "activewindowv2"@,
        "activewindow"@ != "closewindow"@,
        "activewindow"@ != "activelayout"@,
        "activewindow"@ != "openlayer"@,
        "activewindow"@ != "closelayer"@,
        "activewindowv2"@ != "closewindow"@,
        "activewindowv2"@ != "activelayout"@,
        "activewindowv2"@ != "openlayer"@,
        "activewindowv2"@ != "closelayer"@,
        "closewindow"@ != "activelayout"@,
        "closewindow"@ != "openlayer"@,
        "closewindow"@ != "closelayer"@,
        "activelayout"@ != "openlayer"@,
        "activelayout"@ != "closelayer"@,
        "openlayer"@ != "closelayer"@,
        !"activewindow"@.contains('>'),
        !"activewindowv2"@.contains('>'),
        !"closewindow"@.contains('>'),
        !"activelayout"@.contains('>'),
        !"openlayer"@.contains('>'),
        !"closelayer"@.contains('>'),
{
    reveal_strlit("activewindow");
    reveal_strlit("activewindowv2");
    reveal_strlit("closewindow");
    reveal_strlit("activelayout");
    reveal_strlit("openlayer");
    reveal_strlit("closelayer");
    assert("activewindow"@.len() == 12 && "activelayout"@.len() == 12);
    assert("activewindow"@[6] == 'w' && "activelayout"@[6] == 'l');
    assert("activewindowv2"@.len() == 14 && "closewindow"@.len() == 11);
    assert("openlayer"@.len() == 9 && "closelayer"@.len() == 10);
}

/// A name without `>` is read as a name.
proof fn lemma_plain_name(name: Text, data: Text)
    requires
        !name.contains('>'),
        data.len() > 0 ==> data.last() != '\n' && data.last() != '\r',
    ensures
        line_event(name + ">>"@ + data) == named_event(name, data),
{
    assert forall|i: int| 0 <= i < name.len() - 1 implies !(#[trigger] name[i] == '>' && name[i + 1]
        == '>') by {
        assert(name.contains(name[i]));
    }
    if name.len() > 0 {
        assert(name[name.len() - 1] == name.last());
        assert(name.contains(name.last()));
    }
    law_line_read(name, data);
}

/// A text without a comma is all that stands before the first comma after it.
proof fn lemma_before_comma(head: Text, tail: Text)
    requires
        !head.contains(','),
    ensures
        text::split_first(head + ","@ + tail, ","@) == Some((head, tail)),
{
    reveal_strlit(",");
    let data = head + ","@ + tail;
    let i = head.len() as int;
    assert(data.subrange(i, i + 1) =~= ","@);
    assert forall|j: int| 0 <= j < i implies !text::occurs_at(data, ","@, j) by {
        if text::occurs_at(data, ","@, j) {
            assert(data.subrange(j, j + 1)[0] == ',');
            assert(head[j] == ',');
        }
    }
    text::lemma_split_first(data, ","@, i);
    assert(data.take(i) =~= head);
    assert(data.skip(i + 1) =~= tail);
}

/// Without a comma there is nothing to part.
proof fn lemma_no_comma(data: Text)
    requires
        !data.contains(','),
    ensures
        text::split_first(data, ","@) is None,
{
    reveal_strlit(",");
    if text::contains_text(data, ","@) {
        let i = choose|i: int| text::occurs_at(data, ","@, i);
        assert(data.subrange(i, i + 1)[0] == ',');
        assert(data[i] == ',');
    }
}

/// The class of the window that gets the focus is what stands before the first comma,
/// whatever the title after it holds.
pub proof fn law_class_line(class_name: Text, title: Text)
    requires
        !class_name.contains(','),
        title.len() > 0 ==> title.last() != '\n' && title.last() != '\r',
    ensures
        line_event("activewindow"@ + ">>"@ + (class_name + ","@ + title)) == Ok::<
            EventView,
            ParseError,
        >(EventView::ActiveWindow { class_name }),
{
    reveal_strlit(",");
    let data = class_name + ","@ + title;
    assert(data.last() == if title.len() > 0 {
        title.last()
    } else {
        ','
    });
    lemma_names();
    lemma_plain_name("activewindow"@, data);
    lemma_before_comma(class_name, title);
}

/// Where no title follows, the whole data is the class.
pub proof fn law_class_line_without_title(class_name: Text)
    requires
        !class_name.contains(','),
        class_name.len() > 0 ==> class_name.last() != '\n' && class_name.last() != '\r',
    ensures
        line_event("activewindow"@ + ">>"@ + class_name) == Ok::<EventView, ParseError>(
            EventView::ActiveWindow { class_name },
        ),
{
    lemma_names();
    lemma_plain_name("activewindow"@, class_name);
    lemma_no_comma(class_name);
}

/// A focus without an address is that of no window.
pub proof fn law_empty_focus_line()
    ensures
        line_event("activewindowv2"@ + ">>"@) == Ok::<EventView, ParseError>(
            EventView::EmptyActiveWindow,
        ),
{
    lemma_names();
    lemma_plain_name("activewindowv2"@, Seq::empty());
    assert("activewindowv2"@ + ">>"@ + Seq::<char>::empty() =~= "activewindowv2"@ + ">>"@);
}

/// The lines about a window are read by their address, and refused where it is none.
pub proof fn law_address_lines(data: Text)
    requires
        data.len() > 0 ==> data.last() != '\n' && data.last() != '\r',
    ensures
        ({
            let focus = line_event("activewindowv2"@ + ">>"@ + data);
            let close = line_event("closewindow"@ + ">>"@ + data);
            &&& window_addr(data) matches Some(addr) ==> {
                &&& data.len() > 0 ==> focus == Ok::<EventView, ParseError>(
                    EventView::ActiveWindowV2 { addr },
                )
                &&& close == Ok::<EventView, ParseError>(EventView::CloseWindow { addr })
            }
            &&& window_addr(data) is None ==> {
                &&& data.len() > 0 ==> focus == Err::<EventView, ParseError>(
                    ParseError::BadWindowAddress,
                )
                &&& close == Err::<EventView, ParseError>(ParseError::BadWindowAddress)
            }
        }),
{
    lemma_names();
    lemma_plain_name("activewindowv2"@, data);
    lemma_plain_name("closewindow"@, data);
}

/// A report of a keyboard without a comma is malformed.
pub proof fn law_bad_layout_line(data: Text)
    requires
        !data.contains(','),
        data.len() > 0 ==> data.last() != '\n' && data.last() != '\r',
    ensures
        line_event("activelayout"@ + ">>"@ + data) == Err::<EventView, ParseError>(
            ParseError::BadActiveLayout,
        ),
{
    lemma_names();
    lemma_plain_name("activelayout"@, data);
    lemma_no_comma(data);
}

/// The lines about a layer are read with their whole data as the namespace.
pub proof fn law_layer_lines(namespace: Text)
    requires
        namespace.len() > 0 ==> namespace.last() != '\n' && namespace.last() != '\r',
    ensures
        line_event("openlayer"@ + ">>"@ + namespace) == Ok::<EventView, ParseError>(
            EventView::OpenLayer { namespace },
        ),
        line_event("closelayer"@ + ">>"@ + namespace) == Ok::<EventView, ParseError>(
            EventView::CloseLayer { namespace },
        ),
{
    lemma_names();
    lemma_plain_name("openlayer"@, namespace);
    lemma_plain_name("closelayer"@, namespace);
}

/// A line with any other name means nothing here, whatever its data is.
pub proof fn law_other_lines(name: Text, data: Text)
    requires
        name.len() > 0 ==> name.last() != '>',
        forall|i: int| 0 <= i < name.len() - 1 ==> !(#[trigger] name[i] == '>' && name[i + 1] == '>'),
        data.len() > 0 ==> data.last() != '\n' && data.last() != '\r',
        name != "activewindow"@,
        name != "activewindowv2"@,
        name != "closewindow"@,
        name != "activelayout"@,
        name != "openlayer"@,
        name != "closelayer"@,
    ensures
        line_event(name + ">>"@ + data) == Ok::<EventView, ParseError>(EventView::Ignored),
{
    law_line_read(name, data);
}

/// A line in which no two `>` stand side by side is no event.
pub proof fn law_line_without_separator(line: Text)
    requires
        forall|i: int| 0 <= i < line.len() - 1 ==> !(#[trigger] line[i] == '>' && line[i + 1] == '>'),
    ensures
        line_event(line) == Err::<EventView, ParseError>(ParseError::MissingSeparator),
    decreases line.len(),
{
    reveal_strlit(">>");
    if line.len() > 0 && (line.last() == '\n' || line.last() == '\r') {
        let shorter = line.drop_last();
        assert forall|i: int| 0 <= i < shorter.len() - 1 implies !(#[trigger] shorter[i] == '>'
            && shorter[i + 1] == '>') by {
            assert(shorter[i] == line[i] && shorter[i + 1] == line[i + 1]);
        }
        law_line_without_separator(shorter);
    } else if text::contains_text(line, ">>"@) {
        let i = choose|i: int| text::occurs_at(line, ">>"@, i);
        assert(line.subrange(i, i + 2)[0] == '>');
        assert(line.subrange(i, i + 2)[1] == '>');
        assert(line[i] == '>' && line[i + 1] == '>');
    }
}

/// One more `0x` before an address changes nothing; without any, the address is the
/// hexadecimal number that the whole text is.
pub proof fn law_address_prefix(input: Text)
    ensures
        window_addr("0x"@ + input) == window_addr(input),
        !(input.len() >= 2 && input[0] == '0' && input[1] == 'x') ==> window_addr(input)
            == numbers::hex_number(input),
{
    reveal_strlit("0x");
    let longer = "0x"@ + input;
    assert(longer.subrange(0, 2) =~= "0x"@);
    assert(text::occurs_at(longer, "0x"@, 0));
    assert(longer.skip(2) =~= input);
    if text::occurs_at(input, "0x"@, 0) {
        assert(input.subrange(0, 2)[0] == '0');
        assert(input.subrange(0, 2)[1] == 'x');
    }
}

} // verus!
