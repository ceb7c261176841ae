use hypr_kblayoutd::event::{parse_line, Event, ParseError};
use hypr_kblayoutd::state::WindowAddr;

#[test]
fn parses_active_window_class() {
    assert_eq!(
        parse_line("activewindow>>firefox,Some title\n").unwrap(),
        Event::ActiveWindow {
            class_name: "firefox"
        }
    );
}

#[test]
fn parses_active_window_v2_address() {
    assert_eq!(
        parse_line("activewindowv2>>55b0cd60fa30\n").unwrap(),
        Event::ActiveWindowV2 {
            addr: WindowAddr(0x55b0cd60fa30)
        }
    );
}

#[test]
fn parses_empty_active_window() {
    assert_eq!(
        parse_line("activewindowv2>>\n").unwrap(),
        Event::EmptyActiveWindow
    );
}

#[test]
fn parses_close_window_with_prefix() {
    assert_eq!(
        parse_line("closewindow>>0x55b0cd60fa30\n").unwrap(),
        Event::CloseWindow {
            addr: WindowAddr(0x55b0cd60fa30)
        }
    );
}

#[test]
fn parses_active_layout_with_commas_in_layout_name() {
    assert_eq!(
        parse_line("activelayout>>kbd,English (US, intl., with dead keys)\n").unwrap(),
        Event::ActiveLayout {
            keyboard: "kbd",
            layout_name: "English (US, intl., with dead keys)"
        }
    );
}

#[test]
fn rejects_bad_addresses() {
    assert_eq!(
        parse_line("activewindowv2>>not-hex").unwrap_err(),
        ParseError::BadWindowAddress
    );
}
