use hypr_kblayoutd::config::is_excluded_by;
use hypr_kblayoutd::event::{
    parse_layout_index, parse_line, parse_window_addr, Event, ParseError,
};
use hypr_kblayoutd::layers;
use hypr_kblayoutd::numbers;
use hypr_kblayoutd::paths;
use hypr_kblayoutd::rules::choose_layout;
use hypr_kblayoutd::state::WindowAddr;
use hypr_kblayoutd::string_map::StringMap;
use hypr_kblayoutd::text;
use hypr_kblayoutd::text::TextOrder;

const SAMPLES: [&str; 12] = [
    "", "a", "ab", "b", "A", "é", "ée", "日本", "日", "a\u{0}", "🙂", "\u{ffff}",
];

fn order(a: &str, b: &str) -> &'static str {
    match text::compare_texts(a, b) {
        TextOrder::Before => "before",
        TextOrder::Same => "same",
        TextOrder::After => "after",
    }
}

#[test]
fn texts_are_ordered_as_strings_are() {
    for a in SAMPLES {
        for b in SAMPLES {
            let expected = if a < b {
                "before"
            } else if a == b {
                "same"
            } else {
                "after"
            };
            assert_eq!(order(a, b), expected, "{a:?} {b:?}");
            assert_eq!(text::same_text(a, b), a == b);
        }
    }
}

#[test]
fn parts_are_found_as_strings_find_them() {
    for whole in ["", "a>>b", ">>", ">>>", "a>b", "日>>本>>", "ab,cd,", ",", "éé"] {
        for part in [">>", ",", "é", "日", "b"] {
            assert_eq!(text::contains(whole, part), whole.contains(part));
            assert_eq!(text::split_once(whole, part), whole.split_once(part));
            assert_eq!(
                text::trim_prefixes(whole, part),
                whole.trim_start_matches(part)
            );
        }
        assert!(text::contains(whole, ""));
    }
    for line in ["", "\n", "a\n", "a\r\n", "a\nb", "\r\ra\n\r\n"] {
        assert_eq!(
            text::trim_line_end(line),
            line.trim_end_matches(['\n', '\r'])
        );
    }
}

#[test]
fn white_space_is_what_char_says() {
    for c in '\u{0}'..=char::MAX {
        assert_eq!(text::is_white_space(c), c.is_whitespace(), "{c:?}");
    }
    for s in ["", " ", "\t\u{2003}", " a ", "日"] {
        assert_eq!(text::is_blank(s), s.trim().is_empty());
    }
}

#[test]
fn lists_are_searched_copied_and_told_apart() {
    let list = vec!["a".to_string(), "b".to_string()];
    assert!(text::list_contains(&list, "b"));
    assert!(!text::list_contains(&list, "c"));
    assert_eq!(text::copy_list(&list), list);
    assert!(text::same_list(&list, &text::copy_list(&list)));
    assert!(!text::same_list(&list, &list[..1]));
}

#[test]
fn hexadecimal_is_read_as_std_reads_it() {
    for s in [
        "", "+", "-", "0", "00", "f", "F", "+ff", "++f", "-1", "0x1", "g", "1g", "_1", "1 ",
        "ffffffffffffffff", "10000000000000000", "0000000000000000000000001", "日",
    ] {
        assert_eq!(
            numbers::read_hex(s),
            u64::from_str_radix(s, 16).ok(),
            "{s:?}"
        );
    }
}

#[test]
fn numbers_are_written_as_std_writes_them() {
    for n in [0, 9, 10, 15, 16, 255, 256, 65535, 1234567890123, u64::MAX] {
        let mut decimal = "n=".to_string();
        numbers::append_decimal(&mut decimal, n);
        assert_eq!(decimal, format!("n={n}"));
        let mut hexadecimal = "n=".to_string();
        numbers::append_hex(&mut hexadecimal, n);
        assert_eq!(hexadecimal, format!("n={n:x}"));
    }
}

#[test]
fn addresses_may_have_any_number_of_prefixes() {
    assert_eq!(parse_window_addr("0x0xff"), Ok(WindowAddr(0xff)));
    assert_eq!(parse_window_addr("+ff"), Ok(WindowAddr(0xff)));
    assert_eq!(parse_window_addr("0x+ff"), Ok(WindowAddr(0xff)));
    for bad in ["", "0x", "0xg", "+", "10000000000000000", "0X1"] {
        assert_eq!(
            parse_window_addr(bad),
            Err(ParseError::BadWindowAddress),
            "{bad:?}"
        );
    }
}

#[test]
fn layout_indexes_fit_a_byte() {
    assert_eq!(parse_layout_index(0), Some(0));
    assert_eq!(parse_layout_index(255), Some(255));
    assert_eq!(parse_layout_index(256), None);
    assert_eq!(parse_layout_index(u64::MAX), None);
}

#[test]
fn lines_are_read_by_their_names() {
    assert_eq!(
        parse_line("activewindow>>foot"),
        Ok(Event::ActiveWindow { class_name: "foot" })
    );
    assert_eq!(
        parse_line("activewindow>>,"),
        Ok(Event::ActiveWindow { class_name: "" })
    );
    assert_eq!(
        parse_line("openlayer>>rofi\n"),
        Ok(Event::OpenLayer { namespace: "rofi" })
    );
    assert_eq!(
        parse_line("closelayer>>rofi,x\n"),
        Ok(Event::CloseLayer { namespace: "rofi,x" })
    );
    assert_eq!(parse_line("workspace>>2"), Ok(Event::Ignored));
    assert_eq!(parse_line(">>"), Ok(Event::Ignored));
    assert_eq!(parse_line("activelayout>>kbd"), Err(ParseError::BadActiveLayout));
    assert_eq!(parse_line("closewindow>>"), Err(ParseError::BadWindowAddress));
    assert_eq!(parse_line(""), Err(ParseError::MissingSeparator));
    assert_eq!(parse_line("activewindow>foot"), Err(ParseError::MissingSeparator));
}

#[test]
fn paths_are_joined_as_std_joins_them() {
    for base in ["", "/", "/run/user/1000", "/run/", "relative", "日本"] {
        for component in ["", "hypr", "a/b", "/absolute", "日", "."] {
            let expected = std::path::Path::new(base).join(component);
            assert_eq!(
                paths::join_str(base.as_bytes(), component),
                expected.to_str().unwrap().as_bytes(),
                "{base:?} {component:?}"
            );
            assert_eq!(
                paths::join(base.as_bytes(), component.as_bytes()),
                paths::join_str(base.as_bytes(), component)
            );
        }
    }
}

#[test]
fn maps_hold_one_value_per_key_in_order() {
    let mut map: StringMap<u8> = StringMap::new();
    assert!(map.is_empty());
    for (key, value) in [("b", 1), ("a", 2), ("日", 3), ("b", 4), ("", 5)] {
        map.insert(key.to_string(), value);
    }
    assert_eq!(map.len(), 4);
    let entries: Vec<(String, u8)> = (0..map.len())
        .map(|i| (map.entry(i).0.clone(), map.entry(i).1))
        .collect();
    let expected = [("", 5), ("a", 2), ("b", 4), ("日", 3)];
    assert_eq!(
        entries,
        expected.map(|(key, value)| (key.to_string(), value))
    );
    map.remove("a");
    map.remove("missing");
    assert_eq!(map.get("a"), None);
    assert!(map.contains_key("b"));
    assert_eq!(map.clone(), map);
    assert_eq!(map.len(), 3);
}

#[test]
fn layer_lists_are_counted_and_settled() {
    let list = ["rofi", "wofi", "rofi"].map(str::to_string);
    assert_eq!(layers::count_layer(&list, "rofi"), 2);
    assert_eq!(layers::count_layer(&list, "menu"), 0);
    assert_eq!(layers::close_one(&list, "rofi"), ["rofi", "wofi"]);
    assert_eq!(layers::close_one(&list, "menu"), list);
    let live = ["menu", "rofi", "rofi", "menu"].map(str::to_string);
    assert_eq!(
        layers::reconcile(&list, &live),
        ["rofi", "rofi", "menu", "menu"]
    );
    assert_eq!(
        layers::settle_event(&list, "rofi", 3, &live),
        ["rofi", "rofi", "rofi"]
    );
    assert_eq!(
        layers::settle_event(&list, "menu", 1, &list),
        ["rofi", "wofi", "rofi", "menu"]
    );
}

#[test]
fn the_first_match_counts_unless_a_name_is_exact() {
    assert_eq!(choose_layout(Some(7), &[(true, 1)]), Some(7));
    assert_eq!(choose_layout(None, &[(false, 1), (true, 2), (true, 3)]), Some(2));
    assert_eq!(choose_layout(None, &[(false, 1)]), None);
    assert_eq!(choose_layout(None, &[]), None);
}

#[test]
fn an_empty_fragment_excludes_nothing() {
    assert!(!is_excluded_by(&[String::new()], "kbd"));
    assert!(!is_excluded_by(&[], "kbd"));
    assert!(is_excluded_by(&[String::new(), "bd".to_string()], "kbd"));
    assert!(is_excluded_by(&["kbd".to_string()], "kbd"));
    assert!(!is_excluded_by(&["kbd2".to_string()], "kbd"));
}
