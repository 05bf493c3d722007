use ono::config::yaml_parser::{
    clear_yaml_value, get_key_value, parse_yaml_from_string, remove_yaml_comments, YamlMap,
    YamlParserError, YamlValue,
};

#[test]
fn it_cant_parse_invalid_yaml() {
    let yaml = "I'm not a valid yaml.";
    let result = parse_yaml_from_string(yaml);
    assert!(result.is_err_and(|x| x == YamlParserError::FileParseError));
}

#[test]
fn it_parses_valid_yaml() {
    let yaml = "
value: testing
foo:
    - list1
    - list2
bar:
    - 1
    - 2.0
";

    let result = parse_yaml_from_string(yaml);
    assert!(result.is_ok());

    let map = result.unwrap();

    let key_value = map.get("value").unwrap();
    if let Some(val) = key_value.as_str() {
        assert_eq!(val, "testing");
    } else {
        panic!("Could not get foo.");
    }

    let foo = map.get("foo").unwrap();
    if let Some(foo_val) = foo.as_vec() {
        assert_eq!(foo_val.len(), 2);
        assert_eq!(foo_val[0], "list1");
        assert_eq!(foo_val[1], "list2");
    } else {
        panic!("Could not get foo.");
    }

    let foo = map.get("bar").unwrap();
    if let Some(foo_val) = foo.as_vec() {
        assert_eq!(foo_val.len(), 2);
        assert_eq!(foo_val[0], "1");
        assert_eq!(foo_val[1], "2.0");
    } else {
        panic!("Could not get bar.");
    }
}

#[test]
fn it_clears_yaml_value() {
    let test_cases = vec![
        ("", ""),
        ("  ", ""),
        (" \"\" ", ""),
        (" - test ", "test"),
        ("\"value\"", "value"),
    ];

    for (input, expected) in test_cases {
        assert_eq!(&clear_yaml_value(input), &expected);
    }
}

#[test]
fn it_gets_key_value() {
    let test_cases = vec![
        ("", (None, None)),
        ("test:3", (Some("test"), Some("3"))),
        ("test:", (Some("test"), None)),
        ("  - array value", (None, Some("array value"))),
        ("test:\"test value\"", (Some("test"), Some("test value"))),
    ];

    for (input, expected) in test_cases {
        let (key, value) = get_key_value(input);

        assert_eq!(key, expected.0);
        assert_eq!(value, expected.1);
    }
}

#[test]
fn it_removes_yaml_comments() {
    let test_cases = vec![
        ("", ""),
        ("# this is comment", ""),
        ("#comment", ""),
        ("32 # comment", "32"),
        (
            "\"in quotes # is not a comment\"",
            "\"in quotes # is not a comment\"",
        ),
    ];

    for (input, expected) in test_cases {
        assert_eq!(&remove_yaml_comments(input), &expected);
    }
}

fn text_at<'a>(map: &'a YamlMap, key: &str) -> Option<&'a str> {
    map.get(key).and_then(|value| value.as_str())
}

fn items_at(map: &YamlMap, key: &str) -> Option<Vec<String>> {
    map.get(key).and_then(|value| value.as_vec()).map(|items| items.to_vec())
}

#[test]
fn cleaning_removes_one_pair_of_quotes_and_one_dash() {
    assert_eq!(clear_yaml_value("\"\"a\"\""), "\"a\"");
    assert_eq!(clear_yaml_value("--a"), "-a");
    assert_eq!(clear_yaml_value("\""), "\"");
    assert_eq!(clear_yaml_value("\"a"), "\"a");
    assert_eq!(clear_yaml_value("a\""), "a\"");
    assert_eq!(clear_yaml_value("-"), "");
    assert_eq!(clear_yaml_value("\"- a\""), "a");
    assert_eq!(clear_yaml_value("  \" padded \"  "), "padded");
    assert_eq!(clear_yaml_value("-\"a\""), "\"a\"");
    assert_eq!(clear_yaml_value("\u{a0}\u{3000}value\u{2003}"), "value");
}

#[test]
fn cleaning_a_plain_value_again_changes_nothing() {
    for raw in ["", "  ", " - test ", "\"value\"", "a - b", " \"x\"y ", "plain", "- \"k\": v"] {
        let once = clear_yaml_value(raw);
        let plain = !once.starts_with('-') && !(once.len() >= 2 && once.starts_with('"') && once.ends_with('"'));
        assert_eq!(clear_yaml_value(once) == once, plain, "{raw:?}");
    }
    assert_eq!(clear_yaml_value("test"), "test");
    assert_eq!(clear_yaml_value(clear_yaml_value(" - test ")), "test");
}

#[test]
fn cleaning_a_value_that_keeps_a_marker_changes_it() {
    let once = clear_yaml_value("--a");
    assert_eq!(once, "-a");
    assert_eq!(clear_yaml_value(once), "a");
    let once = clear_yaml_value("-\"a\"");
    assert_eq!(once, "\"a\"");
    assert_eq!(clear_yaml_value(once), "a");
}

#[test]
fn comments_start_at_the_first_hash_outside_quotes() {
    assert_eq!(remove_yaml_comments("a \"b # c\" d # e"), "a \"b # c\" d");
    assert_eq!(remove_yaml_comments("a \"b\" # c \"d\""), "a \"b\"");
    assert_eq!(remove_yaml_comments("\"open # never closed"), "\"open # never closed");
    assert_eq!(remove_yaml_comments("a\\\"b # c"), "a\\\"b # c");
    assert_eq!(remove_yaml_comments("   spaced   "), "spaced");
    assert_eq!(remove_yaml_comments("key: value#tight"), "key: value");
    assert_eq!(remove_yaml_comments("é: ü # ß"), "é: ü");
}

#[test]
fn a_colon_inside_quotes_parts_nothing() {
    assert_eq!(get_key_value("\"a:b\""), (None, Some("a:b")));
    assert_eq!(get_key_value("\"a:b\": c"), (Some("\"a:b\""), Some("c")));
    assert_eq!(get_key_value("a: b: c"), (Some("a"), Some("b: c")));
    assert_eq!(get_key_value(": value"), (Some(""), Some("value")));
    assert_eq!(get_key_value(":"), (Some(""), None));
    assert_eq!(get_key_value("  key  :  - item "), (Some("key"), Some("item")));
    assert_eq!(get_key_value("url: \"http://x\""), (Some("url"), Some("http://x")));
    assert_eq!(get_key_value("-"), (None, None));
    assert_eq!(get_key_value("\"quoted item\""), (None, Some("quoted item")));
}

#[test]
fn the_first_occurrence_of_a_key_wins() {
    let map = parse_yaml_from_string("k: first\nother: x\nk: second\nk:\n- third\n").unwrap();
    assert_eq!(text_at(&map, "k"), Some("first"));
    assert_eq!(text_at(&map, "other"), Some("x"));
    assert_eq!(map.len(), 2);

    let map = parse_yaml_from_string("k:\n- a\nk: text\n- b\n").unwrap();
    assert_eq!(items_at(&map, "k"), Some(vec!["a".to_string(), "b".to_string()]));
    assert_eq!(text_at(&map, "k"), None);
}

#[test]
fn items_accumulate_in_the_order_of_the_lines() {
    for count in 0..6 {
        let mut text = String::from("list:\n");
        let mut expected = Vec::new();
        for i in 0..count {
            text.push_str(&format!("  - item {i}\n"));
            expected.push(format!("item {i}"));
        }
        let map = parse_yaml_from_string(&text).unwrap();
        assert_eq!(map.len(), 1);
        assert_eq!(items_at(&map, "list"), Some(expected));
    }
}

#[test]
fn a_dash_line_with_a_colon_is_a_key_line() {
    let map = parse_yaml_from_string("k:\n- a: b\n").unwrap();
    assert_eq!(items_at(&map, "k"), Some(vec![]));
    assert_eq!(text_at(&map, "- a"), Some("b"));
}

#[test]
fn a_quoted_hash_stays_through_a_whole_document() {
    let map = parse_yaml_from_string("note: \"in quotes # is not a comment\" # but this is\n").unwrap();
    assert_eq!(text_at(&map, "note"), Some("in quotes # is not a comment"));
}

#[test]
fn a_document_without_a_key_is_refused() {
    for text in ["", "\n\n", "# only a comment\n", "- stray item\n- another\n", "   ", "just words", "\"a: b\""] {
        assert_eq!(parse_yaml_from_string(text).err(), Some(YamlParserError::FileParseError), "{text:?}");
    }
}

#[test]
fn a_key_without_a_value_gives_an_empty_list() {
    let map = parse_yaml_from_string("key:").unwrap();
    assert_eq!(map.len(), 1);
    assert!(!map.is_empty());
    assert!(map.contains_key("key"));
    assert_eq!(items_at(&map, "key"), Some(vec![]));
    assert!(matches!(map.get("key"), Some(YamlValue::Array(items)) if items.is_empty()));
}

#[test]
fn items_without_a_list_are_passed_over() {
    let map = parse_yaml_from_string("- early\na: 1\n- after text\nb:\n- kept\n\n# note\n- also kept\na:\n- lost\n").unwrap();
    assert_eq!(text_at(&map, "a"), Some("1"));
    assert_eq!(items_at(&map, "b"), Some(vec!["kept".to_string(), "also kept".to_string()]));
    assert_eq!(map.len(), 2);
}

#[test]
fn a_key_with_a_value_leaves_the_current_list_open() {
    let map = parse_yaml_from_string("list:\n- one\nname: x\n- two\n").unwrap();
    assert_eq!(items_at(&map, "list"), Some(vec!["one".to_string(), "two".to_string()]));
    assert_eq!(text_at(&map, "name"), Some("x"));
}

#[test]
fn carriage_returns_end_lines_too() {
    let map = parse_yaml_from_string("a: 1\r\nb:\r\n- x\r\n").unwrap();
    assert_eq!(text_at(&map, "a"), Some("1"));
    assert_eq!(items_at(&map, "b"), Some(vec!["x".to_string()]));
}

#[test]
fn a_map_keeps_the_first_value_put_under_a_key() {
    let mut map = YamlMap::new();
    assert!(map.is_empty());
    assert_eq!(map.len(), 0);
    map.insert_if_absent("a".to_string(), YamlValue::String("1".to_string()));
    map.insert_if_absent("a".to_string(), YamlValue::String("2".to_string()));
    map.insert_if_absent("l".to_string(), YamlValue::Array(vec![]));
    map.insert_if_absent("n".to_string(), YamlValue::Null);
    map.append_item("l", "x".to_string());
    map.append_item("a", "y".to_string());
    map.append_item("n", "z".to_string());
    map.append_item("missing", "w".to_string());
    assert_eq!(map.len(), 3);
    assert_eq!(map.text("a"), Some("1"));
    assert_eq!(map.text("l"), None);
    assert_eq!(map.text("missing"), None);
    assert_eq!(items_at(&map, "l"), Some(vec!["x".to_string()]));
    assert!(matches!(map.get("n"), Some(YamlValue::Null)));
    assert!(map.get("n").unwrap().as_str().is_none());
    assert!(map.get("n").unwrap().as_vec().is_none());
    assert!(map.get("missing").is_none());
    assert!(!map.contains_key("missing"));
}
