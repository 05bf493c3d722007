use ono::store::{
    body, build_snippet, extract_snippet, line_is_blank, line_is_fence, line_is_rule, parse_count,
    scan, Block, Scanner, SnippetError, Timestamp,
};
use ono::config::yaml_parser::{YamlMap, YamlValue};

#[test]
fn a_document_with_metadata_and_a_plain_fence_gives_a_full_snippet() {
    let content = "---\ndescription: Test snippet\nused: 5\n---\n\n```\necho 'hello world'\n```\n";
    let snippet = extract_snippet("/data/test.md", Some("test"), content).unwrap().unwrap();
    assert_eq!(snippet.title(), "test");
    assert_eq!(snippet.description(), "Test snippet");
    assert_eq!(snippet.used(), 5);
    assert_eq!(snippet.command(), "echo 'hello world'");
    assert_eq!(snippet.path(), "/data/test.md");
    assert_eq!(snippet.last_used(), None);
}

#[test]
fn a_tagged_fence_without_metadata_gives_defaults() {
    let content = "```bash\nls -la  \n```\n";
    let snippet = extract_snippet("list.md", Some("list"), content).unwrap().unwrap();
    assert_eq!(snippet.description(), "");
    assert_eq!(snippet.used(), 0);
    assert_eq!(snippet.command(), "ls -la  ");
    assert_eq!(snippet.last_used(), None);
}

#[test]
fn a_closing_fence_at_the_very_end_needs_no_line_feed() {
    let content = "```bash\nls -la\n```";
    let snippet = extract_snippet("list.md", Some("list"), content).unwrap().unwrap();
    assert_eq!(snippet.description(), "");
    assert_eq!(snippet.used(), 0);
    assert_eq!(snippet.command(), "ls -la");
    assert!(!snippet.command().contains("```"));
}

#[test]
fn only_the_first_code_block_counts() {
    let content = "intro\n```sh\nfirst\n```\nbetween\n```sh\nsecond\n```\n";
    let snippet = extract_snippet("two.md", Some("two"), content).unwrap().unwrap();
    assert_eq!(snippet.command(), "first");
}

#[test]
fn a_document_without_a_code_block_gives_no_snippet() {
    let content = "---\ndescription: nothing to run\n---\njust text\n";
    assert!(matches!(extract_snippet("none.md", Some("none"), content), Ok(None)));
    assert!(matches!(extract_snippet("none.md", Some("none"), ""), Ok(None)));
    assert!(matches!(extract_snippet("none.md", Some("none"), "```\n```\n"), Ok(None)));
    assert!(matches!(extract_snippet("none.md", Some("none"), "```\n\n   \n\t\n```\n"), Ok(None)));
    assert!(matches!(extract_snippet("none.md", Some("none"), "---\nused: x\n---\n"), Ok(None)));
}

#[test]
fn an_open_fence_runs_to_the_end_of_the_document() {
    let content = "```\nfirst\nsecond\n";
    let snippet = extract_snippet("open.md", Some("open"), content).unwrap().unwrap();
    assert_eq!(snippet.command(), "first\nsecond");
}

#[test]
fn blank_lines_around_the_body_are_dropped_and_the_rest_is_kept() {
    let content = "```\n\n   \n  indented  \n\nlast \n \n\n```\n";
    let snippet = extract_snippet("b.md", Some("b"), content).unwrap().unwrap();
    assert_eq!(snippet.command(), "  indented  \n\nlast ");
}

#[test]
fn a_fence_may_be_indented_and_a_rule_may_not() {
    assert!(line_is_fence("```"));
    assert!(line_is_fence("```rust"));
    assert!(line_is_fence("   ```"));
    assert!(line_is_fence("\t````"));
    assert!(!line_is_fence("``"));
    assert!(!line_is_fence("a ```"));
    assert!(!line_is_fence(""));
    assert!(!line_is_fence("   "));
    assert!(line_is_rule("---"));
    assert!(!line_is_rule(" ---"));
    assert!(!line_is_rule("--- "));
    assert!(!line_is_rule("----"));
    assert!(!line_is_rule("--"));
    assert!(line_is_blank(""));
    assert!(line_is_blank(" \t\u{a0}"));
    assert!(!line_is_blank(" . "));
    let content = " ---\na: 1\n ---\n  ```\nrun\n  ```\n";
    let snippet = extract_snippet("i.md", Some("i"), content).unwrap().unwrap();
    assert_eq!(snippet.command(), "run");
    assert_eq!(snippet.description(), "");
}

#[test]
fn a_rule_line_ended_by_a_carriage_return_delimits_too() {
    let content = "---\r\ndescription: dos\r\n---\r\n```\r\ndir\r\n```\r\n";
    let snippet = extract_snippet("d.md", Some("d"), content).unwrap().unwrap();
    assert_eq!(snippet.description(), "dos");
    assert_eq!(snippet.command(), "dir");
}

#[test]
fn a_metadata_block_does_not_open_twice() {
    let content = "---\ndescription: first\n---\n---\ndescription: second\nused: 9\n---\n```\nrun\n```\n";
    let snippet = extract_snippet("m.md", Some("m"), content).unwrap().unwrap();
    assert_eq!(snippet.description(), "first");
    assert_eq!(snippet.used(), 0);
    assert_eq!(snippet.command(), "run");
}

#[test]
fn delimiters_belong_to_no_block() {
    let content = "---\ndescription: d\n---\n```\none\n---\ntwo\n```\n";
    let snippet = extract_snippet("r.md", Some("r"), content).unwrap().unwrap();
    assert_eq!(snippet.command(), "one\ntwo");

    let content = "```\none\n---\nused: 3\n---\ntwo\n```\n";
    let snippet = extract_snippet("r.md", Some("r"), content).unwrap().unwrap();
    assert_eq!(snippet.command(), "one\ntwo");
    assert_eq!(snippet.used(), 3);

    let content = "---\nused: 4\n```\ninside the metadata\n```\n";
    assert!(matches!(extract_snippet("r.md", Some("r"), content), Ok(None)));
}

#[test]
fn metadata_after_the_code_block_is_not_read() {
    let content = "```\nrun\n```\n---\ndescription: late\nused: nonsense\n---\n";
    let snippet = extract_snippet("l.md", Some("l"), content).unwrap().unwrap();
    assert_eq!(snippet.description(), "");
    assert_eq!(snippet.used(), 0);
}

#[test]
fn metadata_that_cannot_be_read_counts_as_none() {
    let content = "---\nnot a key value line\n- stray\n---\n```\nrun\n```\n";
    let snippet = extract_snippet("g.md", Some("g"), content).unwrap().unwrap();
    assert_eq!(snippet.description(), "");
    assert_eq!(snippet.used(), 0);
    assert_eq!(snippet.last_used(), None);
    assert_eq!(snippet.command(), "run");
}

#[test]
fn a_use_count_that_is_no_number_fails_the_document() {
    for used in ["many", "--1", "65536", "1.5", "0x10", "5 times"] {
        let content = format!("---\nused: {used}\n---\n```\nrun\n```\n");
        assert_eq!(extract_snippet("u.md", Some("u"), &content).err(), Some(SnippetError::InvalidUsed), "{used}");
    }
    for (used, count) in [("0", 0), ("+7", 7), ("65535", 65535), ("\"12\"", 12), ("007", 7), ("-1", 1)] {
        let content = format!("---\nused: {used}\n---\n```\nrun\n```\n");
        assert_eq!(extract_snippet("u.md", Some("u"), &content).unwrap().unwrap().used(), count, "{used}");
    }
}

#[test]
fn metadata_that_is_no_text_gives_defaults() {
    let content = "---\nused:\n- 3\ndescription:\n- a\nlast_used:\n- 2024-01-02T03:04:05Z\n---\n```\nrun\n```\n";
    let snippet = extract_snippet("n.md", Some("n"), content).unwrap().unwrap();
    assert_eq!(snippet.used(), 0);
    assert_eq!(snippet.description(), "");
    assert_eq!(snippet.last_used(), None);
}

#[test]
fn the_time_of_last_use_is_read_as_an_instant() {
    let content = "---\nlast_used: \"2024-01-02T03:04:05+01:00\"\n---\n```\nrun\n```\n";
    let snippet = extract_snippet("t.md", Some("t"), content).unwrap().unwrap();
    assert_eq!(snippet.last_used(), Some(Timestamp { seconds: 1704161045, nanos: 0 }));

    let content = "---\nlast_used: \"1996-12-19T16:39:57.25-08:00\"\n---\n```\nrun\n```\n";
    let snippet = extract_snippet("t.md", Some("t"), content).unwrap().unwrap();
    assert_eq!(snippet.last_used(), Some(Timestamp { seconds: 851042397, nanos: 250_000_000 }));

    let content = "---\nlast_used: 2015-02-18T23:59:60Z\n---\n```\nrun\n```\n";
    let snippet = extract_snippet("t.md", Some("t"), content).unwrap().unwrap();
    assert_eq!(snippet.last_used(), Some(Timestamp { seconds: 1424303999, nanos: 1_000_000_000 }));
}

#[test]
fn a_time_of_last_use_that_cannot_be_read_is_left_out() {
    for text in ["yesterday", "\"2024-01-02\"", "\"2024-13-02T03:04:05Z\"", "2024-01-02T03:04:05", "-2024-01-02T03:04:05Z-"] {
        let content = format!("---\nlast_used: {text}\nused: 2\n---\n```\nrun\n```\n");
        let snippet = extract_snippet("t.md", Some("t"), &content).unwrap().unwrap();
        assert_eq!(snippet.last_used(), None, "{text}");
        assert_eq!(snippet.used(), 2);
    }
}

#[test]
fn a_document_without_a_name_is_untitled() {
    let content = "```\nrun\n```\n";
    assert_eq!(extract_snippet("", None, content).unwrap().unwrap().title(), "untitled");
    assert_eq!(extract_snippet("x", Some(""), content).unwrap().unwrap().title(), "untitled");
    let content = "---\ntitle: from metadata\n---\n```\nrun\n```\n";
    assert_eq!(extract_snippet("dir/name.md", Some("name"), content).unwrap().unwrap().title(), "name");
}

#[test]
fn a_snippet_is_built_from_its_parts() {
    let mut metadata = YamlMap::new();
    metadata.insert_if_absent("description".to_string(), YamlValue::String("what it does".to_string()));
    metadata.insert_if_absent("used".to_string(), YamlValue::String("41".to_string()));
    let when = Some(Timestamp { seconds: 12, nanos: 34 });
    let snippet = build_snippet("p", Some("s"), "cmd".to_string(), &metadata, when).unwrap();
    assert_eq!(snippet.title(), "s");
    assert_eq!(snippet.description(), "what it does");
    assert_eq!(snippet.command(), "cmd");
    assert_eq!(snippet.path(), "p");
    assert_eq!(snippet.used(), 41);
    assert_eq!(snippet.last_used(), when);

    let mut metadata = YamlMap::new();
    metadata.insert_if_absent("used".to_string(), YamlValue::String("forty".to_string()));
    assert_eq!(build_snippet("p", None, "cmd".to_string(), &metadata, None).err(), Some(SnippetError::InvalidUsed));
}

#[test]
fn counts_agree_with_the_standard_library() {
    for text in [
        "", "0", "5", "+5", "-5", "-0", "65535", "65536", "000012", "0000000000000000000065535",
        "+", "1 ", " 1", "12a", "a12", "\u{663}", "99999999999999999999", "+-1", "++1", "4294967296",
        "4294967301", "1_000", "١٢",
    ] {
        assert_eq!(parse_count(text), text.parse::<u16>().ok(), "{text:?}");
    }
    assert_eq!(parse_count("123"), Some(123));
    assert_eq!(parse_count("65535"), Some(65535));
    assert_eq!(parse_count("65536"), None);
}

#[test]
fn a_scan_stops_when_the_code_block_closes() {
    let found = scan("x\n---\na: 1\n---\ny\n```\nrun\n```\n---\nlate\n```\nmore\n");
    assert!(found.finished());
    assert_eq!(found.metadata_lines(), ["a: 1"]);
    assert_eq!(found.code_lines(), ["run"]);

    let mut scanner = Scanner::new();
    assert!(!scanner.finished());
    scanner.feed("```");
    scanner.feed("one");
    assert!(!scanner.finished());
    scanner.feed("```");
    assert!(scanner.finished());
    scanner.feed("two");
    scanner.feed("```");
    scanner.feed("three");
    assert_eq!(scanner.code_lines(), ["one"]);
    assert!(scanner.metadata_lines().is_empty());
}

#[test]
fn a_block_opens_once_and_closes_once() {
    assert_eq!(Block::Unopened.advance(), Block::Open);
    assert_eq!(Block::Open.advance(), Block::Closed);
    assert_eq!(Block::Closed.advance(), Block::Closed);
}

#[test]
fn the_body_is_what_lies_between_the_blank_edges() {
    assert_eq!(body(&["", " ", "a", "", "b", "\t", ""]), ["a", "", "b"]);
    assert!(body(&["", "  "]).is_empty());
    assert!(body(&[]).is_empty());
    assert_eq!(body(&["x"]), ["x"]);
}
