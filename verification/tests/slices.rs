use ono::slices::Indexed;

#[test]
fn parts_are_taken_by_character_position() {
    let text = "a\u{e9}\u{20ac}\u{1F600}z";
    let indexed = Indexed::new(text);
    assert_eq!(indexed.len(), 5);
    assert_eq!(indexed.chars(), ['a', '\u{e9}', '\u{20ac}', '\u{1F600}', 'z']);
    let chars: Vec<char> = text.chars().collect();
    for from in 0..=chars.len() {
        for to in from..=chars.len() {
            let expected: String = chars[from..to].iter().collect();
            assert_eq!(indexed.slice(from, to), expected, "{from}..{to}");
        }
    }
    assert_eq!(indexed.slice(1, 3), "\u{e9}\u{20ac}");
}

#[test]
fn an_empty_text_has_one_empty_part() {
    let indexed = Indexed::new("");
    assert_eq!(indexed.len(), 0);
    assert!(indexed.chars().is_empty());
    assert_eq!(indexed.slice(0, 0), "");
}
