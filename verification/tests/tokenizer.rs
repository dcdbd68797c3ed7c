use inline_diff::{tokenize, Mode};

#[test]
fn char_mode_gives_one_token_per_character() {
    assert_eq!(tokenize("abc", Mode::Char), vec!["a", "b", "c"]);
    assert_eq!(tokenize("a\r\nb", Mode::Char), vec!["a", "\r", "\n", "b"]);
}

#[test]
fn char_mode_does_not_split_multibyte_characters() {
    let tokens = tokenize("aé€🌍", Mode::Char);
    assert_eq!(tokens, vec!["a", "é", "€", "🌍"]);
    assert_eq!(tokens.len(), "aé€🌍".chars().count());
    assert_eq!(tokens.iter().map(|t| t.len()).collect::<Vec<_>>(), vec![1, 2, 3, 4]);
}

#[test]
fn line_mode_keeps_the_terminator_with_its_line() {
    assert_eq!(tokenize("a\nb\n", Mode::Line), vec!["a\n", "b\n"]);
    assert_eq!(tokenize("a\r\nb\r\n", Mode::Line), vec!["a\r\n", "b\r\n"]);
    assert_eq!(tokenize("\n\n", Mode::Line), vec!["\n", "\n"]);
}

#[test]
fn line_mode_keeps_a_trailing_fragment() {
    assert_eq!(tokenize("a\nb", Mode::Line), vec!["a\n", "b"]);
    assert_eq!(tokenize("no terminator", Mode::Line), vec!["no terminator"]);
    assert_eq!(tokenize("\nx", Mode::Line), vec!["\n", "x"]);
}

#[test]
fn line_mode_does_not_break_at_a_lone_carriage_return() {
    assert_eq!(tokenize("a\rb\nc", Mode::Line), vec!["a\rb\n", "c"]);
    assert_eq!(tokenize("a\r", Mode::Line), vec!["a\r"]);
    assert_eq!(tokenize("a\r\r\nb", Mode::Line), vec!["a\r\r\n", "b"]);
}

#[test]
fn empty_text_has_no_token() {
    assert!(tokenize("", Mode::Char).is_empty());
    assert!(tokenize("", Mode::Line).is_empty());
}

#[test]
fn tokens_concatenate_to_the_text() {
    for text in ["", "a", "a\n", "a\nb", "\n", "x\r\ny\r\n\r\nz", "żółw\n🌍\n", "a\rb"] {
        assert_eq!(tokenize(text, Mode::Char).concat(), text);
        assert_eq!(tokenize(text, Mode::Line).concat(), text);
    }
}

#[test]
fn line_count_is_bounded_by_the_line_feeds() {
    for text in ["", "a", "a\n", "a\nb", "\n", "\n\n\n", "x\r\ny\r\n\r\nz", "a\rb"] {
        let feeds = text.matches('\n').count();
        let lines = tokenize(text, Mode::Line).len();
        assert!(lines <= feeds + 1);
        let open = !text.is_empty() && !text.ends_with('\n');
        assert_eq!(lines, feeds + if open { 1 } else { 0 });
    }
}
