use inline_diff::{diff_text, inline_diff, render_inline, Change, ChangeTag, Mode};

fn run(tag: ChangeTag, value: &str) -> Change {
    Change::new(tag, value.to_string())
}

#[test]
fn render_marks_each_run_by_its_tag() {
    let script = vec![
        run(ChangeTag::Equal, "ab"),
        run(ChangeTag::Delete, "cd"),
        run(ChangeTag::Insert, "ef"),
        run(ChangeTag::Equal, "g"),
    ];
    assert_eq!(render_inline(&script), "ab[-cd-]{+ef+}g");
}

#[test]
fn render_of_empty_script_is_empty() {
    assert_eq!(render_inline(&Vec::new()), "");
}

#[test]
fn render_wraps_every_run_separately() {
    let script = vec![
        run(ChangeTag::Delete, "d"),
        run(ChangeTag::Delete, "e"),
        run(ChangeTag::Insert, "D"),
        run(ChangeTag::Insert, "D"),
    ];
    assert_eq!(render_inline(&script), "[-d-][-e-]{+D+}{+D+}");
}

#[test]
fn render_keeps_markers_around_empty_runs() {
    let script = vec![run(ChangeTag::Delete, ""), run(ChangeTag::Insert, ""), run(ChangeTag::Equal, "")];
    assert_eq!(render_inline(&script), "[--]{++}");
}

#[test]
fn render_adds_four_characters_per_changed_run() {
    let script = vec![
        run(ChangeTag::Equal, "héllo"),
        run(ChangeTag::Delete, "x"),
        run(ChangeTag::Equal, " "),
        run(ChangeTag::Insert, "wörld"),
    ];
    let markup = render_inline(&script);
    assert_eq!(markup, "héllo[-x-] {+wörld+}");
    assert_eq!(markup.chars().count(), 5 + 1 + 1 + 5 + 4 * 2);
}

#[test]
fn render_inserts_no_spacing() {
    let script = vec![run(ChangeTag::Equal, "a "), run(ChangeTag::Insert, " b"), run(ChangeTag::Equal, " c")];
    assert_eq!(render_inline(&script), "a {+ b+} c");
}

#[test]
fn inline_diff_of_identical_texts_has_no_marker() {
    for text in ["", "a", "same", "line one\nline two\n", "grüße, 世界 🌍", "[-not a marker-]"] {
        assert_eq!(inline_diff(text.as_bytes(), text.as_bytes()), text.as_bytes());
    }
}

#[test]
fn inline_diff_of_two_empty_texts_is_empty() {
    assert_eq!(inline_diff(b"", b""), Vec::<u8>::new());
    assert!(diff_text("", "", Mode::Char).is_empty());
}

#[test]
fn inline_diff_from_empty_inserts_each_character() {
    assert_eq!(inline_diff(b"", b"ab"), b"{+a+}{+b+}");
}

#[test]
fn inline_diff_to_empty_deletes_each_character() {
    assert_eq!(inline_diff(b"ab", b""), b"[-a-][-b-]");
}

#[test]
fn inline_diff_puts_deletions_before_insertions() {
    let diff = String::from_utf8(inline_diff(b"abcdef", b"abcDDf")).unwrap();
    assert_eq!(diff, "abc[-d-][-e-]{+D+}{+D+}f");
}

#[test]
fn inline_diff_does_not_split_multibyte_characters() {
    let diff = String::from_utf8(inline_diff("né".as_bytes(), "nè".as_bytes())).unwrap();
    assert_eq!(diff, "n[-é-]{+è+}");
}

#[test]
fn inline_diff_rejects_when_only_one_side_is_malformed() {
    assert_eq!(inline_diff(b"ok", &[0xfe]), b"inputs must be valid UTF-8");
    assert_eq!(inline_diff(&[0xc0, 0x80], b"ok"), b"inputs must be valid UTF-8");
}

#[test]
fn inline_diff_of_long_texts_round_trips() {
    let before: String = (0..400).map(|i| char::from(b'a' + (i % 26) as u8)).collect();
    let mut after = before.clone();
    after.insert(200, 'Z');
    let diff = String::from_utf8(inline_diff(before.as_bytes(), after.as_bytes())).unwrap();
    let expected = format!("{}{{+Z+}}{}", &before[..200], &before[200..]);
    assert_eq!(diff, expected);
}
