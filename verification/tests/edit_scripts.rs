use inline_diff::{
    assemble, diff, diff_text, replacement_script, same_tokens, Change, ChangeTag, Mode,
};

fn run(tag: ChangeTag, value: &str) -> Change {
    Change::new(tag, value.to_string())
}

fn seq(tokens: &[&str]) -> Vec<String> {
    tokens.iter().map(|t| t.to_string()).collect()
}

fn side(script: &[Change], other: ChangeTag) -> Vec<String> {
    script.iter().filter(|c| c.tag != other).map(|c| c.value.clone()).collect()
}

fn assert_spells_out(script: &[Change], before: &str, after: &str) {
    assert_eq!(side(script, ChangeTag::Insert).concat(), before);
    assert_eq!(side(script, ChangeTag::Delete).concat(), after);
}

fn assert_deletes_first(script: &[Change]) {
    for pair in script.windows(2) {
        assert!(!(pair[0].tag == ChangeTag::Insert && pair[1].tag == ChangeTag::Delete));
    }
}

#[test]
fn char_script_has_one_run_per_character() {
    let script = diff_text("abcdef", "abcDDf", Mode::Char);
    let expected = vec![
        run(ChangeTag::Equal, "a"),
        run(ChangeTag::Equal, "b"),
        run(ChangeTag::Equal, "c"),
        run(ChangeTag::Delete, "d"),
        run(ChangeTag::Delete, "e"),
        run(ChangeTag::Insert, "D"),
        run(ChangeTag::Insert, "D"),
        run(ChangeTag::Equal, "f"),
    ];
    assert_eq!(script, expected);
}

#[test]
fn line_script_has_one_run_per_line_with_its_terminator() {
    let script = diff_text("a\nb\nc", "a\nb\nC", Mode::Line);
    let expected = vec![
        run(ChangeTag::Equal, "a\n"),
        run(ChangeTag::Equal, "b\n"),
        run(ChangeTag::Delete, "c"),
        run(ChangeTag::Insert, "C"),
    ];
    assert_eq!(script, expected);
}

#[test]
fn scripts_of_empty_texts_are_empty() {
    assert!(diff_text("", "", Mode::Char).is_empty());
    assert!(diff_text("", "", Mode::Line).is_empty());
    assert!(diff(&Vec::new(), &Vec::new()).is_empty());
}

#[test]
fn scripts_of_identical_texts_keep_every_token() {
    let text = "one\ntwo\r\nthree";
    let chars = diff_text(text, text, Mode::Char);
    let expected: Vec<Change> = text.chars().map(|c| run(ChangeTag::Equal, &c.to_string())).collect();
    assert_eq!(chars, expected);
    let lines = diff_text(text, text, Mode::Line);
    assert_eq!(
        lines,
        vec![run(ChangeTag::Equal, "one\n"), run(ChangeTag::Equal, "two\r\n"), run(ChangeTag::Equal, "three")]
    );
}

#[test]
fn scripts_of_disjoint_texts_delete_then_insert() {
    let script = diff_text("abc", "xy", Mode::Char);
    let expected = vec![
        run(ChangeTag::Delete, "a"),
        run(ChangeTag::Delete, "b"),
        run(ChangeTag::Delete, "c"),
        run(ChangeTag::Insert, "x"),
        run(ChangeTag::Insert, "y"),
    ];
    assert_eq!(script, expected);
    assert_eq!(script, replacement_script(&seq(&["a", "b", "c"]), &seq(&["x", "y"])));
}

#[test]
fn token_scripts_compare_whole_tokens() {
    let before = seq(&["let", " ", "x", " ", "=", " ", "1"]);
    let after = seq(&["let", " ", "y", " ", "=", " ", "1"]);
    let script = diff(&before, &after);
    let expected = vec![
        run(ChangeTag::Equal, "let"),
        run(ChangeTag::Equal, " "),
        run(ChangeTag::Delete, "x"),
        run(ChangeTag::Insert, "y"),
        run(ChangeTag::Equal, " "),
        run(ChangeTag::Equal, "="),
        run(ChangeTag::Equal, " "),
        run(ChangeTag::Equal, "1"),
    ];
    assert_eq!(script, expected);
}

#[test]
fn token_scripts_take_empty_and_repeated_tokens() {
    let before = seq(&["", "a", "", "a"]);
    let after = seq(&["a", "", "a", ""]);
    let script = diff(&before, &after);
    assert_eq!(side(&script, ChangeTag::Insert), before);
    assert_eq!(side(&script, ChangeTag::Delete), after);
    assert_deletes_first(&script);
}

#[test]
fn char_scripts_spell_out_both_texts() {
    let cases = [
        ("", "abc"),
        ("abc", ""),
        ("kitten", "sitting"),
        ("the quick brown fox", "the quiet brown box"),
        ("naïve café", "naive cafe\u{301}"),
        ("ab", "ba"),
        ("abcabba", "cbabac"),
    ];
    for (before, after) in cases {
        let script = diff_text(before, after, Mode::Char);
        assert_spells_out(&script, before, after);
        assert_deletes_first(&script);
        assert!(script.iter().all(|c| c.value.chars().count() == 1));
    }
}

#[test]
fn line_scripts_spell_out_both_texts() {
    let cases = [
        ("", "a\n"),
        ("a\n", ""),
        ("a\nb\nc\n", "a\nc\nd\n"),
        ("x\r\ny\r\n", "x\ny\n"),
        ("no newline", "no newline\n"),
        ("\n\n\n", "\n\n"),
        ("a\rb\nc", "a\rb\nd"),
    ];
    for (before, after) in cases {
        let script = diff_text(before, after, Mode::Line);
        assert_spells_out(&script, before, after);
        assert_deletes_first(&script);
        assert!(script.iter().all(|c| !c.value.is_empty()));
        assert!(script.iter().all(|c| !c.value[..c.value.len() - 1].contains('\n')));
    }
}

#[test]
fn long_line_scripts_spell_out_both_texts() {
    let before: String = (0..300).map(|i| format!("line {}\n", i)).collect();
    let after: String =
        (0..300).filter(|i| i % 7 != 3).map(|i| format!("line {}\n", i * (1 + i % 2))).collect();
    let script = diff_text(&before, &after, Mode::Line);
    assert_spells_out(&script, &before, &after);
    assert_deletes_first(&script);
    assert!(script.iter().all(|c| c.value.ends_with('\n')));
    assert_eq!(side(&script, ChangeTag::Insert).len(), 300);
    assert!(script.iter().any(|c| c.tag == ChangeTag::Equal));
}

#[test]
fn same_tokens_compares_length_and_content() {
    assert!(same_tokens(&seq(&[]), &seq(&[])));
    assert!(same_tokens(&seq(&["a", "bc"]), &seq(&["a", "bc"])));
    assert!(!same_tokens(&seq(&["a", "bc"]), &seq(&["a", "bd"])));
    assert!(!same_tokens(&seq(&["a", "bc"]), &seq(&["a"])));
    assert!(!same_tokens(&seq(&["ab", "c"]), &seq(&["a", "bc"])));
}

#[test]
fn assemble_follows_the_tags_along_both_sequences() {
    let tags = vec![ChangeTag::Equal, ChangeTag::Delete, ChangeTag::Insert, ChangeTag::Insert, ChangeTag::Equal];
    let script = assemble(&tags, &seq(&["a", "b", "c"]), &seq(&["a", "x", "y", "c"]));
    let expected = vec![
        run(ChangeTag::Equal, "a"),
        run(ChangeTag::Delete, "b"),
        run(ChangeTag::Insert, "x"),
        run(ChangeTag::Insert, "y"),
        run(ChangeTag::Equal, "c"),
    ];
    assert_eq!(script, Some(expected));
    assert_eq!(assemble(&Vec::new(), &seq(&[]), &seq(&[])), Some(Vec::new()));
}

#[test]
fn assemble_refuses_tags_that_do_not_fit() {
    let before = seq(&["a", "b"]);
    let after = seq(&["a", "c"]);
    let short = vec![ChangeTag::Equal, ChangeTag::Delete];
    assert_eq!(assemble(&short, &before, &after), None);
    let long = vec![ChangeTag::Equal, ChangeTag::Delete, ChangeTag::Insert, ChangeTag::Insert];
    assert_eq!(assemble(&long, &before, &after), None);
    let too_many_deletions = vec![ChangeTag::Equal, ChangeTag::Delete, ChangeTag::Delete, ChangeTag::Insert];
    assert_eq!(assemble(&too_many_deletions, &before, &after), None);
    let wrong_equal = vec![ChangeTag::Equal, ChangeTag::Equal];
    assert_eq!(assemble(&wrong_equal, &before, &after), None);
    assert_eq!(assemble(&Vec::new(), &before, &after), None);
}

#[test]
fn assemble_refuses_an_insertion_before_a_deletion() {
    let before = seq(&["a", "b"]);
    let after = seq(&["a", "c"]);
    let inverted = vec![ChangeTag::Equal, ChangeTag::Insert, ChangeTag::Delete];
    assert_eq!(assemble(&inverted, &before, &after), None);
    let in_order = vec![ChangeTag::Equal, ChangeTag::Delete, ChangeTag::Insert];
    assert!(assemble(&in_order, &before, &after).is_some());
    let apart = vec![ChangeTag::Insert, ChangeTag::Equal, ChangeTag::Delete];
    assert!(assemble(&apart, &seq(&["a", "b"]), &seq(&["c", "a"])).is_some());
}

#[test]
fn assemble_refuses_a_change_between_identical_sequences() {
    let tokens = seq(&["a", "a"]);
    let shifted = vec![ChangeTag::Delete, ChangeTag::Equal, ChangeTag::Insert];
    assert_eq!(assemble(&shifted, &tokens, &tokens), None);
    let kept = vec![ChangeTag::Equal, ChangeTag::Equal];
    assert_eq!(
        assemble(&kept, &tokens, &tokens),
        Some(vec![run(ChangeTag::Equal, "a"), run(ChangeTag::Equal, "a")])
    );
}

#[test]
fn replacement_deletes_one_sequence_and_inserts_the_other() {
    assert_eq!(
        replacement_script(&seq(&["o", "l", "d"]), &seq(&["new"])),
        vec![
            run(ChangeTag::Delete, "o"),
            run(ChangeTag::Delete, "l"),
            run(ChangeTag::Delete, "d"),
            run(ChangeTag::Insert, "new"),
        ]
    );
    assert_eq!(replacement_script(&seq(&["old"]), &seq(&[])), vec![run(ChangeTag::Delete, "old")]);
    assert_eq!(replacement_script(&seq(&[]), &seq(&["new"])), vec![run(ChangeTag::Insert, "new")]);
}

#[test]
fn replacement_of_identical_sequences_keeps_every_token() {
    assert_eq!(
        replacement_script(&seq(&["s", "ame"]), &seq(&["s", "ame"])),
        vec![run(ChangeTag::Equal, "s"), run(ChangeTag::Equal, "ame")]
    );
    assert!(replacement_script(&seq(&[]), &seq(&[])).is_empty());
}
