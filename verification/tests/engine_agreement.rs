use inline_diff::{diff_text, inline_diff, Change, ChangeTag, Mode};
use similar::{Algorithm, TextDiff};

struct Lcg(u64);

impl Lcg {
    fn next(&mut self) -> u64 {
        self.0 = self.0.wrapping_mul(6364136223846793005).wrapping_add(1442695040888963407);
        self.0 >> 33
    }

    fn below(&mut self, bound: u64) -> usize {
        (self.next() % bound) as usize
    }

    fn text(&mut self, alphabet: &[&str], max_len: u64) -> String {
        let len = self.below(max_len + 1);
        (0..len).map(|_| alphabet[self.below(alphabet.len() as u64)]).collect()
    }
}

fn tag_of(tag: similar::ChangeTag) -> ChangeTag {
    match tag {
        similar::ChangeTag::Equal => ChangeTag::Equal,
        similar::ChangeTag::Delete => ChangeTag::Delete,
        similar::ChangeTag::Insert => ChangeTag::Insert,
    }
}

fn reported_for_chars(before: &str, after: &str) -> Vec<Change> {
    let diff = TextDiff::configure().algorithm(Algorithm::Myers).diff_chars(before, after);
    diff.iter_all_changes().map(|c| Change::new(tag_of(c.tag()), c.value().to_string())).collect()
}

fn reported_for_lines(before: &str, after: &str) -> Vec<Change> {
    let diff = TextDiff::configure().algorithm(Algorithm::Myers).diff_lines(before, after);
    diff.iter_all_changes().map(|c| Change::new(tag_of(c.tag()), c.value().to_string())).collect()
}

fn marked_up(script: &[Change]) -> String {
    let mut out = String::new();
    for change in script {
        match change.tag {
            ChangeTag::Equal => out.push_str(&change.value),
            ChangeTag::Delete => {
                out.push_str("[-");
                out.push_str(&change.value);
                out.push_str("-]");
            }
            ChangeTag::Insert => {
                out.push_str("{+");
                out.push_str(&change.value);
                out.push_str("+}");
            }
        }
    }
    out
}

#[test]
fn char_scripts_are_the_ones_the_search_reports() {
    let mut rng = Lcg(1);
    let alphabet = ["a", "b", "c", "é", " ", "\n"];
    for _ in 0..300 {
        let before = rng.text(&alphabet, 40);
        let after = rng.text(&alphabet, 40);
        assert_eq!(diff_text(&before, &after, Mode::Char), reported_for_chars(&before, &after));
    }
}

#[test]
fn long_char_scripts_are_the_ones_the_search_reports() {
    let mut rng = Lcg(2);
    let alphabet = ["a", "b", "c", "d", "e", "f", "g", "ß", "🌍"];
    for _ in 0..20 {
        let before = rng.text(&alphabet, 400);
        let mut after = before.clone();
        for _ in 0..rng.below(12) {
            let at = rng.below(after.chars().count() as u64 + 1);
            let byte = after.char_indices().nth(at).map(|(i, _)| i).unwrap_or(after.len());
            after.insert_str(byte, alphabet[rng.below(alphabet.len() as u64)]);
        }
        assert_eq!(diff_text(&before, &after, Mode::Char), reported_for_chars(&before, &after));
    }
}

#[test]
fn line_scripts_are_the_ones_the_search_reports() {
    let mut rng = Lcg(3);
    let alphabet = ["a", "b", "\n", "\r\n", "x\n", "yy\r\n", ""];
    for _ in 0..300 {
        let before = rng.text(&alphabet, 30);
        let after = rng.text(&alphabet, 30);
        assert_eq!(diff_text(&before, &after, Mode::Line), reported_for_lines(&before, &after));
    }
}

#[test]
fn long_line_scripts_are_the_ones_the_search_reports() {
    let mut rng = Lcg(4);
    for _ in 0..10 {
        let lines: Vec<String> = (0..250).map(|i| format!("line {} {}\n", i, rng.below(3))).collect();
        let before: String = lines.concat();
        let after: String =
            lines.iter().filter(|_| rng.below(10) != 0).map(|l| l.replace(" 1\n", " one\r\n")).collect();
        assert_eq!(diff_text(&before, &after, Mode::Line), reported_for_lines(&before, &after));
    }
}

#[test]
fn inline_markup_is_the_marked_up_report_of_the_search() {
    let mut rng = Lcg(5);
    let alphabet = ["a", "b", "c", "[", "-", "]", "{", "+", "}", "ä"];
    for _ in 0..300 {
        let before = rng.text(&alphabet, 30);
        let after = rng.text(&alphabet, 30);
        let expected = marked_up(&reported_for_chars(&before, &after));
        assert_eq!(inline_diff(before.as_bytes(), after.as_bytes()), expected.into_bytes());
    }
}
