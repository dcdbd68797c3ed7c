//! The tokenizer: a text is cut into the units that the diff engine compares,
//! either its characters or its lines.
//!
//! A line ends with its line feed; a carriage return before the line feed belongs
//! to the line like any other character.  Text after the last line feed is a line
//! of its own.  Whatever the mode, the tokens of a text concatenate to the text.

use vstd::prelude::*;
use vstd::string::*;

verus! {

/// The unit of comparison.
#[derive(Clone, Copy, Debug, PartialEq, Eq, Structural)]
pub enum Mode {
    /// One token per character.
    Char,
    /// One token per line, terminator included.
    Line,
}

/// `String::push` appends one character to the string.
pub assume_specification[ String::push ](text: &mut String, c: char)
    ensures
        final(text)@ == old(text)@.push(c),
;

/// The characters of `text`, each as a token of its own.
pub open spec fn char_tokens(text: Seq<char>) -> Seq<Seq<char>> {
    Seq::new(text.len(), |i: int| seq![text[i]])
}

/// The length of the first line of `text`, terminator included.
pub open spec fn first_line_len(text: Seq<char>) -> nat
    decreases text.len(),
{
    if text.len() == 0 {
        0
    } else if text[0] == '\n' {
        1
    } else {
        1 + first_line_len(text.drop_first())
    }
}

/// The lines of `text`, each with its terminator.
pub open spec fn line_tokens(text: Seq<char>) -> Seq<Seq<char>>
    decreases text.len(),
    via line_tokens_decreases
{
    if text.len() == 0 {
        Seq::empty()
    } else {
        let n = first_line_len(text) as int;
        seq![text.take(n)] + line_tokens(text.skip(n))
    }
}

#[via_fn]
proof fn line_tokens_decreases(text: Seq<char>) {
    if text.len() != 0 {
        lemma_first_line_len_bounds(text);
    }
}

/// The tokens of `text` in the given mode.
pub open spec fn tokens(text: Seq<char>, mode: Mode) -> Seq<Seq<char>> {
    match mode {
        Mode::Char => char_tokens(text),
        Mode::Line => line_tokens(text),
    }
}

/// `token` has the shape of a line: it is not empty and holds no line feed except,
/// possibly, as its last character.
pub open spec fn line_shaped(token: Seq<char>) -> bool {
    &&& token.len() > 0
    &&& forall|k: int| 0 <= k < token.len() - 1 ==> token[k] != '\n'
}

/// The number of line feeds in `text`.
pub open spec fn line_feeds(text: Seq<char>) -> nat {
    text.filter(|c: char| c == '\n').len()
}

/// The first line of a non-empty text is not empty and does not reach beyond the text.
proof fn lemma_first_line_len_bounds(text: Seq<char>)
    requires
        text.len() > 0,
    ensures
        1 <= first_line_len(text) <= text.len(),
    decreases text.len(),
{
    if text[0] != '\n' {
        if text.len() > 1 {
            lemma_first_line_len_bounds(text.drop_first());
        } else {
            assert(first_line_len(text.drop_first()) == 0);
        }
    }
}

/// The first line holds no line feed before its last character, and it ends with
/// a line feed unless it is all of the text.
proof fn lemma_first_line_shape(text: Seq<char>)
    requires
        text.len() > 0,
    ensures
        line_shaped(text.take(first_line_len(text) as int)),
        first_line_len(text) < text.len() ==> text[first_line_len(text) - 1] == '\n',
    decreases text.len(),
{
    lemma_first_line_len_bounds(text);
    let n = first_line_len(text) as int;
    if text[0] != '\n' && text.len() > 1 {
        let rest = text.drop_first();
        lemma_first_line_shape(rest);
        lemma_first_line_len_bounds(rest);
        let m = first_line_len(rest) as int;
        assert forall|k: int| 0 <= k < n - 1 implies text.take(n)[k] != '\n' by {
            if k > 0 {
                assert(rest.take(m)[k - 1] == text.take(n)[k]);
            }
        }
        assert(rest[m - 1] == text[n - 1]);
    }
}

/// A text without a line feed is a single line, and it stays the beginning of the
/// first line when more text follows.
proof fn lemma_first_line_len_add(head: Seq<char>, tail: Seq<char>)
    requires
        forall|k: int| 0 <= k < head.len() ==> head[k] != '\n',
    ensures
        first_line_len(head + tail) == head.len() + first_line_len(tail),
    decreases head.len(),
{
    if head.len() == 0 {
        assert(head + tail =~= tail);
    } else {
        let rest = head.drop_first();
        assert((head + tail)[0] == head[0]);
        assert((head + tail).drop_first() =~= rest + tail);
        assert forall|k: int| 0 <= k < rest.len() implies rest[k] != '\n' by {
            assert(rest[k] == head[k + 1]);
        }
        lemma_first_line_len_add(rest, tail);
    }
}

/// The tokens of a text, concatenated, are the text.
pub proof fn lemma_tokens_spell_text(text: Seq<char>, mode: Mode)
    ensures
        tokens(text, mode).flatten() == text,
    decreases text.len(),
{
    match mode {
        Mode::Char => {
            lemma_char_tokens_spell_text(text);
        },
        Mode::Line => {
            if text.len() == 0 {
                assert(text =~= Seq::<char>::empty());
            } else {
                lemma_first_line_len_bounds(text);
                let n = first_line_len(text) as int;
                lemma_tokens_spell_text(text.skip(n), Mode::Line);
                let first = seq![text.take(n)];
                vstd::seq_lib::lemma_flatten_concat(first, line_tokens(text.skip(n)));
                first.lemma_flatten_one_element();
                assert(text.take(n) + text.skip(n) =~= text);
            }
        },
    }
}

/// The character tokens of a text, concatenated, are the text.
proof fn lemma_char_tokens_spell_text(text: Seq<char>)
    ensures
        char_tokens(text).flatten() == text,
    decreases text.len(),
{
    if text.len() == 0 {
        assert(char_tokens(text) =~= Seq::<Seq<char>>::empty());
        assert(text =~= Seq::<char>::empty());
    } else {
        let front = text.drop_last();
        lemma_char_tokens_spell_text(front);
        assert(char_tokens(text) =~= char_tokens(front).push(seq![text.last()]));
        char_tokens(front).lemma_flatten_push(seq![text.last()]);
        assert(front + seq![text.last()] =~= text);
    }
}

/// No token is empty.  In line mode every token has the shape of a line, and
/// every token but the last ends with a line feed.
pub proof fn lemma_tokens_shape(text: Seq<char>, mode: Mode, k: int)
    requires
        0 <= k < tokens(text, mode).len(),
    ensures
        tokens(text, mode)[k].len() > 0,
        mode == Mode::Char ==> tokens(text, mode)[k].len() == 1,
        mode == Mode::Line ==> line_shaped(tokens(text, mode)[k]),
        mode == Mode::Line && k < tokens(text, mode).len() - 1 ==> tokens(text, mode)[k].last()
            == '\n',
    decreases text.len(),
{
    if mode == Mode::Line {
        lemma_first_line_len_bounds(text);
        lemma_first_line_shape(text);
        let n = first_line_len(text) as int;
        let rest = text.skip(n);
        assert(line_tokens(text) == seq![text.take(n)] + line_tokens(rest));
        if k > 0 {
            lemma_tokens_shape(rest, mode, k - 1);
            assert(line_tokens(text)[k] == line_tokens(rest)[k - 1]);
        } else if tokens(text, mode).len() > 1 {
            assert(rest.len() > 0) by {
                if rest.len() == 0 {
                    assert(line_tokens(rest).len() == 0);
                }
            }
            assert(text.take(n)[n - 1] == text[n - 1]);
        }
    }
}

/// A text has as many character tokens as it has characters.
pub proof fn lemma_char_token_count(text: Seq<char>)
    ensures
        tokens(text, Mode::Char).len() == text.len(),
{
}

/// A text has one line per line feed, and one more if it does not end with a
/// line feed; so it has at most one line more than it has line feeds.
pub proof fn lemma_line_token_count(text: Seq<char>)
    ensures
        tokens(text, Mode::Line).len() == line_feeds(text) + if text.len() > 0 && text.last()
            != '\n' {
            1nat
        } else {
            0nat
        },
        tokens(text, Mode::Line).len() <= line_feeds(text) + 1,
    decreases text.len(),
{
    let feed = |c: char| c == '\n';
    if text.len() == 0 {
        assert(text.filter(feed).len() == 0) by {
            text.lemma_filter_len(feed);
        }
    } else {
        lemma_first_line_len_bounds(text);
        lemma_first_line_shape(text);
        let n = first_line_len(text) as int;
        let first = text.take(n);
        let rest = text.skip(n);
        lemma_line_token_count(rest);
        assert(text =~= first + rest);
        Seq::filter_distributes_over_add(first, rest, feed);
        lemma_line_feeds_of_line(first);
        if rest.len() > 0 {
            assert(rest.last() == text.last());
            assert(first.last() == text[n - 1]);
        } else {
            assert(first =~= text);
        }
    }
}

/// A line holds one line feed if it ends with one, and none otherwise.
proof fn lemma_line_feeds_of_line(line: Seq<char>)
    requires
        line_shaped(line),
    ensures
        line_feeds(line) == if line.last() == '\n' {
            1nat
        } else {
            0nat
        },
{
    let feed = |c: char| c == '\n';
    let front = line.drop_last();
    assert(line =~= front.push(line.last()));
    front.lemma_filter_push(line.last(), feed);
    assert(front.filter(feed).len() == 0) by {
        assert forall|k: int| 0 <= k < front.len() implies !feed(front[k]) by {
            assert(front[k] == line[k]);
        }
        front.lemma_all_neg_filter_empty(feed);
    }
}

/// Cuts `text` into one token per character.
fn tokenize_chars(text: &str) -> (units: Vec<String>)
    ensures
        units.deep_view() == char_tokens(text@),
{
    let mut units: Vec<String> = Vec::new();
    for c in it: text.chars()
        invariant
            it.seq() == text@,
            units.deep_view() == char_tokens(text@).take(it.index() as int),
    {
        let mut unit = String::new();
        unit.push(c);
        let ghost cut = units.deep_view();
        units.push(unit);
        proof {
            assert(unit@ =~= seq![c]);
            assert(units.deep_view() =~= cut.push(unit@));
            assert(char_tokens(text@).take(it.index() + 1) =~= cut.push(seq![c]));
        }
    }
    proof {
        assert(char_tokens(text@).take(text@.len() as int) =~= char_tokens(text@));
    }
    units
}

/// Cuts `text` into one token per line.
fn tokenize_lines(text: &str) -> (units: Vec<String>)
    ensures
        units.deep_view() == line_tokens(text@),
{
    let mut units: Vec<String> = Vec::new();
    let mut line = String::new();
    proof {
        assert(text@.skip(0) =~= text@);
        assert(line@ + text@ =~= text@);
        assert(units.deep_view() + line_tokens(text@) =~= line_tokens(text@));
    }
    for c in it: text.chars()
        invariant
            it.seq() == text@,
            forall|k: int| 0 <= k < line@.len() ==> line@[k] != '\n',
            line_tokens(text@) == units.deep_view() + line_tokens(
                line@ + text@.skip(it.index() as int),
            ),
    {
        let ghost open_line = line@;
        let ghost rest = text@.skip(it.index() as int);
        let ghost next = text@.skip(it.index() + 1);
        let ghost cut = units.deep_view();
        line.push(c);
        proof {
            assert(rest[0] == c);
            assert(line@ + next =~= open_line + rest);
        }
        if c == '\n' {
            proof {
                lemma_first_line_len_add(open_line, rest);
                let whole = open_line + rest;
                let n = first_line_len(whole) as int;
                assert(n == open_line.len() + 1);
                assert(whole.take(n) =~= line@);
                assert(whole.skip(n) =~= next);
                assert(Seq::<char>::empty() + next =~= next);
            }
            let ghost closed = line@;
            units.push(line);
            line = String::new();
            proof {
                assert(units.deep_view() =~= cut.push(closed));
                assert(cut.push(closed) + line_tokens(next) =~= cut + (seq![closed] + line_tokens(
                    next,
                )));
                assert(line@ + next =~= next);
            }
        }
    }
    proof {
        let last = line@;
        assert(text@.skip(text@.len() as int) =~= Seq::<char>::empty());
        assert(last + Seq::<char>::empty() =~= last);
        if last.len() > 0 {
            lemma_first_line_len_add(last, Seq::<char>::empty());
            assert(last.take(last.len() as int) =~= last);
            assert(last.skip(last.len() as int) =~= Seq::<char>::empty());
            assert(first_line_len(Seq::<char>::empty()) == 0);
            assert(first_line_len(last) == last.len());
            assert(line_tokens(Seq::<char>::empty()) =~= Seq::<Seq<char>>::empty());
            assert(line_tokens(last) =~= seq![last]);
        }
    }
    if !line.as_str().is_empty() {
        let ghost cut = units.deep_view();
        let ghost last = line@;
        units.push(line);
        proof {
            assert(units.deep_view() =~= cut + seq![last]);
        }
    } else {
        proof {
            assert(units.deep_view() + Seq::<Seq<char>>::empty() =~= units.deep_view());
        }
    }
    units
}

/// Cuts `text` into its tokens: its characters in `Char` mode, its lines, each
/// with its terminator, in `Line` mode.
pub fn tokenize(text: &str, mode: Mode) -> (units: Vec<String>)
    ensures
        units.deep_view() == tokens(text@, mode),
        units.deep_view().flatten() == text@,
{
    proof {
        lemma_tokens_spell_text(text@, mode);
    }
    match mode {
        Mode::Char => tokenize_chars(text),
        Mode::Line => tokenize_lines(text),
    }
}

} // verus!
