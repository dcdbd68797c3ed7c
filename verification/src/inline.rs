//! The inline renderer: an edit script becomes one string in which deleted runs
//! stand between `[-` and `-]` and inserted runs between `{+` and `+}`.

use vstd::prelude::*;
use vstd::string::*;
use vstd::utf8::*;

use crate::engine::{diff_text, lemma_text_script_reconstructs, text_script};
use crate::script::{
    before_side, lemma_sides_empty, lemma_sides_push, unchanged, Change, ChangeTag, ChangeView,
};
use crate::text::{decode, encode};
use crate::tokens::Mode;

verus! {

/// The text of `run` between the markers that its tag calls for.
pub open spec fn marked(run: ChangeView) -> Seq<char> {
    match run.tag {
        ChangeTag::Equal => run.value,
        ChangeTag::Delete => seq!['[', '-'] + run.value + seq!['-', ']'],
        ChangeTag::Insert => seq!['{', '+'] + run.value + seq!['+', '}'],
    }
}

/// The inline rendering of `script`: its runs, each marked, one after the other.
pub open spec fn inline_markup(script: Seq<ChangeView>) -> Seq<char> {
    script.map_values(|c: ChangeView| marked(c)).flatten()
}

/// The sum of the lengths of the texts of `script`.
pub open spec fn total_len(script: Seq<ChangeView>) -> nat
    decreases script.len(),
{
    if script.len() == 0 {
        0
    } else {
        total_len(script.drop_last()) + script.last().value.len()
    }
}

/// The number of runs of `script` that are not tagged `Equal`.
pub open spec fn changed_runs(script: Seq<ChangeView>) -> nat
    decreases script.len(),
{
    if script.len() == 0 {
        0
    } else {
        changed_runs(script.drop_last()) + if script.last().tag == ChangeTag::Equal {
            0nat
        } else {
            1nat
        }
    }
}

/// What `inline_diff` answers when one of its inputs is not UTF-8.
pub open spec fn invalid_inputs_notice() -> Seq<char> {
    "inputs must be valid UTF-8"@
}

/// What `inline_diff` answers to the buffers `before` and `after`.
pub open spec fn inline_diff_bytes(before: Seq<u8>, after: Seq<u8>) -> Seq<u8> {
    if valid_utf8(before) && valid_utf8(after) {
        encode_utf8(
            inline_markup(text_script(decode_utf8(before), decode_utf8(after), Mode::Char)),
        )
    } else {
        encode_utf8(invalid_inputs_notice())
    }
}

/// Appending a run appends its marked text to the rendering.
pub proof fn lemma_markup_push(script: Seq<ChangeView>, run: ChangeView)
    ensures
        inline_markup(script.push(run)) == inline_markup(script) + marked(run),
{
    let mark = |c: ChangeView| marked(c);
    script.lemma_push_map_commute(mark, run);
    script.map_values(mark).lemma_flatten_push(marked(run));
}

/// The rendering of the empty script is empty.
pub proof fn lemma_markup_empty()
    ensures
        inline_markup(Seq::<ChangeView>::empty()) == Seq::<char>::empty(),
{
    assert(Seq::<ChangeView>::empty().map_values(|c: ChangeView| marked(c)) =~= Seq::<
        Seq<char>,
    >::empty());
}

/// A script without a change renders as the text it spells out, with no marker.
pub proof fn lemma_unchanged_markup(script: Seq<ChangeView>)
    requires
        unchanged(script),
    ensures
        inline_markup(script) == before_side(script),
    decreases script.len(),
{
    if script.len() == 0 {
        assert(script =~= Seq::<ChangeView>::empty());
        lemma_markup_empty();
        lemma_sides_empty();
    } else {
        let front = script.drop_last();
        let run = script.last();
        assert(script =~= front.push(run));
        assert forall|i: int| 0 <= i < front.len() implies (#[trigger] front[i]).tag
            == ChangeTag::Equal by {
            assert(front[i] == script[i]);
        }
        lemma_unchanged_markup(front);
        lemma_markup_push(front, run);
        lemma_sides_push(front, run);
    }
}

/// The rendering is as long as the texts of the script together, plus four
/// characters of markers for every run that is not `Equal`.
pub proof fn lemma_markup_len(script: Seq<ChangeView>)
    ensures
        inline_markup(script).len() == total_len(script) + 4 * changed_runs(script),
    decreases script.len(),
{
    if script.len() == 0 {
        assert(script =~= Seq::<ChangeView>::empty());
        lemma_markup_empty();
    } else {
        let front = script.drop_last();
        let run = script.last();
        assert(script =~= front.push(run));
        lemma_markup_len(front);
        lemma_markup_push(front, run);
    }
}

/// Two identical well-formed buffers are answered by that same buffer: the
/// rendering of the diff of a text with itself is the text, without a marker.
pub proof fn lemma_identical_inputs(text: Seq<u8>)
    requires
        valid_utf8(text),
    ensures
        inline_diff_bytes(text, text) == text,
{
    let decoded = decode_utf8(text);
    lemma_text_script_reconstructs(decoded, decoded, Mode::Char);
    lemma_unchanged_markup(text_script(decoded, decoded, Mode::Char));
    decode_utf8_encode_utf8(text);
}

/// Renders `script` inline: `Equal` runs verbatim, `Delete` runs between `[-` and
/// `-]`, `Insert` runs between `{+` and `+}`, with nothing in between.
pub fn render_inline(script: &Vec<Change>) -> (markup: String)
    ensures
        markup@ == inline_markup(script.deep_view()),
{
    let ghost runs = script.deep_view();
    let mut markup = String::new();
    proof {
        lemma_markup_empty();
        assert(runs.take(0) =~= Seq::<ChangeView>::empty());
        reveal_strlit("[-");
        reveal_strlit("-]");
        reveal_strlit("{+");
        reveal_strlit("+}");
        assert("[-"@ =~= seq!['[', '-']);
        assert("-]"@ =~= seq!['-', ']']);
        assert("{+"@ =~= seq!['{', '+']);
        assert("+}"@ =~= seq!['+', '}']);
    }
    let mut i: usize = 0;
    while i < script.len()
        invariant
            i <= script.len(),
            runs == script.deep_view(),
            markup@ == inline_markup(runs.take(i as int)),
            "[-"@ == seq!['[', '-'],
            "-]"@ == seq!['-', ']'],
            "{+"@ == seq!['{', '+'],
            "+}"@ == seq!['+', '}'],
        decreases script.len() - i,
    {
        let change = &script[i];
        proof {
            let run = runs[i as int];
            assert(run == change@);
            assert(runs.take(i + 1) =~= runs.take(i as int).push(run));
            lemma_markup_push(runs.take(i as int), run);
        }
        match change.tag {
            ChangeTag::Equal => {
                markup.append(change.value.as_str());
            },
            ChangeTag::Delete => {
                markup.append("[-");
                markup.append(change.value.as_str());
                markup.append("-]");
            },
            ChangeTag::Insert => {
                markup.append("{+");
                markup.append(change.value.as_str());
                markup.append("+}");
            },
        }
        i += 1;
    }
    proof {
        assert(runs.take(i as int) =~= runs);
    }
    markup
}

/// Computes the character-level diff of two UTF-8 buffers and renders it inline.
///
/// If either buffer is not well-formed UTF-8 the answer is a notice that says so.
/// Two identical texts are answered by that text, unmarked.
pub fn inline_diff(before: &[u8], after: &[u8]) -> (markup: Vec<u8>)
    ensures
        markup@ == inline_diff_bytes(before@, after@),
        valid_utf8(before@) && before@ == after@ ==> markup@ == before@,
{
    match (decode(before), decode(after)) {
        (Some(old_text), Some(new_text)) => {
            let script = diff_text(old_text, new_text, Mode::Char);
            let markup = render_inline(&script);
            proof {
                if before@ == after@ {
                    lemma_unchanged_markup(script.deep_view());
                    decode_utf8_encode_utf8(before@);
                }
            }
            encode(markup.as_str())
        },
        _ => encode("inputs must be valid UTF-8"),
    }
}

} // verus!
