//! The structured renderer: a line-level edit script becomes two numbered line
//! lists, one per side, whose changed lines carry a highlight span.

use vstd::prelude::*;
use vstd::string::*;
use vstd::utf8::*;

use crate::engine::{diff_text, lemma_text_script_reconstructs, text_script};
use crate::script::{
    after_runs, before_runs, count_tag, lemma_run_counts, lemma_runs_push, lemma_sides_empty,
    lemma_unchanged_runs, texts, unchanged, Change, ChangeTag, ChangeView,
};
use crate::text::{byte_len, decode};
use crate::tokens::{lemma_tokens_shape, line_shaped, tokens, Mode};

verus! {

/// A half-open range of byte offsets into the text of one line.
#[derive(Clone, Copy, Debug, PartialEq, Eq, Structural)]
pub struct SpanEntry {
    pub start: usize,
    pub end: usize,
}

/// One line of one side of a diff.
#[derive(Clone, Debug, PartialEq, Eq)]
pub struct LineEntry {
    /// Position of the line within its side, counted from 1.
    pub line: usize,
    /// The line without its terminator.
    pub text: String,
    /// The changed byte ranges of `text`.
    pub spans: Vec<SpanEntry>,
}

/// The mathematical content of a [`LineEntry`].
pub struct LineEntryView {
    pub line: nat,
    pub text: Seq<char>,
    pub spans: Seq<SpanEntry>,
}

impl View for LineEntry {
    type V = LineEntryView;

    open spec fn view(&self) -> LineEntryView {
        LineEntryView { line: self.line as nat, text: self.text@, spans: self.spans@ }
    }
}

impl DeepView for LineEntry {
    type V = LineEntryView;

    open spec fn deep_view(&self) -> LineEntryView {
        self@
    }
}

/// A labelled line diff: the lines of the "before" text and those of the "after" text.
#[derive(Clone, Debug, PartialEq, Eq)]
pub struct DiffPayload {
    pub language: String,
    pub before: Vec<LineEntry>,
    pub after: Vec<LineEntry>,
}

/// The mathematical content of a [`DiffPayload`].
pub struct DiffPayloadView {
    pub language: Seq<char>,
    pub before: Seq<LineEntryView>,
    pub after: Seq<LineEntryView>,
}

impl View for DiffPayload {
    type V = DiffPayloadView;

    open spec fn view(&self) -> DiffPayloadView {
        DiffPayloadView {
            language: self.language@,
            before: self.before.deep_view(),
            after: self.after.deep_view(),
        }
    }
}

/// `line` without its terminator, which is `"\n"` or `"\r\n"`.
pub open spec fn bare_line(line: Seq<char>) -> Seq<char> {
    if line.len() >= 1 && line.last() == '\n' {
        if line.len() >= 2 && line[line.len() - 2] == '\r' {
            line.take(line.len() - 2)
        } else {
            line.take(line.len() - 1)
        }
    } else {
        line
    }
}

/// The highlight of a changed line: nothing for an empty line, otherwise one span
/// over the whole of `text`.
pub open spec fn whole_line_spans(text: Seq<char>) -> Seq<SpanEntry> {
    if byte_len(text) == 0 {
        Seq::empty()
    } else {
        seq![SpanEntry { start: 0, end: byte_len(text) as usize }]
    }
}

/// The entry for `run` when it is the line at `index` (counted from 0) of its side.
pub open spec fn line_entry(index: int, run: ChangeView) -> LineEntryView {
    let text = bare_line(run.value);
    LineEntryView {
        line: (index + 1) as nat,
        text,
        spans: if run.tag == ChangeTag::Equal {
            Seq::empty()
        } else {
            whole_line_spans(text)
        },
    }
}

/// One entry per run, numbered from 1 in order.
pub open spec fn numbered_lines(runs: Seq<ChangeView>) -> Seq<LineEntryView> {
    Seq::new(runs.len(), |i: int| line_entry(i, runs[i]))
}

/// The payload that a line-level `script` and a `label` stand for.
pub open spec fn segmented(script: Seq<ChangeView>, label: Seq<char>) -> DiffPayloadView {
    DiffPayloadView {
        language: label,
        before: numbered_lines(before_runs(script)),
        after: numbered_lines(after_runs(script)),
    }
}

/// Every span of `entry` lies within its text, as byte offsets.
pub open spec fn spans_in_bounds(entry: LineEntryView) -> bool {
    forall|k: int|
        0 <= k < entry.spans.len() ==> {
            let span = #[trigger] entry.spans[k];
            0 <= span.start <= span.end <= byte_len(entry.text)
        }
}

/// `lines` are numbered 1, 2, 3, ... without a gap.
pub open spec fn consecutively_numbered(lines: Seq<LineEntryView>) -> bool {
    forall|i: int| 0 <= i < lines.len() ==> (#[trigger] lines[i]).line == i + 1
}

/// Every span of every entry of `lines` lies within the text of its line.
pub open spec fn all_spans_in_bounds(lines: Seq<LineEntryView>) -> bool {
    forall|i: int| 0 <= i < lines.len() ==> spans_in_bounds(#[trigger] lines[i])
}

/// Each side of `payload` is numbered from 1 without a gap, independently of the
/// other, and every span lies within the text of its line.
pub open spec fn well_formed(payload: DiffPayloadView) -> bool {
    &&& consecutively_numbered(payload.before)
    &&& consecutively_numbered(payload.after)
    &&& all_spans_in_bounds(payload.before)
    &&& all_spans_in_bounds(payload.after)
}

/// The texts of `lines`, one by one.
pub open spec fn line_texts(lines: Seq<LineEntryView>) -> Seq<Seq<char>> {
    lines.map_values(|entry: LineEntryView| entry.text)
}

/// The lines of `text`, each without its terminator.
pub open spec fn bare_lines(text: Seq<char>) -> Seq<Seq<char>> {
    tokens(text, Mode::Line).map_values(|line: Seq<char>| bare_line(line))
}

/// Strips the terminator (`"\n"` or `"\r\n"`) from the end of `line`, if there is one.
pub fn strip_terminator<'a>(line: &'a str) -> (text: &'a str)
    ensures
        text@ == bare_line(line@),
{
    let n = line.unicode_len();
    if n >= 1 && line.get_char(n - 1) == '\n' {
        if n >= 2 && line.get_char(n - 2) == '\r' {
            line.substring_char(0, n - 2)
        } else {
            line.substring_char(0, n - 1)
        }
    } else {
        line
    }
}

/// Appending a run to a side appends its entry, numbered one past the last.
proof fn lemma_numbered_lines_push(runs: Seq<ChangeView>, run: ChangeView)
    ensures
        numbered_lines(runs.push(run)) == numbered_lines(runs).push(
            line_entry(runs.len() as int, run),
        ),
{
    assert(numbered_lines(runs.push(run)) =~= numbered_lines(runs).push(
        line_entry(runs.len() as int, run),
    ));
}

/// Builds the entry for the line `text` at position `line`; `changed` lines are highlighted.
fn make_entry(line: usize, text: &str, changed: bool) -> (entry: LineEntry)
    ensures
        entry@.line == line,
        entry@.text == text@,
        entry@.spans == if changed {
            whole_line_spans(text@)
        } else {
            Seq::<SpanEntry>::empty()
        },
{
    let len = text.as_bytes().len();
    let mut spans: Vec<SpanEntry> = Vec::new();
    if changed && len != 0 {
        spans.push(SpanEntry { start: 0, end: len });
    }
    proof {
        assert(spans@ =~= if changed {
            whole_line_spans(text@)
        } else {
            Seq::<SpanEntry>::empty()
        });
    }
    LineEntry { line, text: text.to_owned(), spans }
}

/// Walks a line-level edit script and lists the lines of each side.
///
/// Each run is one line.  An `Equal` run appears on both sides without a span;
/// a `Delete` run appears on the "before" side only and an `Insert` run on the
/// "after" side only, each highlighted as a whole unless it is empty.  The two
/// sides are numbered independently from 1.
pub fn segment(script: &Vec<Change>, label: &str) -> (payload: DiffPayload)
    ensures
        payload@ == segmented(script.deep_view(), label@),
        well_formed(payload@),
        payload@.before.len() == count_tag(script.deep_view(), ChangeTag::Equal) + count_tag(
            script.deep_view(),
            ChangeTag::Delete,
        ),
        payload@.after.len() == count_tag(script.deep_view(), ChangeTag::Equal) + count_tag(
            script.deep_view(),
            ChangeTag::Insert,
        ),
{
    let ghost runs = script.deep_view();
    let mut before: Vec<LineEntry> = Vec::new();
    let mut after: Vec<LineEntry> = Vec::new();
    proof {
        lemma_sides_empty();
        assert(runs.take(0) =~= Seq::<ChangeView>::empty());
        assert(before.deep_view() =~= numbered_lines(before_runs(runs.take(0))));
        assert(after.deep_view() =~= numbered_lines(after_runs(runs.take(0))));
    }
    let mut i: usize = 0;
    while i < script.len()
        invariant
            i <= script.len(),
            runs == script.deep_view(),
            before.deep_view() == numbered_lines(before_runs(runs.take(i as int))),
            after.deep_view() == numbered_lines(after_runs(runs.take(i as int))),
            before.len() <= i,
            after.len() <= i,
        decreases script.len() - i,
    {
        let change = &script[i];
        let text = strip_terminator(change.value.as_str());
        proof {
            let run = runs[i as int];
            assert(run == change@);
            assert(runs.take(i + 1) =~= runs.take(i as int).push(run));
            lemma_runs_push(runs.take(i as int), run);
            lemma_numbered_lines_push(before_runs(runs.take(i as int)), run);
            lemma_numbered_lines_push(after_runs(runs.take(i as int)), run);
        }
        let ghost before_old = before.deep_view();
        let ghost after_old = after.deep_view();
        match change.tag {
            ChangeTag::Delete => {
                let entry = make_entry(before.len() + 1, text, true);
                before.push(entry);
                assert(before.deep_view() =~= before_old.push(entry@));
            },
            ChangeTag::Insert => {
                let entry = make_entry(after.len() + 1, text, true);
                after.push(entry);
                assert(after.deep_view() =~= after_old.push(entry@));
            },
            ChangeTag::Equal => {
                let before_entry = make_entry(before.len() + 1, text, false);
                let after_entry = make_entry(after.len() + 1, text, false);
                before.push(before_entry);
                after.push(after_entry);
                assert(before.deep_view() =~= before_old.push(before_entry@));
                assert(after.deep_view() =~= after_old.push(after_entry@));
            },
        }
        i += 1;
    }
    proof {
        assert(runs.take(i as int) =~= runs);
        lemma_run_counts(runs);
        lemma_segmented_is_well_formed(runs, label@);
    }
    DiffPayload { language: label.to_owned(), before, after }
}

/// In every payload that a script stands for, each side is numbered from 1 without
/// a gap and every span lies within the text of its line.
pub proof fn lemma_segmented_is_well_formed(script: Seq<ChangeView>, label: Seq<char>)
    ensures
        well_formed(segmented(script, label)),
{
}

/// A script without a change lists the same lines on both sides, none of them
/// with a span.
pub proof fn lemma_unchanged_segments(script: Seq<ChangeView>, label: Seq<char>)
    requires
        unchanged(script),
    ensures
        segmented(script, label).before == segmented(script, label).after,
        forall|i: int|
            0 <= i < segmented(script, label).before.len() ==> (#[trigger] segmented(
                script,
                label,
            ).before[i]).spans.len() == 0,
{
    lemma_unchanged_runs(script);
}

/// A line without its terminator holds no line feed.
pub proof fn lemma_bare_line_has_no_feed(line: Seq<char>, k: int)
    requires
        line_shaped(line),
        0 <= k < bare_line(line).len(),
    ensures
        bare_line(line)[k] != '\n',
{
    assert(bare_line(line)[k] == line[k]);
}

/// The payload of the line-level diff of two texts lists, on each side, the lines
/// of that text in order, each without its terminator; none of the listed texts
/// holds a line feed.
pub proof fn lemma_segments_list_the_lines(before: Seq<char>, after: Seq<char>, label: Seq<char>)
    ensures
        line_texts(segmented(text_script(before, after, Mode::Line), label).before) == bare_lines(
            before,
        ),
        line_texts(segmented(text_script(before, after, Mode::Line), label).after) == bare_lines(
            after,
        ),
        forall|i: int, k: int|
            0 <= i < bare_lines(before).len() && 0 <= k < bare_lines(before)[i].len()
                ==> bare_lines(before)[i][k] != '\n',
        forall|i: int, k: int|
            0 <= i < bare_lines(after).len() && 0 <= k < bare_lines(after)[i].len()
                ==> bare_lines(after)[i][k] != '\n',
{
    let script = text_script(before, after, Mode::Line);
    let payload = segmented(script, label);
    lemma_text_script_reconstructs(before, after, Mode::Line);
    assert(line_texts(payload.before) =~= bare_lines(before)) by {
        assert(texts(before_runs(script)) == tokens(before, Mode::Line));
        assert forall|i: int| 0 <= i < payload.before.len() implies line_texts(
            payload.before,
        )[i] == bare_lines(before)[i] by {
            assert(texts(before_runs(script))[i] == before_runs(script)[i].value);
        }
    }
    assert(line_texts(payload.after) =~= bare_lines(after)) by {
        assert(texts(after_runs(script)) == tokens(after, Mode::Line));
        assert forall|i: int| 0 <= i < payload.after.len() implies line_texts(payload.after)[i]
            == bare_lines(after)[i] by {
            assert(texts(after_runs(script))[i] == after_runs(script)[i].value);
        }
    }
    assert forall|i: int, k: int|
        0 <= i < bare_lines(before).len() && 0 <= k < bare_lines(
            before,
        )[i].len() implies bare_lines(before)[i][k] != '\n' by {
        lemma_tokens_shape(before, Mode::Line, i);
        lemma_bare_line_has_no_feed(tokens(before, Mode::Line)[i], k);
    }
    assert forall|i: int, k: int|
        0 <= i < bare_lines(after).len() && 0 <= k < bare_lines(after)[i].len() implies bare_lines(
            after,
        )[i][k] != '\n' by {
        lemma_tokens_shape(after, Mode::Line, i);
        lemma_bare_line_has_no_feed(tokens(after, Mode::Line)[i], k);
    }
}

/// What `inline_diff_segments` answers to the buffers `language`, `before` and
/// `after`: the payload of their line-level diff, or a notice that names the first
/// buffer that is not UTF-8.
pub open spec fn segments_outcome(language: Seq<u8>, before: Seq<u8>, after: Seq<u8>) -> Result<
    DiffPayloadView,
    Seq<char>,
> {
    if !valid_utf8(language) {
        Err("language must be valid UTF-8"@)
    } else if !valid_utf8(before) {
        Err("before must be valid UTF-8"@)
    } else if !valid_utf8(after) {
        Err("after must be valid UTF-8"@)
    } else {
        Ok(
            segmented(
                text_script(decode_utf8(before), decode_utf8(after), Mode::Line),
                decode_utf8(language),
            ),
        )
    }
}

/// The mathematical content of an answer of `inline_diff_segments`.
pub open spec fn outcome_view(outcome: Result<DiffPayload, String>) -> Result<
    DiffPayloadView,
    Seq<char>,
> {
    match outcome {
        Ok(payload) => Ok(payload@),
        Err(notice) => Err(notice@),
    }
}

/// Computes the line-level diff of two UTF-8 buffers and lists the lines of each
/// side under the label `language`.
///
/// The buffers are checked in the order `language`, `before`, `after`; the first
/// that is not well-formed UTF-8 is reported and nothing is computed.
pub fn inline_diff_segments(language: &[u8], before: &[u8], after: &[u8]) -> (outcome: Result<
    DiffPayload,
    String,
>)
    ensures
        outcome_view(outcome) == segments_outcome(language@, before@, after@),
        outcome matches Ok(payload) ==> {
            &&& well_formed(payload@)
            &&& line_texts(payload@.before) == bare_lines(decode_utf8(before@))
            &&& line_texts(payload@.after) == bare_lines(decode_utf8(after@))
        },
{
    let label = match decode(language) {
        Some(text) => text,
        None => {
            return Err("language must be valid UTF-8".to_owned());
        },
    };
    let old_text = match decode(before) {
        Some(text) => text,
        None => {
            return Err("before must be valid UTF-8".to_owned());
        },
    };
    let new_text = match decode(after) {
        Some(text) => text,
        None => {
            return Err("after must be valid UTF-8".to_owned());
        },
    };
    proof {
        lemma_segments_list_the_lines(old_text@, new_text@, label@);
    }
    let script = diff_text(old_text, new_text, Mode::Line);
    Ok(segment(&script, label))
}

} // verus!
