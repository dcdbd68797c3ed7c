//! The diff engine: Myers' shortest-edit-script search, as implemented by the
//! `similar` crate, behind a check of its own.
//!
//! The search is asked for one thing only: the order in which tokens are kept,
//! deleted and inserted.  Nothing is assumed of that answer beyond its being
//! determined by the two token sequences.  The script is assembled here by
//! following the tags along both sequences, which fails if the tags do not fit
//! the sequences.  Tags that do not fit, that insert before they delete, or that
//! report a change between two identical sequences, are discarded in favour of
//! the plain replacement of one sequence by the other.

use similar::{Algorithm, TextDiff};
use vstd::prelude::*;
use vstd::string::*;

use crate::alignment::{applied, assemble, lemma_sound_is_faithful, same_tokens, sound};
use crate::script::{
    after_tokens, all_changed, before_tokens, deletions_first, faithful, insert_then_delete,
    lemma_insertions_last, lemma_properties_push, lemma_run_is_token, lemma_sides_empty,
    lemma_tokens_push, lemma_unchanged_runs, no_empty_run, reconstructs, texts, unchanged, Change,
    ChangeTag, ChangeView,
};
use crate::tokens::{lemma_tokens_shape, lemma_tokens_spell_text, tokenize, tokens, Mode};

verus! {

/// The tags of the changes that `similar` reports for a Myers diff of the token
/// sequence `before` against the token sequence `after`, in the order in which it
/// reports them.
pub uninterp spec fn myers_tags(before: Seq<Seq<char>>, after: Seq<Seq<char>>) -> Seq<ChangeTag>;

/// Calls `TextDiffConfig::diff_slices` with the Myers algorithm and no deadline and
/// copies out the tag of each item that `TextDiff::iter_all_changes` yields.
/// The contract claims only that the outcome is a function of the two token
/// sequences.  `similar` numbers the distinct tokens of long inputs with 32-bit
/// integers, so the two sequences together must not hold more tokens than such an
/// integer can count.
#[verifier::external_body]
fn myers(before: &Vec<String>, after: &Vec<String>) -> (tags: Vec<ChangeTag>)
    requires
        within_capacity(before.deep_view(), after.deep_view()),
    ensures
        tags@ == myers_tags(before.deep_view(), after.deep_view()),
{
    let source: Vec<&str> = before.iter().map(String::as_str).collect();
    let target: Vec<&str> = after.iter().map(String::as_str).collect();
    let diff = TextDiff::configure().algorithm(Algorithm::Myers).diff_slices(&source, &target);
    let mut tags = Vec::new();
    for change in diff.iter_all_changes() {
        tags.push(match change.tag() {
            similar::ChangeTag::Equal => ChangeTag::Equal,
            similar::ChangeTag::Delete => ChangeTag::Delete,
            similar::ChangeTag::Insert => ChangeTag::Insert,
        });
    }
    tags
}

/// The two sequences together hold no more tokens than a 32-bit integer can count.
pub open spec fn within_capacity(before: Seq<Seq<char>>, after: Seq<Seq<char>>) -> bool {
    before.len() + after.len() <= u32::MAX
}

/// Every token of `tokens` as a run tagged `tag`.
pub open spec fn uniform(tag: ChangeTag, tokens: Seq<Seq<char>>) -> Seq<ChangeView> {
    Seq::new(tokens.len(), |p: int| ChangeView { tag, value: tokens[p] })
}

/// The script that replaces one sequence by the other wholesale: every token of
/// `before` deleted and then every token of `after` inserted, or every token kept
/// if the sequences are the same.
pub open spec fn replacement(before: Seq<Seq<char>>, after: Seq<Seq<char>>) -> Seq<ChangeView> {
    if before == after {
        uniform(ChangeTag::Equal, before)
    } else {
        uniform(ChangeTag::Delete, before) + uniform(ChangeTag::Insert, after)
    }
}

/// The two sequences have no token in common.
pub open spec fn disjoint(before: Seq<Seq<char>>, after: Seq<Seq<char>>) -> bool {
    forall|token: Seq<char>| !(before.contains(token) && after.contains(token))
}

/// The edit script from the token sequence `before` to the token sequence `after`:
/// what the tags of the Myers search stand for if the search can take the input
/// and its answer is acceptable, else the wholesale replacement.
pub open spec fn edit_script(before: Seq<Seq<char>>, after: Seq<Seq<char>>) -> Seq<ChangeView> {
    if within_capacity(before, after) && sound(myers_tags(before, after), before, after) {
        applied(myers_tags(before, after), before, after)
    } else {
        replacement(before, after)
    }
}

/// What one more token does to a script of uniformly tagged runs.
proof fn lemma_uniform_push(tag: ChangeTag, tokens: Seq<Seq<char>>, token: Seq<char>)
    ensures
        uniform(tag, tokens.push(token)) == uniform(tag, tokens).push(
            ChangeView { tag, value: token },
        ),
{
    assert(uniform(tag, tokens.push(token)) =~= uniform(tag, tokens).push(
        ChangeView { tag, value: token },
    ));
}

/// Uniformly tagged runs after a script add their tokens to the sides that the
/// tag belongs to.
proof fn lemma_uniform_tokens(first: Seq<ChangeView>, tag: ChangeTag, tokens: Seq<Seq<char>>)
    ensures
        before_tokens(first + uniform(tag, tokens)) == if tag == ChangeTag::Insert {
            before_tokens(first)
        } else {
            before_tokens(first) + tokens
        },
        after_tokens(first + uniform(tag, tokens)) == if tag == ChangeTag::Delete {
            after_tokens(first)
        } else {
            after_tokens(first) + tokens
        },
    decreases tokens.len(),
{
    if tokens.len() == 0 {
        assert(first + uniform(tag, tokens) =~= first);
        assert(before_tokens(first) + tokens =~= before_tokens(first));
        assert(after_tokens(first) + tokens =~= after_tokens(first));
    } else {
        let front = tokens.drop_last();
        let run = ChangeView { tag, value: tokens.last() };
        assert(tokens =~= front.push(tokens.last()));
        lemma_uniform_push(tag, front, tokens.last());
        lemma_uniform_tokens(first, tag, front);
        let shorter = first + uniform(tag, front);
        assert(first + uniform(tag, front).push(run) =~= shorter.push(run));
        lemma_tokens_push(shorter, run);
        assert((before_tokens(first) + front).push(tokens.last()) =~= before_tokens(first)
            + tokens);
        assert((after_tokens(first) + front).push(tokens.last()) =~= after_tokens(first) + tokens);
    }
}

/// The wholesale replacement is a faithful account of any two sequences.
pub proof fn lemma_replacement_is_faithful(before: Seq<Seq<char>>, after: Seq<Seq<char>>)
    ensures
        faithful(replacement(before, after), before, after),
{
    let none = Seq::<ChangeView>::empty();
    let empty = Seq::<Seq<char>>::empty();
    lemma_sides_empty();
    if before == after {
        lemma_uniform_tokens(none, ChangeTag::Equal, before);
        assert(none + uniform(ChangeTag::Equal, before) =~= uniform(ChangeTag::Equal, before));
        assert(empty + before =~= before);
    } else {
        let deleted = uniform(ChangeTag::Delete, before);
        lemma_uniform_tokens(none, ChangeTag::Delete, before);
        assert(none + deleted =~= deleted);
        lemma_uniform_tokens(deleted, ChangeTag::Insert, after);
        assert(empty + before =~= before);
        assert(empty + after =~= after);
    }
    let script = replacement(before, after);
    assert forall|p: int| 0 <= p < script.len() - 1 implies !#[trigger] insert_then_delete(
        script,
        p,
    ) by {}
}

/// The edit script between two token sequences is a faithful account of them:
/// its `Equal` and `Delete` runs are the tokens of `before`, its `Equal` and
/// `Insert` runs those of `after`, it deletes before it inserts, and it reports no
/// change if the sequences are the same.
pub proof fn lemma_edit_script_is_faithful(before: Seq<Seq<char>>, after: Seq<Seq<char>>)
    ensures
        faithful(edit_script(before, after), before, after),
{
    lemma_replacement_is_faithful(before, after);
    if within_capacity(before, after) && sound(myers_tags(before, after), before, after) {
        lemma_sound_is_faithful(myers_tags(before, after), before, after);
    }
}

/// The edit script between two texts that are compared token by token in the
/// given mode.
pub open spec fn text_script(before: Seq<char>, after: Seq<char>, mode: Mode) -> Seq<ChangeView> {
    edit_script(tokens(before, mode), tokens(after, mode))
}

/// A faithful script between two identical sequences keeps every token.
pub proof fn lemma_identical_sequences(script: Seq<ChangeView>, tokens: Seq<Seq<char>>)
    requires
        faithful(script, tokens, tokens),
    ensures
        script == uniform(ChangeTag::Equal, tokens),
{
    lemma_unchanged_runs(script);
    assert(script =~= uniform(ChangeTag::Equal, tokens)) by {
        assert(texts(script) == tokens);
        assert forall|p: int| 0 <= p < script.len() implies script[p] == uniform(
            ChangeTag::Equal,
            tokens,
        )[p] by {
            assert(texts(script)[p] == script[p].value);
        }
    }
}

/// A script of deletions followed by insertions is the deletion of the tokens of
/// its "before" side followed by the insertion of those of its "after" side.
proof fn lemma_changed_script(script: Seq<ChangeView>)
    requires
        all_changed(script),
        deletions_first(script),
    ensures
        script == uniform(ChangeTag::Delete, before_tokens(script)) + uniform(
            ChangeTag::Insert,
            after_tokens(script),
        ),
    decreases script.len(),
{
    if script.len() == 0 {
        lemma_sides_empty();
        assert(script =~= Seq::<ChangeView>::empty());
        assert(script =~= uniform(ChangeTag::Delete, before_tokens(script)) + uniform(
            ChangeTag::Insert,
            after_tokens(script),
        ));
    } else {
        let front = script.drop_last();
        let run = script.last();
        assert(script == front.push(run)) by {
            assert(script =~= front.push(run));
        }
        assert(all_changed(front)) by {
            assert forall|k: int| 0 <= k < front.len() implies (#[trigger] front[k]).tag
                != ChangeTag::Equal by {
                assert(front[k] == script[k]);
            }
        }
        assert(run.tag != ChangeTag::Equal) by {
            assert(script[script.len() - 1] == run);
        }
        assert(deletions_first(front)) by {
            lemma_properties_push(front, run);
        }
        lemma_changed_script(front);
        lemma_tokens_push(front, run);
        let deleted = uniform(ChangeTag::Delete, before_tokens(front));
        let inserted = uniform(ChangeTag::Insert, after_tokens(front));
        if run.tag == ChangeTag::Delete {
            assert(inserted.len() == 0) by {
                if inserted.len() > 0 {
                    let k = front.len() - 1;
                    assert(front[k] == inserted[inserted.len() - 1]);
                    assert(script[k] == front[k]);
                    lemma_insertions_last(script, k, script.len() - 1);
                }
            }
            lemma_uniform_push(ChangeTag::Delete, before_tokens(front), run.value);
            assert(front.push(run) =~= deleted.push(run) + inserted);
        } else {
            lemma_uniform_push(ChangeTag::Insert, after_tokens(front), run.value);
            assert(front.push(run) =~= deleted + inserted.push(run));
        }
    }
}

/// A faithful script between two sequences that have no token in common is the
/// wholesale replacement: every token of the one deleted, then every token of
/// the other inserted.
pub proof fn lemma_disjoint_sequences(
    script: Seq<ChangeView>,
    before: Seq<Seq<char>>,
    after: Seq<Seq<char>>,
)
    requires
        faithful(script, before, after),
        disjoint(before, after),
    ensures
        script == replacement(before, after),
{
    assert forall|p: int| 0 <= p < script.len() implies (#[trigger] script[p]).tag
        != ChangeTag::Equal by {
        if script[p].tag == ChangeTag::Equal {
            lemma_run_is_token(script, p);
            let token = script[p].value;
            assert(before.contains(token) && after.contains(token));
        }
    }
    lemma_changed_script(script);
    if before == after {
        if before.len() > 0 {
            assert(before.contains(before[0]));
        }
        assert(uniform(ChangeTag::Delete, before) + uniform(ChangeTag::Insert, after) =~= uniform(
            ChangeTag::Equal,
            before,
        ));
    }
}

/// The edit script between two texts spells out both texts, token by token:
/// its `Equal` and `Delete` runs are the tokens of `before` and concatenate to
/// `before`, its `Equal` and `Insert` runs are the tokens of `after` and
/// concatenate to `after`.  None of its runs is empty.
pub proof fn lemma_text_script_reconstructs(before: Seq<char>, after: Seq<char>, mode: Mode)
    ensures
        faithful(text_script(before, after, mode), tokens(before, mode), tokens(after, mode)),
        reconstructs(text_script(before, after, mode), before, after),
        no_empty_run(text_script(before, after, mode)),
{
    let script = text_script(before, after, mode);
    lemma_edit_script_is_faithful(tokens(before, mode), tokens(after, mode));
    lemma_tokens_spell_text(before, mode);
    lemma_tokens_spell_text(after, mode);
    assert forall|p: int| 0 <= p < script.len() implies (#[trigger] script[p]).value.len()
        > 0 by {
        lemma_run_is_token(script, p);
        let token = script[p].value;
        if script[p].in_before() {
            let k = choose|k: int|
                0 <= k < tokens(before, mode).len() && tokens(before, mode)[k] == token;
            lemma_tokens_shape(before, mode, k);
        } else {
            let k = choose|k: int|
                0 <= k < tokens(after, mode).len() && tokens(after, mode)[k] == token;
            lemma_tokens_shape(after, mode, k);
        }
    }
}

/// Builds one run tagged `tag` for every token of `tokens` and appends them to `script`.
fn push_uniform(script: &mut Vec<Change>, tag: ChangeTag, tokens: &Vec<String>)
    ensures
        final(script).deep_view() == old(script).deep_view() + uniform(tag, tokens.deep_view()),
{
    let ghost first = script.deep_view();
    let ghost units = tokens.deep_view();
    proof {
        assert(uniform(tag, units.take(0)) =~= Seq::<ChangeView>::empty());
        assert(first + Seq::<ChangeView>::empty() =~= first);
    }
    let mut k: usize = 0;
    while k < tokens.len()
        invariant
            k <= tokens.len(),
            units == tokens.deep_view(),
            script.deep_view() == first + uniform(tag, units.take(k as int)),
        decreases tokens.len() - k,
    {
        let ghost so_far = script.deep_view();
        let run = Change { tag, value: tokens[k].clone() };
        script.push(run);
        proof {
            assert(units.take(k + 1) =~= units.take(k as int).push(units[k as int]));
            lemma_uniform_push(tag, units.take(k as int), units[k as int]);
            assert(script.deep_view() =~= so_far.push(run@));
            assert(so_far.push(run@) =~= first + uniform(tag, units.take(k as int)).push(run@));
        }
        k += 1;
    }
    proof {
        assert(units.take(k as int) =~= units);
    }
}

/// Builds the wholesale replacement of the token sequence `before` by `after`.
pub fn replacement_script(before: &Vec<String>, after: &Vec<String>) -> (script: Vec<Change>)
    ensures
        script.deep_view() == replacement(before.deep_view(), after.deep_view()),
{
    let mut script: Vec<Change> = Vec::new();
    let ghost none = script.deep_view();
    if same_tokens(before, after) {
        push_uniform(&mut script, ChangeTag::Equal, before);
        assert(none + uniform(ChangeTag::Equal, before.deep_view()) =~= uniform(
            ChangeTag::Equal,
            before.deep_view(),
        ));
    } else {
        push_uniform(&mut script, ChangeTag::Delete, before);
        push_uniform(&mut script, ChangeTag::Insert, after);
        assert(none + uniform(ChangeTag::Delete, before.deep_view()) =~= uniform(
            ChangeTag::Delete,
            before.deep_view(),
        ));
    }
    script
}

/// Computes the edit script from the token sequence `before` to the token
/// sequence `after`.
///
/// The `Equal` and `Delete` runs of the script are the tokens of `before`, in
/// order; its `Equal` and `Insert` runs are the tokens of `after`.  Wherever it
/// departs from `before` it deletes before it inserts.  Two identical sequences
/// give a script that keeps every token; two sequences without a common token
/// give the deletion of every token of the one followed by the insertion of
/// every token of the other.
pub fn diff(before: &Vec<String>, after: &Vec<String>) -> (script: Vec<Change>)
    ensures
        script.deep_view() == edit_script(before.deep_view(), after.deep_view()),
        before_tokens(script.deep_view()) == before.deep_view(),
        after_tokens(script.deep_view()) == after.deep_view(),
        deletions_first(script.deep_view()),
        before.deep_view() == after.deep_view() ==> script.deep_view() == uniform(
            ChangeTag::Equal,
            before.deep_view(),
        ),
        disjoint(before.deep_view(), after.deep_view()) ==> script.deep_view() == replacement(
            before.deep_view(),
            after.deep_view(),
        ),
{
    proof {
        let source = before.deep_view();
        let target = after.deep_view();
        lemma_edit_script_is_faithful(source, target);
        if source == target {
            lemma_identical_sequences(edit_script(source, target), source);
        }
        if disjoint(source, target) {
            lemma_disjoint_sequences(edit_script(source, target), source, target);
        }
    }
    let fitting = if before.len() <= 0xffff_ffff && after.len() <= 0xffff_ffff - before.len() {
        assemble(&myers(before, after), before, after)
    } else {
        None
    };
    match fitting {
        Some(script) => script,
        None => replacement_script(before, after),
    }
}

/// Computes the edit script between two texts, compared token by token in the
/// given mode.
///
/// The script spells out both texts: the `Equal` and `Delete` runs are the
/// tokens of `before`, the `Equal` and `Insert` runs the tokens of `after`.
/// No run is empty.  Wherever the script departs from `before` it deletes before
/// it inserts, and it consists of `Equal` runs only if the texts are the same.
pub fn diff_text(before: &str, after: &str, mode: Mode) -> (script: Vec<Change>)
    ensures
        script.deep_view() == text_script(before@, after@, mode),
        reconstructs(script.deep_view(), before@, after@),
        before_tokens(script.deep_view()) == tokens(before@, mode),
        after_tokens(script.deep_view()) == tokens(after@, mode),
        no_empty_run(script.deep_view()),
        deletions_first(script.deep_view()),
        before@ == after@ ==> unchanged(script.deep_view()),
{
    proof {
        lemma_text_script_reconstructs(before@, after@, mode);
    }
    let old_tokens = tokenize(before, mode);
    let new_tokens = tokenize(after, mode);
    diff(&old_tokens, &new_tokens)
}

} // verus!
