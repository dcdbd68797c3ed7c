//! Edit scripts: the common currency between the diff engine and the renderers.
//!
//! A script is an ordered list of runs.  Read from first to last, the runs
//! tagged `Equal` or `Delete` spell out the "before" text and the runs tagged
//! `Equal` or `Insert` spell out the "after" text.

use vstd::prelude::*;

verus! {

/// How a run of an edit script relates to the two texts.
#[derive(Clone, Copy, Debug, PartialEq, Eq, Structural)]
pub enum ChangeTag {
    /// The run occurs in both texts.
    Equal,
    /// The run occurs in the "before" text only.
    Delete,
    /// The run occurs in the "after" text only.
    Insert,
}

/// One run of an edit script: a tag and the text it covers.
#[derive(Clone, Debug, PartialEq, Eq)]
pub struct Change {
    pub tag: ChangeTag,
    pub value: String,
}

/// The mathematical content of a [`Change`].
pub struct ChangeView {
    pub tag: ChangeTag,
    pub value: Seq<char>,
}

impl View for Change {
    type V = ChangeView;

    open spec fn view(&self) -> ChangeView {
        ChangeView { tag: self.tag, value: self.value@ }
    }
}

impl DeepView for Change {
    type V = ChangeView;

    open spec fn deep_view(&self) -> ChangeView {
        self@
    }
}

impl ChangeView {
    /// The run is part of the "before" text.
    pub open spec fn in_before(self) -> bool {
        self.tag != ChangeTag::Insert
    }

    /// The run is part of the "after" text.
    pub open spec fn in_after(self) -> bool {
        self.tag != ChangeTag::Delete
    }
}

/// The runs that belong to the "before" text, in script order.
pub open spec fn before_runs(script: Seq<ChangeView>) -> Seq<ChangeView> {
    script.filter(|c: ChangeView| c.in_before())
}

/// The runs that belong to the "after" text, in script order.
pub open spec fn after_runs(script: Seq<ChangeView>) -> Seq<ChangeView> {
    script.filter(|c: ChangeView| c.in_after())
}

/// The texts of `runs`, one by one.
pub open spec fn texts(runs: Seq<ChangeView>) -> Seq<Seq<char>> {
    runs.map_values(|c: ChangeView| c.value)
}

/// The texts of `runs`, concatenated.
pub open spec fn joined(runs: Seq<ChangeView>) -> Seq<char> {
    texts(runs).flatten()
}

/// The tokens of the "before" text according to `script`: the texts of its
/// `Equal` and `Delete` runs.
pub open spec fn before_tokens(script: Seq<ChangeView>) -> Seq<Seq<char>> {
    texts(before_runs(script))
}

/// The tokens of the "after" text according to `script`: the texts of its `Equal`
/// and `Insert` runs.
pub open spec fn after_tokens(script: Seq<ChangeView>) -> Seq<Seq<char>> {
    texts(after_runs(script))
}

/// The text that the `Equal` and `Delete` runs of `script` spell out.
pub open spec fn before_side(script: Seq<ChangeView>) -> Seq<char> {
    joined(before_runs(script))
}

/// The text that the `Equal` and `Insert` runs of `script` spell out.
pub open spec fn after_side(script: Seq<ChangeView>) -> Seq<char> {
    joined(after_runs(script))
}

/// `script` turns `before` into `after`: its two sides are exactly the two texts.
pub open spec fn reconstructs(script: Seq<ChangeView>, before: Seq<char>, after: Seq<char>) -> bool {
    &&& before_side(script) == before
    &&& after_side(script) == after
}

/// Every run of `script` is tagged `Equal`.
pub open spec fn unchanged(script: Seq<ChangeView>) -> bool {
    forall|i: int| 0 <= i < script.len() ==> (#[trigger] script[i]).tag == ChangeTag::Equal
}

/// No run of `script` is tagged `Equal`.
pub open spec fn all_changed(script: Seq<ChangeView>) -> bool {
    forall|k: int| 0 <= k < script.len() ==> (#[trigger] script[k]).tag != ChangeTag::Equal
}

/// No run of `script` is empty.
pub open spec fn no_empty_run(script: Seq<ChangeView>) -> bool {
    forall|i: int| 0 <= i < script.len() ==> (#[trigger] script[i]).value.len() > 0
}

/// The run at position `i` of `script` is an insertion and the next one a deletion.
pub open spec fn insert_then_delete(script: Seq<ChangeView>, i: int) -> bool {
    script[i].tag == ChangeTag::Insert && script[i + 1].tag == ChangeTag::Delete
}

/// Wherever `script` departs from the "before" text, it deletes before it inserts:
/// no `Insert` run is directly followed by a `Delete` run.
pub open spec fn deletions_first(script: Seq<ChangeView>) -> bool {
    forall|i: int| 0 <= i < script.len() - 1 ==> !#[trigger] insert_then_delete(script, i)
}

/// `script` is a faithful account of how the token sequence `before` became the
/// token sequence `after`: its two sides are the two sequences, it deletes before
/// it inserts, and it reports no change if the sequences are the same.
pub open spec fn faithful(script: Seq<ChangeView>, before: Seq<Seq<char>>, after: Seq<Seq<char>>) -> bool {
    &&& before_tokens(script) == before
    &&& after_tokens(script) == after
    &&& deletions_first(script)
    &&& before == after ==> unchanged(script)
}

/// The number of runs of `script` that carry `tag`.
pub open spec fn count_tag(script: Seq<ChangeView>, tag: ChangeTag) -> nat {
    script.filter(|c: ChangeView| c.tag == tag).len()
}

/// Appending a run extends the "before" runs exactly when the run is not an insertion,
/// and the "after" runs exactly when it is not a deletion.
pub proof fn lemma_runs_push(script: Seq<ChangeView>, change: ChangeView)
    ensures
        before_runs(script.push(change)) == if change.in_before() {
            before_runs(script).push(change)
        } else {
            before_runs(script)
        },
        after_runs(script.push(change)) == if change.in_after() {
            after_runs(script).push(change)
        } else {
            after_runs(script)
        },
{
    script.lemma_filter_push(change, |c: ChangeView| c.in_before());
    script.lemma_filter_push(change, |c: ChangeView| c.in_after());
}

/// Appending a run appends its text to the texts and to their concatenation.
pub proof fn lemma_joined_push(runs: Seq<ChangeView>, change: ChangeView)
    ensures
        texts(runs.push(change)) == texts(runs).push(change.value),
        joined(runs.push(change)) == joined(runs) + change.value,
{
    let text = |c: ChangeView| c.value;
    runs.lemma_push_map_commute(text, change);
    runs.map_values(text).lemma_flatten_push(change.value);
}

/// What appending a run does to the tokens of the two sides of a script.
pub proof fn lemma_tokens_push(script: Seq<ChangeView>, change: ChangeView)
    ensures
        before_tokens(script.push(change)) == if change.in_before() {
            before_tokens(script).push(change.value)
        } else {
            before_tokens(script)
        },
        after_tokens(script.push(change)) == if change.in_after() {
            after_tokens(script).push(change.value)
        } else {
            after_tokens(script)
        },
{
    lemma_runs_push(script, change);
    lemma_joined_push(before_runs(script), change);
    lemma_joined_push(after_runs(script), change);
}

/// What appending a run does to the two sides of a script.
pub proof fn lemma_sides_push(script: Seq<ChangeView>, change: ChangeView)
    ensures
        before_side(script.push(change)) == if change.in_before() {
            before_side(script) + change.value
        } else {
            before_side(script)
        },
        after_side(script.push(change)) == if change.in_after() {
            after_side(script) + change.value
        } else {
            after_side(script)
        },
{
    lemma_runs_push(script, change);
    lemma_joined_push(before_runs(script), change);
    lemma_joined_push(after_runs(script), change);
}

/// What appending a run does to the order of a script and to its being unchanged.
pub proof fn lemma_properties_push(script: Seq<ChangeView>, change: ChangeView)
    ensures
        unchanged(script.push(change)) <==> unchanged(script) && change.tag == ChangeTag::Equal,
        deletions_first(script.push(change)) <==> deletions_first(script) && !(script.len() > 0
            && script.last().tag == ChangeTag::Insert && change.tag == ChangeTag::Delete),
{
    let longer = script.push(change);
    let n = script.len() as int;
    assert(longer[n] == change);
    if unchanged(longer) {
        assert forall|i: int| 0 <= i < n implies (#[trigger] script[i]).tag
            == ChangeTag::Equal by {
            assert(longer[i] == script[i]);
        }
    }
    if deletions_first(longer) {
        assert forall|i: int| 0 <= i < n - 1 implies !#[trigger] insert_then_delete(script, i) by {
            assert(!insert_then_delete(longer, i));
        }
        if n > 0 {
            assert(!insert_then_delete(longer, n - 1));
        }
    }
    if deletions_first(script) && !(n > 0 && script.last().tag == ChangeTag::Insert && change.tag
        == ChangeTag::Delete) {
        assert forall|i: int| 0 <= i < n implies !#[trigger] insert_then_delete(longer, i) by {
            if i < n - 1 {
                assert(!insert_then_delete(script, i));
            }
        }
    }
}

/// The empty script has two empty sides.
pub proof fn lemma_sides_empty()
    ensures
        before_runs(Seq::<ChangeView>::empty()) == Seq::<ChangeView>::empty(),
        after_runs(Seq::<ChangeView>::empty()) == Seq::<ChangeView>::empty(),
        before_tokens(Seq::<ChangeView>::empty()) == Seq::<Seq<char>>::empty(),
        after_tokens(Seq::<ChangeView>::empty()) == Seq::<Seq<char>>::empty(),
        before_side(Seq::<ChangeView>::empty()) == Seq::<char>::empty(),
        after_side(Seq::<ChangeView>::empty()) == Seq::<char>::empty(),
{
    reveal(Seq::filter);
    let none = Seq::<ChangeView>::empty();
    assert(before_runs(none) =~= none);
    assert(after_runs(none) =~= none);
    assert(texts(none) =~= Seq::<Seq<char>>::empty());
}

/// The "before" runs are the `Equal` and the `Delete` runs; the "after" runs are
/// the `Equal` and the `Insert` runs.
pub proof fn lemma_run_counts(script: Seq<ChangeView>)
    ensures
        before_runs(script).len() == count_tag(script, ChangeTag::Equal) + count_tag(
            script,
            ChangeTag::Delete,
        ),
        after_runs(script).len() == count_tag(script, ChangeTag::Equal) + count_tag(
            script,
            ChangeTag::Insert,
        ),
    decreases script.len(),
{
    reveal(Seq::filter);
    if script.len() > 0 {
        lemma_run_counts(script.drop_last());
    }
}

/// A script without a change has the same runs on both sides: all of its runs.
pub proof fn lemma_unchanged_runs(script: Seq<ChangeView>)
    requires
        unchanged(script),
    ensures
        before_runs(script) == script,
        after_runs(script) == script,
    decreases script.len(),
{
    if script.len() == 0 {
        assert(script =~= Seq::<ChangeView>::empty());
        lemma_sides_empty();
    } else {
        let front = script.drop_last();
        let run = script.last();
        assert(script =~= front.push(run));
        lemma_properties_push(front, run);
        lemma_runs_push(front, run);
        lemma_unchanged_runs(front);
    }
}

/// The text of every run is among the tokens of each side that the run belongs to.
pub proof fn lemma_run_is_token(script: Seq<ChangeView>, p: int)
    requires
        0 <= p < script.len(),
    ensures
        script[p].in_before() ==> before_tokens(script).contains(script[p].value),
        script[p].in_after() ==> after_tokens(script).contains(script[p].value),
{
    let run = script[p];
    if run.in_before() {
        script.lemma_filter_contains(|c: ChangeView| c.in_before(), p);
        let k = choose|k: int| 0 <= k < before_runs(script).len() && before_runs(script)[k] == run;
        assert(before_tokens(script)[k] == run.value);
    }
    if run.in_after() {
        script.lemma_filter_contains(|c: ChangeView| c.in_after(), p);
        let k = choose|k: int| 0 <= k < after_runs(script).len() && after_runs(script)[k] == run;
        assert(after_tokens(script)[k] == run.value);
    }
}

/// In a script that has no `Equal` run and deletes before it inserts, only
/// insertions follow an insertion.
pub proof fn lemma_insertions_last(script: Seq<ChangeView>, i: int, j: int)
    requires
        deletions_first(script),
        all_changed(script),
        0 <= i <= j < script.len(),
        script[i].tag == ChangeTag::Insert,
    ensures
        script[j].tag == ChangeTag::Insert,
    decreases j - i,
{
    if i < j {
        lemma_insertions_last(script, i, j - 1);
        assert(!insert_then_delete(script, j - 1));
    }
}

impl Change {
    /// Builds a run from its tag and text.
    pub fn new(tag: ChangeTag, value: String) -> (change: Change)
        ensures
            change@ == (ChangeView { tag, value: value@ }),
    {
        Change { tag, value }
    }
}

} // verus!
