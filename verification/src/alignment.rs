//! Alignments: how a sequence of tags stands for an edit script.
//!
//! A tag says what becomes of the next token: `Equal` keeps the next token of
//! both sequences, `Delete` drops the next token of the "before" sequence,
//! `Insert` takes the next token of the "after" sequence.  Tags that fit two
//! sequences in this way determine the script between them.

use vstd::prelude::*;
use vstd::string::*;

use crate::script::{
    after_tokens, before_tokens, deletions_first, faithful, lemma_properties_push,
    lemma_sides_empty, lemma_tokens_push, unchanged, Change, ChangeTag, ChangeView,
};

verus! {

/// The number of tokens of the "before" sequence that `tags` account for.
pub open spec fn taken_before(tags: Seq<ChangeTag>) -> nat
    decreases tags.len(),
{
    if tags.len() == 0 {
        0
    } else {
        taken_before(tags.drop_last()) + if tags.last() == ChangeTag::Insert {
            0nat
        } else {
            1nat
        }
    }
}

/// The number of tokens of the "after" sequence that `tags` account for.
pub open spec fn taken_after(tags: Seq<ChangeTag>) -> nat
    decreases tags.len(),
{
    if tags.len() == 0 {
        0
    } else {
        taken_after(tags.drop_last()) + if tags.last() == ChangeTag::Delete {
            0nat
        } else {
            1nat
        }
    }
}

/// The token of the "before" sequence that the tag at position `p` stands at.
pub open spec fn before_at(tags: Seq<ChangeTag>, before: Seq<Seq<char>>, p: int) -> Seq<char> {
    before[taken_before(tags.take(p)) as int]
}

/// The token of the "after" sequence that the tag at position `p` stands at.
pub open spec fn after_at(tags: Seq<ChangeTag>, after: Seq<Seq<char>>, p: int) -> Seq<char> {
    after[taken_after(tags.take(p)) as int]
}

/// The run that the tag at position `p` stands for: an insertion takes the next
/// token of the "after" sequence, anything else the next of the "before" sequence.
pub open spec fn run_at(
    tags: Seq<ChangeTag>,
    before: Seq<Seq<char>>,
    after: Seq<Seq<char>>,
    p: int,
) -> ChangeView {
    ChangeView {
        tag: tags[p],
        value: if tags[p] == ChangeTag::Insert {
            after_at(tags, after, p)
        } else {
            before_at(tags, before, p)
        },
    }
}

/// The script that `tags` stand for when they are followed along both sequences.
pub open spec fn applied(
    tags: Seq<ChangeTag>,
    before: Seq<Seq<char>>,
    after: Seq<Seq<char>>,
) -> Seq<ChangeView> {
    Seq::new(tags.len(), |p: int| run_at(tags, before, after, p))
}

/// The tag at position `p` does not claim two different tokens to be equal.
pub open spec fn agrees_at(
    tags: Seq<ChangeTag>,
    before: Seq<Seq<char>>,
    after: Seq<Seq<char>>,
    p: int,
) -> bool {
    tags[p] == ChangeTag::Equal ==> before_at(tags, before, p) == after_at(tags, after, p)
}

/// `tags` fit the two sequences: they account for every token of either, and
/// every pair of tokens that they call equal is equal.
pub open spec fn aligns(tags: Seq<ChangeTag>, before: Seq<Seq<char>>, after: Seq<Seq<char>>) -> bool {
    &&& taken_before(tags) == before.len()
    &&& taken_after(tags) == after.len()
    &&& forall|p: int| 0 <= p < tags.len() ==> #[trigger] agrees_at(tags, before, after, p)
}

/// `tags` are an acceptable answer: they fit the two sequences, they delete before
/// they insert, and they report no change if the sequences are the same.
pub open spec fn sound(tags: Seq<ChangeTag>, before: Seq<Seq<char>>, after: Seq<Seq<char>>) -> bool {
    &&& aligns(tags, before, after)
    &&& deletions_first(applied(tags, before, after))
    &&& before == after ==> unchanged(applied(tags, before, after))
}

/// One more tag accounts for one more token of each sequence that it touches.
pub proof fn lemma_taken_step(tags: Seq<ChangeTag>, p: int)
    requires
        0 <= p < tags.len(),
    ensures
        taken_before(tags.take(p + 1)) == taken_before(tags.take(p)) + if tags[p]
            == ChangeTag::Insert {
            0nat
        } else {
            1nat
        },
        taken_after(tags.take(p + 1)) == taken_after(tags.take(p)) + if tags[p]
            == ChangeTag::Delete {
            0nat
        } else {
            1nat
        },
{
    assert(tags.take(p + 1).drop_last() =~= tags.take(p));
    assert(tags.take(p + 1).last() == tags[p]);
}

/// The beginning of a tag sequence accounts for no more tokens than the whole.
pub proof fn lemma_taken_monotone(tags: Seq<ChangeTag>, p: int)
    requires
        0 <= p <= tags.len(),
    ensures
        taken_before(tags.take(p)) <= taken_before(tags),
        taken_after(tags.take(p)) <= taken_after(tags),
    decreases tags.len() - p,
{
    if p == tags.len() {
        assert(tags.take(p) =~= tags);
    } else {
        lemma_taken_step(tags, p);
        lemma_taken_monotone(tags, p + 1);
    }
}

/// The script that tags stand for grows by one run per tag.
proof fn lemma_applied_step(
    tags: Seq<ChangeTag>,
    before: Seq<Seq<char>>,
    after: Seq<Seq<char>>,
    p: int,
)
    requires
        0 <= p < tags.len(),
    ensures
        applied(tags, before, after).take(p + 1) == applied(tags, before, after).take(p).push(
            run_at(tags, before, after, p),
        ),
{
    assert(applied(tags, before, after).take(p + 1) =~= applied(tags, before, after).take(p).push(
        run_at(tags, before, after, p),
    ));
}

/// As far as tags agree with the two sequences and stay within them, the script
/// that they stand for has, on each side, the tokens that the tags account for.
proof fn lemma_applied_prefix(
    tags: Seq<ChangeTag>,
    before: Seq<Seq<char>>,
    after: Seq<Seq<char>>,
    p: int,
)
    requires
        0 <= p <= tags.len(),
        taken_before(tags.take(p)) <= before.len(),
        taken_after(tags.take(p)) <= after.len(),
        forall|q: int| 0 <= q < p ==> #[trigger] agrees_at(tags, before, after, q),
    ensures
        before_tokens(applied(tags, before, after).take(p)) == before.take(
            taken_before(tags.take(p)) as int,
        ),
        after_tokens(applied(tags, before, after).take(p)) == after.take(
            taken_after(tags.take(p)) as int,
        ),
    decreases p,
{
    let script = applied(tags, before, after);
    if p == 0 {
        lemma_sides_empty();
        assert(script.take(0) =~= Seq::<ChangeView>::empty());
        assert(tags.take(0) =~= Seq::<ChangeTag>::empty());
        assert(before.take(0) =~= Seq::<Seq<char>>::empty());
        assert(after.take(0) =~= Seq::<Seq<char>>::empty());
    } else {
        let q = p - 1;
        let i = taken_before(tags.take(q)) as int;
        let j = taken_after(tags.take(q)) as int;
        let run = run_at(tags, before, after, q);
        lemma_taken_step(tags, q);
        lemma_applied_prefix(tags, before, after, q);
        lemma_applied_step(tags, before, after, q);
        lemma_tokens_push(script.take(q), run);
        assert(agrees_at(tags, before, after, q));
        if tags[q] != ChangeTag::Insert {
            assert(before.take(i + 1) =~= before.take(i).push(before[i]));
        }
        if tags[q] != ChangeTag::Delete {
            assert(after.take(j + 1) =~= after.take(j).push(after[j]));
        }
    }
}

/// Tags that are an acceptable answer stand for a faithful script.
pub proof fn lemma_sound_is_faithful(
    tags: Seq<ChangeTag>,
    before: Seq<Seq<char>>,
    after: Seq<Seq<char>>,
)
    requires
        sound(tags, before, after),
    ensures
        faithful(applied(tags, before, after), before, after),
{
    let script = applied(tags, before, after);
    assert(tags.take(tags.len() as int) =~= tags);
    assert(script.take(tags.len() as int) =~= script);
    lemma_applied_prefix(tags, before, after, tags.len() as int);
    assert(before.take(before.len() as int) =~= before);
    assert(after.take(after.len() as int) =~= after);
}

/// Decides whether two token sequences are the same.
pub fn same_tokens(before: &Vec<String>, after: &Vec<String>) -> (same: bool)
    ensures
        same == (before.deep_view() == after.deep_view()),
{
    if before.len() != after.len() {
        assert(before.deep_view().len() != after.deep_view().len());
        return false;
    }
    let mut k: usize = 0;
    while k < before.len()
        invariant
            k <= before.len(),
            before.len() == after.len(),
            forall|m: int| 0 <= m < k ==> before.deep_view()[m] == after.deep_view()[m],
        decreases before.len() - k,
    {
        if before[k] != after[k] {
            assert(before.deep_view()[k as int] != after.deep_view()[k as int]);
            return false;
        }
        k += 1;
    }
    assert(before.deep_view() =~= after.deep_view());
    true
}

/// Follows `tags` along the two sequences and assembles the script that they
/// stand for.  The answer is `None` exactly if the tags are not acceptable.
pub fn assemble(tags: &Vec<ChangeTag>, before: &Vec<String>, after: &Vec<String>) -> (script:
    Option<Vec<Change>>)
    ensures
        script is Some <==> sound(tags@, before.deep_view(), after.deep_view()),
        script matches Some(runs) ==> runs.deep_view() == applied(
            tags@,
            before.deep_view(),
            after.deep_view(),
        ),
{
    let ghost source = before.deep_view();
    let ghost target = after.deep_view();
    let ghost whole = applied(tags@, source, target);
    let same = same_tokens(before, after);
    let mut script: Vec<Change> = Vec::new();
    let mut i: usize = 0;
    let mut j: usize = 0;
    let mut all_equal = true;
    let mut in_order = true;
    let mut after_insert = false;
    proof {
        assert(whole.take(0) =~= Seq::<ChangeView>::empty());
        assert(tags@.take(0) =~= Seq::<ChangeTag>::empty());
    }
    let mut p: usize = 0;
    while p < tags.len()
        invariant
            p <= tags.len(),
            source == before.deep_view(),
            target == after.deep_view(),
            whole == applied(tags@, source, target),
            same == (source == target),
            i == taken_before(tags@.take(p as int)),
            j == taken_after(tags@.take(p as int)),
            i <= before.len(),
            j <= after.len(),
            script.deep_view() == whole.take(p as int),
            forall|q: int| 0 <= q < p ==> #[trigger] agrees_at(tags@, source, target, q),
            all_equal == unchanged(whole.take(p as int)),
            in_order == deletions_first(whole.take(p as int)),
            after_insert == (p > 0 && tags@[p - 1] == ChangeTag::Insert),
        decreases tags.len() - p,
    {
        let tag = tags[p];
        let ghost run = run_at(tags@, source, target, p as int);
        let ghost so_far = script.deep_view();
        proof {
            lemma_taken_step(tags@, p as int);
            lemma_taken_monotone(tags@, p + 1);
            lemma_applied_step(tags@, source, target, p as int);
            lemma_properties_push(whole.take(p as int), run);
            if p > 0 {
                assert(whole.take(p as int).last() == whole[p - 1]);
            }
        }
        match tag {
            ChangeTag::Equal => {
                if i >= before.len() || j >= after.len() {
                    return None;
                }
                if before[i] != after[j] {
                    assert(!agrees_at(tags@, source, target, p as int));
                    return None;
                }
                script.push(Change { tag, value: before[i].clone() });
                i += 1;
                j += 1;
                after_insert = false;
            },
            ChangeTag::Delete => {
                if i >= before.len() {
                    return None;
                }
                script.push(Change { tag, value: before[i].clone() });
                i += 1;
                all_equal = false;
                if after_insert {
                    in_order = false;
                }
                after_insert = false;
            },
            ChangeTag::Insert => {
                if j >= after.len() {
                    return None;
                }
                script.push(Change { tag, value: after[j].clone() });
                j += 1;
                all_equal = false;
                after_insert = true;
            },
        }
        proof {
            assert(script.deep_view() =~= so_far.push(run));
        }
        p += 1;
    }
    proof {
        assert(tags@.take(p as int) =~= tags@);
        assert(whole.take(p as int) =~= whole);
    }
    if i == before.len() && j == after.len() && in_order && (all_equal || !same) {
        Some(script)
    } else {
        None
    }
}

} // verus!
