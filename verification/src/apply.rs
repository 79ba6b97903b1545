//! Applying a file's hunks to its text.
//!
//! The hunks are decoded, put in the order of their anchors, and run over
//! the old lines with a cursor: up to an action's anchor the old lines are
//! copied, then the action's lines come in and as many old lines as it
//! removes are passed over. What is left of the old lines follows the last
//! action. An action whose anchor lies beyond the old lines that are left
//! ends the run: what is left is copied, and that action and all after it are
//! dropped.

use crate::patch::{
    actions_of, decode_all, decode_all_spec, hunks_of, Action, ActionView, HunkView, Patch,
    PatchFile, PatchFileHunk, PatchFileView,
};
use crate::text::{
    ends_with_newline, ends_with_newline_spec, join_lines, lemma_deep_view_push, lines_of,
    split_lines, split_lines_spec, unsplit_spec,
};
use vstd::prelude::*;

verus! {

/// Where a run stands.
pub struct Cursor {
    /// How many of the old lines are behind the cursor.
    pub pos: nat,
    /// The line that the output has reached, as the actions count it.
    pub line: nat,
    /// The output so far.
    pub out: Seq<Seq<char>>,
    /// Whether the old lines ran out before an anchor was reached.
    pub cut: bool,
}

/// The cursor before the first action.
pub open spec fn start_cursor() -> Cursor {
    Cursor { pos: 0, line: 0, out: Seq::empty(), cut: false }
}

/// How many old lines are copied before `a`, if they are there.
pub open spec fn lines_before(c: Cursor, a: ActionView) -> nat {
    if a.anchor > c.line {
        (a.anchor - c.line) as nat
    } else {
        0
    }
}

/// One action, run from `c` over the lines `old`.
pub open spec fn step_spec(old: Seq<Seq<char>>, c: Cursor, a: ActionView) -> Cursor {
    let want = lines_before(c, a);
    if c.cut {
        c
    } else if c.pos + want > old.len() {
        Cursor { pos: old.len(), line: c.line, out: c.out + old.skip(c.pos as int), cut: true }
    } else {
        let reached = c.pos + want;
        Cursor {
            pos: if reached + a.remove.len() > old.len() {
                old.len()
            } else {
                reached + a.remove.len()
            },
            line: a.anchor + a.insert.len(),
            out: c.out + old.subrange(c.pos as int, reached as int) + a.insert,
            cut: false,
        }
    }
}

/// The actions in the order given, run from `c` over the lines `old`.
pub open spec fn run_spec(old: Seq<Seq<char>>, c: Cursor, actions: Seq<ActionView>) -> Cursor
    decreases actions.len(),
{
    if actions.len() == 0 {
        c
    } else {
        run_spec(old, step_spec(old, c, actions[0]), actions.skip(1))
    }
}

/// The lines that the actions, in the order given, make of `old`.
pub open spec fn apply_lines_spec(old: Seq<Seq<char>>, actions: Seq<ActionView>) -> Seq<
    Seq<char>,
> {
    let end = run_spec(old, start_cursor(), actions);
    end.out + old.skip(end.pos as int)
}

/// `a` put into `sorted` before the first action whose anchor is not
/// smaller.
pub open spec fn insert_sorted(a: ActionView, sorted: Seq<ActionView>) -> Seq<ActionView>
    decreases sorted.len(),
{
    if sorted.len() == 0 || a.anchor <= sorted[0].anchor {
        seq![a] + sorted
    } else {
        seq![sorted[0]] + insert_sorted(a, sorted.skip(1))
    }
}

/// The actions in the order of their anchors. Actions with one anchor keep
/// the order they came in.
pub open spec fn sort_spec(actions: Seq<ActionView>) -> Seq<ActionView>
    decreases actions.len(),
{
    if actions.len() == 0 {
        Seq::empty()
    } else {
        insert_sorted(actions[0], sort_spec(actions.skip(1)))
    }
}

/// No anchor is smaller than one before it.
pub open spec fn is_sorted(actions: Seq<ActionView>) -> bool {
    forall|i: int, j: int|
        0 <= i < j < actions.len() ==> (#[trigger] actions[i]).anchor <= (
        #[trigger] actions[j]).anchor
}

/// Every anchor is greater than the ones before it.
pub open spec fn strictly_sorted(actions: Seq<ActionView>) -> bool {
    forall|i: int, j: int|
        0 <= i < j < actions.len() ==> (#[trigger] actions[i]).anchor < (
        #[trigger] actions[j]).anchor
}

/// No two actions have one anchor.
pub open spec fn distinct_anchors(actions: Seq<ActionView>) -> bool {
    forall|i: int, j: int|
        0 <= i < j < actions.len() ==> (#[trigger] actions[i]).anchor != (
        #[trigger] actions[j]).anchor
}

/// The text that the hunks make of `old_text`: its lines, changed by the
/// decoded hunks in the order of their anchors, with a newline between each
/// two lines, and one at the end if and only if `old_text` ends in one.
pub open spec fn apply_text_spec(old_text: Seq<char>, hunks: Seq<HunkView>) -> Seq<char> {
    unsplit_spec(
        apply_lines_spec(split_lines_spec(old_text), sort_spec(decode_all_spec(hunks))),
        ends_with_newline_spec(old_text),
    )
}

/// `insert_sorted` adds one element, and what it returns holds `a` and the
/// elements of `sorted`, and nothing else.
pub proof fn lemma_insert_sorted(a: ActionView, sorted: Seq<ActionView>)
    ensures
        insert_sorted(a, sorted).len() == sorted.len() + 1,
        insert_sorted(a, sorted).to_multiset() == sorted.to_multiset().insert(a),
        is_sorted(sorted) ==> is_sorted(insert_sorted(a, sorted)),
        forall|k: int|
            0 <= k < insert_sorted(a, sorted).len() ==> (#[trigger] insert_sorted(a, sorted)[k])
                == a || sorted.contains(insert_sorted(a, sorted)[k]),
    decreases sorted.len(),
{
    broadcast use vstd::seq_lib::group_to_multiset_ensures;

    let result = insert_sorted(a, sorted);
    if sorted.len() == 0 || a.anchor <= sorted[0].anchor {
        assert(result =~= sorted.insert(0, a));
        vstd::seq_lib::to_multiset_insert(sorted, 0, a);
        assert forall|k: int| 0 <= k < result.len() implies (#[trigger] result[k]) == a
            || sorted.contains(result[k]) by {
            if k > 0 {
                assert(result[k] == sorted[k - 1]);
            }
        }
        if is_sorted(sorted) {
            assert forall|i: int, j: int| 0 <= i < j < result.len() implies (
            #[trigger] result[i]).anchor <= (#[trigger] result[j]).anchor by {
                if i == 0 {
                    assert(result[j] == sorted[j - 1]);
                    if j - 1 > 0 {
                        assert(sorted[0].anchor <= sorted[j - 1].anchor);
                    }
                } else {
                    assert(result[i] == sorted[i - 1]);
                    assert(result[j] == sorted[j - 1]);
                }
            }
        }
    } else {
        let rest = sorted.skip(1);
        let inner = insert_sorted(a, rest);
        lemma_insert_sorted(a, rest);
        assert(result == seq![sorted[0]] + inner);
        assert(result =~= inner.insert(0, sorted[0]));
        vstd::seq_lib::to_multiset_insert(inner, 0, sorted[0]);
        assert(sorted =~= rest.insert(0, sorted[0]));
        vstd::seq_lib::to_multiset_insert(rest, 0, sorted[0]);
        assert(result.to_multiset() =~= sorted.to_multiset().insert(a));
        assert forall|k: int| 0 <= k < result.len() implies (#[trigger] result[k]) == a
            || sorted.contains(result[k]) by {
            if k == 0 {
                assert(sorted[0] == result[0]);
            } else {
                assert(result[k] == inner[k - 1]);
                if inner[k - 1] != a {
                    assert(rest.contains(inner[k - 1]));
                    let w = choose|w: int| 0 <= w < rest.len() && rest[w] == inner[k - 1];
                    assert(sorted[w + 1] == inner[k - 1]);
                }
            }
        }
        if is_sorted(sorted) {
            assert(is_sorted(rest)) by {
                assert forall|i: int, j: int| 0 <= i < j < rest.len() implies (
                #[trigger] rest[i]).anchor <= (#[trigger] rest[j]).anchor by {
                    assert(rest[i] == sorted[i + 1]);
                    assert(rest[j] == sorted[j + 1]);
                }
            }
            assert forall|i: int, j: int| 0 <= i < j < result.len() implies (
            #[trigger] result[i]).anchor <= (#[trigger] result[j]).anchor by {
                assert(result[j] == inner[j - 1]);
                if i == 0 {
                    if inner[j - 1] != a {
                        assert(rest.contains(inner[j - 1]));
                        let w = choose|w: int| 0 <= w < rest.len() && rest[w] == inner[j - 1];
                        assert(sorted[w + 1] == inner[j - 1]);
                        assert(sorted[0].anchor <= sorted[w + 1].anchor);
                    }
                } else {
                    assert(result[i] == inner[i - 1]);
                }
            }
        }
    }
}

/// Sorting keeps every action, as often as it occurs, and puts the anchors
/// in order.
pub proof fn lemma_sort(actions: Seq<ActionView>)
    ensures
        sort_spec(actions).len() == actions.len(),
        sort_spec(actions).to_multiset() == actions.to_multiset(),
        is_sorted(sort_spec(actions)),
    decreases actions.len(),
{
    broadcast use vstd::seq_lib::group_to_multiset_ensures;

    if actions.len() == 0 {
        assert(sort_spec(actions).to_multiset() =~= actions.to_multiset());
    } else {
        let rest = actions.skip(1);
        lemma_sort(rest);
        lemma_insert_sorted(actions[0], sort_spec(rest));
        assert(actions =~= rest.insert(0, actions[0]));
        vstd::seq_lib::to_multiset_insert(rest, 0, actions[0]);
    }
}

/// Actions that are in order stay as they are.
pub proof fn lemma_sort_sorted(actions: Seq<ActionView>)
    requires
        is_sorted(actions),
    ensures
        sort_spec(actions) == actions,
    decreases actions.len(),
{
    if actions.len() > 0 {
        let rest = actions.skip(1);
        assert(is_sorted(rest)) by {
            assert forall|i: int, j: int| 0 <= i < j < rest.len() implies (
            #[trigger] rest[i]).anchor <= (#[trigger] rest[j]).anchor by {
                assert(rest[i] == actions[i + 1]);
                assert(rest[j] == actions[j + 1]);
            }
        }
        lemma_sort_sorted(rest);
        if rest.len() > 0 {
            assert(rest[0] == actions[1]);
            assert(actions[0].anchor <= actions[1].anchor);
        }
        assert(seq![actions[0]] + rest =~= actions);
    }
}

/// The actions in the order of their anchors.
pub fn sort_actions(actions: Vec<Action>) -> (sorted: Vec<Action>)
    ensures
        actions_of(sorted@) == sort_spec(actions_of(actions@)),
{
    let ghost all = actions_of(actions@);
    let mut rest = actions;
    let mut sorted: Vec<Action> = Vec::new();
    assert(all.skip(all.len() as int) =~= Seq::<ActionView>::empty());
    assert(actions_of(sorted@) =~= Seq::<ActionView>::empty());
    while rest.len() > 0
        invariant
            rest.len() <= all.len(),
            actions_of(rest@) == all.take(rest.len() as int),
            actions_of(sorted@) == sort_spec(all.skip(rest.len() as int)),
        decreases rest.len(),
    {
        let ghost before = rest@;
        let ghost done = actions_of(sorted@);
        let a = rest.pop().unwrap();
        let ghost n = rest.len() as int;
        proof {
            assert(actions_of(before)[n] == a@);
            assert(all[n] == a@);
            assert(actions_of(rest@) =~= all.take(n));
            assert(all.skip(n).skip(1) =~= all.skip(n + 1));
            assert(all.skip(n)[0] == a@);
        }
        let mut at: usize = 0;
        assert(done.take(0) =~= Seq::<ActionView>::empty());
        assert(done.skip(0) =~= done);
        assert(Seq::<ActionView>::empty() + insert_sorted(a@, done) =~= insert_sorted(a@, done));
        while at < sorted.len() && sorted[at].anchor < a.anchor
            invariant
                at <= sorted.len(),
                done == actions_of(sorted@),
                insert_sorted(a@, done) == done.take(at as int) + insert_sorted(
                    a@,
                    done.skip(at as int),
                ),
            decreases sorted.len() - at,
        {
            proof {
                let tail = done.skip(at as int);
                assert(tail[0] == sorted@[at as int]@);
                assert(tail.skip(1) =~= done.skip(at + 1));
                assert(done.take(at as int) + (seq![tail[0]] + insert_sorted(a@, tail.skip(1)))
                    =~= done.take(at + 1) + insert_sorted(a@, done.skip(at + 1)));
            }
            at += 1;
        }
        proof {
            let tail = done.skip(at as int);
            if at < sorted.len() {
                assert(tail[0] == sorted@[at as int]@);
            }
            assert(insert_sorted(a@, tail) == seq![a@] + tail);
            assert(done.take(at as int) + (seq![a@] + tail) =~= done.insert(at as int, a@));
            assert(actions_of(sorted@.insert(at as int, a)) =~= done.insert(at as int, a@));
        }
        sorted.insert(at, a);
    }
    assert(all.skip(0) =~= all);
    sorted
}

/// Copies `src[from..to]` to the end of `out`.
fn copy_lines(src: &Vec<String>, from: usize, to: usize, out: &mut Vec<String>)
    requires
        from <= to <= src.len(),
    ensures
        lines_of(final(out)@) == lines_of(old(out)@) + lines_of(src@).subrange(
            from as int,
            to as int,
        ),
{
    let mut k: usize = from;
    assert(lines_of(out@) + lines_of(src@).subrange(from as int, from as int) =~= lines_of(out@));
    while k < to
        invariant
            from <= k <= to <= src.len(),
            lines_of(out@) == lines_of(old(out)@) + lines_of(src@).subrange(from as int, k as int),
        decreases to - k,
    {
        let line = src[k].clone();
        proof {
            lemma_deep_view_push(out@, line);
            assert(lines_of(old(out)@) + lines_of(src@).subrange(from as int, k + 1) =~= (lines_of(
                old(out)@,
            ) + lines_of(src@).subrange(from as int, k as int)).push(line@));
        }
        out.push(line);
        k += 1;
    }
}

/// Runs the actions, in the order given, over the lines `old`.
pub fn apply_actions(old: &Vec<String>, actions: &Vec<Action>) -> (new: Vec<String>)
    ensures
        lines_of(new@) == apply_lines_spec(lines_of(old@), actions_of(actions@)),
{
    let ghost lines = lines_of(old@);
    let ghost all = actions_of(actions@);
    let mut out: Vec<String> = Vec::new();
    let mut pos: usize = 0;
    let mut line: usize = 0;
    let mut cut = false;
    let mut i: usize = 0;
    let ghost mut c = start_cursor();
    assert(lines_of(out@) =~= Seq::<Seq<char>>::empty());
    assert(all.skip(0) =~= all);
    while i < actions.len() && !cut
        invariant
            i <= actions.len(),
            lines == lines_of(old@),
            all == actions_of(actions@),
            pos <= old.len(),
            c.pos == pos,
            c.cut == cut,
            c.out == lines_of(out@),
            line == if c.line > usize::MAX {
                usize::MAX as nat
            } else {
                c.line
            },
            run_spec(lines, start_cursor(), all) == run_spec(lines, c, all.skip(i as int)),
        decreases actions.len() - i,
    {
        let a = &actions[i];
        let ghost av = all[i as int];
        proof {
            assert(av == a@);
            assert(all.skip(i as int)[0] == av);
            assert(all.skip(i as int).skip(1) =~= all.skip(i + 1));
            assert(lines.len() == old.len());
        }
        let want: usize = if a.anchor > line {
            a.anchor - line
        } else {
            0
        };
        assert(want == lines_before(c, av));
        if want > old.len() - pos {
            copy_lines(old, pos, old.len(), &mut out);
            proof {
                assert(lines.skip(pos as int) =~= lines.subrange(pos as int, old.len() as int));
                c = step_spec(lines, c, av);
            }
            pos = old.len();
            cut = true;
        } else {
            let reached: usize = pos + want;
            copy_lines(old, pos, reached, &mut out);
            let ghost copied = lines_of(out@);
            copy_lines(&a.insert, 0, a.insert.len(), &mut out);
            proof {
                assert(lines_of(a.insert@).subrange(0, a.insert.len() as int) =~= av.insert);
                c = step_spec(lines, c, av);
            }
            pos = if a.remove.len() > old.len() - reached {
                old.len()
            } else {
                reached + a.remove.len()
            };
            line = match a.anchor.checked_add(a.insert.len()) {
                Some(sum) => sum,
                None => usize::MAX,
            };
        }
        i += 1;
    }
    proof {
        if i < actions.len() {
            lemma_run_cut(lines, c, all.skip(i as int));
        }
        assert(lines.skip(pos as int) =~= lines.subrange(pos as int, old.len() as int));
    }
    copy_lines(old, pos, old.len(), &mut out);
    out
}

/// After the old lines have run out, no action changes the cursor.
pub proof fn lemma_run_cut(old: Seq<Seq<char>>, c: Cursor, actions: Seq<ActionView>)
    requires
        c.cut,
    ensures
        run_spec(old, c, actions) == c,
    decreases actions.len(),
{
    if actions.len() > 0 {
        lemma_run_cut(old, c, actions.skip(1));
    }
}

/// Applies a file's hunks to its text.
pub fn apply(old_text: &str, hunks: &Vec<PatchFileHunk>) -> (new_text: String)
    ensures
        new_text@ == apply_text_spec(old_text@, hunks_of(hunks@)),
{
    let old = split_lines(old_text);
    let actions = sort_actions(decode_all(hunks));
    let new = apply_actions(&old, &actions);
    join_lines(&new, ends_with_newline(old_text))
}

impl PatchFile {
    /// Applies the file's edits to its text.
    pub fn apply(&self, old_text: &str) -> (new_text: String)
        ensures
            new_text@ == apply_text_spec(old_text@, self@.hunks),
    {
        apply(old_text, &self.hunks)
    }
}

/// What applying a patch gives: for each file of the patch, in its order,
/// the path and the text that the file's edits make of its old text.
pub open spec fn apply_patch_spec(
    patch: Seq<(Seq<char>, PatchFileView)>,
    old_texts: Seq<Seq<char>>,
) -> Seq<(Seq<char>, Seq<char>)> {
    Seq::new(patch.len(), |i: int| (patch[i].0, apply_text_spec(old_texts[i], patch[i].1.hunks)))
}

/// Applies a patch: `old_texts[i]` is the text of the `i`-th file of the
/// patch, and what comes back is each file's path with its new text.
pub fn apply_patch(patch: &Patch, old_texts: &Vec<String>) -> (written: Vec<(String, String)>)
    requires
        old_texts.len() == patch.files.len(),
    ensures
        written@.map_values(|e: (String, String)| (e.0@, e.1@)) == apply_patch_spec(
            patch@,
            lines_of(old_texts@),
        ),
{
    let ghost all = apply_patch_spec(patch@, lines_of(old_texts@));
    let ghost view = |e: (String, String)| (e.0@, e.1@);
    let mut written: Vec<(String, String)> = Vec::new();
    let mut i: usize = 0;
    assert(written@.map_values(view) =~= all.take(0));
    while i < patch.files.len()
        invariant
            i <= patch.files.len(),
            old_texts.len() == patch.files.len(),
            all == apply_patch_spec(patch@, lines_of(old_texts@)),
            view == |e: (String, String)| (e.0@, e.1@),
            written@.map_values(view) == all.take(i as int),
        decreases patch.files.len() - i,
    {
        let entry = &patch.files[i];
        let path = entry.0.clone();
        let text = entry.1.apply(old_texts[i].as_str());
        proof {
            assert(patch@[i as int] == (entry.0@, entry.1@));
            assert(lines_of(old_texts@)[i as int] == old_texts@[i as int]@);
            assert(written@.push((path, text)).map_values(view) =~= written@.map_values(
                view,
            ).push((path@, text@)));
            assert(all.take(i + 1) =~= all.take(i as int).push((path@, text@)));
        }
        written.push((path, text));
        i += 1;
    }
    assert(all.take(i as int) =~= all);
    written
}

/// A text to which no hunk is applied stays as it is.
pub proof fn lemma_apply_nothing(text: Seq<char>)
    ensures
        apply_text_spec(text, Seq::<HunkView>::empty()) == text,
{
    let lines = split_lines_spec(text);
    assert(decode_all_spec(Seq::<HunkView>::empty()) =~= Seq::<ActionView>::empty());
    assert(sort_spec(Seq::<ActionView>::empty()) =~= Seq::<ActionView>::empty());
    assert(lines.skip(0) =~= lines);
    assert(Seq::<Seq<char>>::empty() + lines =~= lines);
    crate::text::lemma_unsplit_split(text);
}

} // verus!
