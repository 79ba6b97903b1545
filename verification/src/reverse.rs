//! Turning a patch round.
//!
//! The reverse of a hunk undoes it: what it removed comes, what it brought
//! leaves, and its two ranges change places, so that the reversed hunk begins
//! where the hunk began in the text before the edit.

use crate::patch::{
    decode_spec, has_mark, hunks_of, in_order, marked, ActionView, HunkView, Patch, PatchFile,
    PatchFileHunk, PatchFileView,
};
use crate::text::{
    all_lines, is_line, join_lines, join_lines_spec, lemma_deep_view_push, lemma_split_gives_lines,
    lemma_split_join, lines_of, push_char, split_lines, split_lines_spec, to_chars,
};
use vstd::prelude::*;

verus! {

/// The entry with `+` for `-` and `-` for `+`; an entry with neither stays.
pub open spec fn swap_mark_spec(entry: Seq<char>) -> Seq<char> {
    if has_mark(entry, '+') {
        seq!['-'] + entry.skip(1)
    } else if has_mark(entry, '-') {
        seq!['+'] + entry.skip(1)
    } else {
        entry
    }
}

/// Each entry with its mark swapped.
pub open spec fn swap_marks_spec(entries: Seq<Seq<char>>) -> Seq<Seq<char>> {
    Seq::new(entries.len(), |i: int| swap_mark_spec(entries[i]))
}

/// The payload with the mark of each entry swapped, the entries joined by
/// newlines.
pub open spec fn reverse_payload_spec(diff: Seq<char>) -> Seq<char> {
    join_lines_spec(swap_marks_spec(split_lines_spec(diff)))
}

/// The reverse of a hunk.
pub open spec fn reverse_hunk_spec(h: HunkView) -> HunkView {
    HunkView {
        old_range: h.new_range,
        new_range: h.old_range,
        diff: reverse_payload_spec(h.diff),
    }
}

/// The reverse of each hunk, in the order given.
pub open spec fn reverse_hunks_spec(hunks: Seq<HunkView>) -> Seq<HunkView> {
    Seq::new(hunks.len(), |i: int| reverse_hunk_spec(hunks[i]))
}

/// The reverse of a file's edits. The two hashes stay as they are.
pub open spec fn reverse_file_spec(f: PatchFileView) -> PatchFileView {
    PatchFileView {
        pre_hash: f.pre_hash,
        post_hash: f.post_hash,
        hunks: reverse_hunks_spec(f.hunks),
    }
}

/// The reverse of a patch: each file's edits reversed, under the same path.
pub open spec fn reverse_patch_spec(p: Seq<(Seq<char>, PatchFileView)>) -> Seq<
    (Seq<char>, PatchFileView),
> {
    Seq::new(p.len(), |i: int| (p[i].0, reverse_file_spec(p[i].1)))
}

/// What carried one mark carries the other after the swap.
pub proof fn lemma_marked_swapped(entries: Seq<Seq<char>>)
    ensures
        marked(swap_marks_spec(entries), '-') == marked(entries, '+'),
        marked(swap_marks_spec(entries), '+') == marked(entries, '-'),
    decreases entries.len(),
{
    let swapped = swap_marks_spec(entries);
    if entries.len() > 0 {
        lemma_marked_swapped(entries.drop_last());
        assert(swapped.drop_last() =~= swap_marks_spec(entries.drop_last()));
        let e = entries.last();
        assert(swapped.last() == swap_mark_spec(e));
        if has_mark(e, '+') {
            assert(swap_mark_spec(e).skip(1) =~= e.skip(1));
        } else if has_mark(e, '-') {
            assert(swap_mark_spec(e).skip(1) =~= e.skip(1));
        }
    }
}

/// Dropping an empty last entry changes nothing that `marked` finds.
pub proof fn lemma_marked_drop_empty(entries: Seq<Seq<char>>, mark: char)
    requires
        entries.len() > 0,
        entries.last().len() == 0,
    ensures
        marked(entries.drop_last(), mark) == marked(entries, mark),
{
}

/// Swapping marks keeps lines lines.
pub proof fn lemma_swap_keeps_lines(entries: Seq<Seq<char>>)
    requires
        all_lines(entries),
    ensures
        all_lines(swap_marks_spec(entries)),
{
    let swapped = swap_marks_spec(entries);
    assert forall|i: int| 0 <= i < swapped.len() implies is_line(#[trigger] swapped[i]) by {
        let e = entries[i];
        assert(is_line(e));
        let s = swap_mark_spec(e);
        assert forall|k: int| 0 <= k < s.len() implies s[k] != '\n' by {
            if has_mark(e, '+') || has_mark(e, '-') {
                if k > 0 {
                    assert(s[k] == e[k]);
                }
            }
        }
    }
}

/// The reverse of a hunk decodes to the hunk's action turned round: it
/// begins at the start of the hunk's old range, what the hunk brought leaves,
/// and what it removed comes.
pub proof fn lemma_decode_reverse(h: HunkView)
    ensures
        decode_spec(reverse_hunk_spec(h)) == (ActionView {
            anchor: h.old_range.0,
            remove: decode_spec(h).insert,
            insert: decode_spec(h).remove,
        }),
{
    let entries = split_lines_spec(h.diff);
    let swapped = swap_marks_spec(entries);
    lemma_split_gives_lines(h.diff);
    lemma_swap_keeps_lines(entries);
    lemma_split_join(swapped);
    lemma_marked_swapped(entries);
    if swapped.len() > 0 && swapped.last().len() == 0 {
        lemma_marked_drop_empty(swapped, '-');
        lemma_marked_drop_empty(swapped, '+');
    }
}

/// The reverse of hunks that stand in order stands in order.
pub proof fn lemma_reverse_in_order(hunks: Seq<HunkView>)
    requires
        in_order(hunks),
    ensures
        in_order(reverse_hunks_spec(hunks)),
{
    let reversed = reverse_hunks_spec(hunks);
    assert forall|i: int, j: int| 0 <= i < j < reversed.len() implies (
    #[trigger] reversed[i]).old_range.0 < (#[trigger] reversed[j]).old_range.0
        && reversed[i].new_range.0 < reversed[j].new_range.0 by {
        assert(hunks[i].old_range.0 < hunks[j].old_range.0);
    }
}

/// The reverse of a patch keeps its paths, and with them that no path occurs
/// twice; and the edits of each file stay in order.
pub proof fn lemma_reverse_patch(p: Seq<(Seq<char>, PatchFileView)>)
    ensures
        crate::index::keys_distinct(p) ==> crate::index::keys_distinct(reverse_patch_spec(p)),
        (forall|i: int| 0 <= i < p.len() ==> in_order((#[trigger] p[i]).1.hunks)) ==> (forall|i: int|
            0 <= i < p.len() ==> in_order((#[trigger] reverse_patch_spec(p)[i]).1.hunks)),
{
    let r = reverse_patch_spec(p);
    if crate::index::keys_distinct(p) {
        assert forall|i: int, j: int| 0 <= i < j < r.len() implies (#[trigger] r[i]).0 != (
        #[trigger] r[j]).0 by {
            assert(p[i].0 != p[j].0);
        }
    }
    if forall|i: int| 0 <= i < p.len() ==> in_order((#[trigger] p[i]).1.hunks) {
        assert forall|i: int| 0 <= i < p.len() implies in_order((#[trigger] r[i]).1.hunks) by {
            assert(in_order(p[i].1.hunks));
            lemma_reverse_in_order(p[i].1.hunks);
        }
    }
}

/// The entry with its mark swapped.
fn swap_mark(entry: &str) -> (swapped: String)
    ensures
        swapped@ == swap_mark_spec(entry@),
{
    let chars = to_chars(entry);
    let mut swapped = String::new();
    let mut from: usize = 0;
    if chars.len() > 0 && chars[0] == '+' {
        push_char(&mut swapped, '-');
        from = 1;
    } else if chars.len() > 0 && chars[0] == '-' {
        push_char(&mut swapped, '+');
        from = 1;
    }
    let ghost head = swapped@;
    let mut k: usize = from;
    assert(head + chars@.subrange(from as int, from as int) =~= head);
    while k < chars.len()
        invariant
            from <= k <= chars.len(),
            swapped@ == head + chars@.subrange(from as int, k as int),
        decreases chars.len() - k,
    {
        push_char(&mut swapped, chars[k]);
        k += 1;
        assert(swapped@ =~= head + chars@.subrange(from as int, k as int));
    }
    proof {
        assert(chars@.subrange(from as int, chars.len() as int) =~= entry@.skip(from as int));
        assert(entry@.skip(0) =~= entry@);
        assert(Seq::<char>::empty() + entry@ =~= entry@);
    }
    swapped
}

/// The payload with the mark of each entry swapped.
pub fn reverse_payload(diff: &str) -> (reversed: String)
    ensures
        reversed@ == reverse_payload_spec(diff@),
{
    let entries = split_lines(diff);
    let mut swapped: Vec<String> = Vec::new();
    let mut i: usize = 0;
    let ghost all = swap_marks_spec(lines_of(entries@));
    assert(lines_of(swapped@) =~= all.take(0));
    while i < entries.len()
        invariant
            i <= entries.len(),
            all == swap_marks_spec(lines_of(entries@)),
            lines_of(swapped@) == all.take(i as int),
        decreases entries.len() - i,
    {
        let s = swap_mark(entries[i].as_str());
        proof {
            lemma_deep_view_push(swapped@, s);
            assert(all.take(i + 1) =~= all.take(i as int).push(s@));
        }
        swapped.push(s);
        i += 1;
    }
    assert(all.take(i as int) =~= all);
    join_lines(&swapped, false)
}

impl PatchFileHunk {
    /// The reverse of the hunk.
    pub fn reverse(&self) -> (reversed: PatchFileHunk)
        ensures
            reversed@ == reverse_hunk_spec(self@),
    {
        PatchFileHunk {
            old_range: (self.new_range.0, self.new_range.1),
            new_range: (self.old_range.0, self.old_range.1),
            diff: reverse_payload(self.diff.as_str()),
        }
    }
}

/// The reverse of each hunk, in the order given.
pub fn reverse_hunks(hunks: &Vec<PatchFileHunk>) -> (reversed: Vec<PatchFileHunk>)
    ensures
        hunks_of(reversed@) == reverse_hunks_spec(hunks_of(hunks@)),
        in_order(hunks_of(hunks@)) ==> in_order(hunks_of(reversed@)),
{
    proof {
        if in_order(hunks_of(hunks@)) {
            lemma_reverse_in_order(hunks_of(hunks@));
        }
    }
    let mut reversed: Vec<PatchFileHunk> = Vec::new();
    let mut i: usize = 0;
    let ghost all = reverse_hunks_spec(hunks_of(hunks@));
    assert(hunks_of(reversed@) =~= all.take(0));
    while i < hunks.len()
        invariant
            i <= hunks.len(),
            all == reverse_hunks_spec(hunks_of(hunks@)),
            hunks_of(reversed@) == all.take(i as int),
        decreases hunks.len() - i,
    {
        let r = hunks[i].reverse();
        proof {
            assert(hunks_of(reversed@.push(r)) =~= hunks_of(reversed@).push(r@));
            assert(all.take(i + 1) =~= all.take(i as int).push(r@));
        }
        reversed.push(r);
        i += 1;
    }
    assert(all.take(i as int) =~= all);
    reversed
}

impl PatchFile {
    /// The reverse of the file's edits.
    pub fn reverse(&self) -> (reversed: PatchFile)
        ensures
            reversed@ == reverse_file_spec(self@),
            self.in_order() ==> reversed.in_order(),
    {
        PatchFile {
            pre_hash: self.pre_hash.clone(),
            post_hash: self.post_hash.clone(),
            hunks: reverse_hunks(&self.hunks),
        }
    }
}

/// The reverse of a patch.
pub fn reverse(patch: &Patch) -> (reversed: Patch)
    ensures
        reversed@ == reverse_patch_spec(patch@),
        patch.wf() ==> reversed.wf(),
        patch.in_order() ==> reversed.in_order(),
{
    proof {
        lemma_reverse_patch(patch@);
    }
    let mut files: Vec<(String, PatchFile)> = Vec::new();
    let mut i: usize = 0;
    let ghost all = reverse_patch_spec(patch@);
    let ghost view = |e: (String, PatchFile)| (e.0@, e.1@);
    assert(files@.map_values(view) =~= all.take(0));
    while i < patch.files.len()
        invariant
            i <= patch.files.len(),
            all == reverse_patch_spec(patch@),
            view == |e: (String, PatchFile)| (e.0@, e.1@),
            files@.map_values(view) == all.take(i as int),
        decreases patch.files.len() - i,
    {
        let entry = &patch.files[i];
        let path = entry.0.clone();
        let file = entry.1.reverse();
        proof {
            assert(patch@[i as int] == (entry.0@, entry.1@));
            assert(files@.push((path, file)).map_values(view) =~= files@.map_values(view).push(
                (path@, file@),
            ));
            assert(all.take(i + 1) =~= all.take(i as int).push((path@, file@)));
        }
        files.push((path, file));
        i += 1;
    }
    assert(all.take(i as int) =~= all);
    Patch { files }
}

} // verus!
