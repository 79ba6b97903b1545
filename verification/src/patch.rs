//! The patch format and its decoded form.
//!
//! A patch names files; for each file it holds hunks. A hunk is one edit:
//! the line at which it begins, counted in the text as it is after the edit,
//! and a payload of marked lines, `-` for a line that leaves and `+` for one
//! that comes. Decoding a hunk gives an [`Action`].

use crate::text::{
    all_lines, is_line, lemma_deep_view_push, lemma_split_terminated, lines_of, split_lines,
    split_lines_spec, string_from, terminated_spec, to_chars,
};
use crate::hash::same_text;
use crate::index::{has_key, key_index, keys_distinct, lemma_put, put_spec};
use vstd::prelude::*;

verus! {

/// One edit of a file, as the patch format holds it.
#[derive(Debug)]
pub struct PatchFileHunk {
    /// The lines that the edit replaces, as `(start, end)` in the text
    /// before the edit.
    pub old_range: (usize, usize),
    /// The lines that the edit puts there, as `(start, end)` in the text
    /// after the edit. Its start is the hunk's anchor.
    pub new_range: (usize, usize),
    /// The payload: the lines that leave, each behind `-`, and the lines
    /// that come, each behind `+`.
    pub diff: String,
}

/// The edits of one file.
#[derive(Debug)]
pub struct PatchFile {
    /// The hash of the stored copy the patch was made from.
    pub pre_hash: String,
    /// The hash of the working copy the patch was made from.
    pub post_hash: String,
    /// The edits. Those that a comparison made stand in the order of the
    /// lines at which they begin; edits in another order are put in order
    /// before they are applied.
    pub hunks: Vec<PatchFileHunk>,
}

/// Edits of files, by path.
#[derive(Debug)]
pub struct Patch {
    /// Each path with its edits. No path occurs twice.
    pub files: Vec<(String, PatchFile)>,
}

/// A decoded hunk.
#[derive(Debug)]
pub struct Action {
    /// The line at which the edit begins, in the text after the edit.
    pub anchor: usize,
    /// The lines that leave.
    pub remove: Vec<String>,
    /// The lines that come.
    pub insert: Vec<String>,
}

/// What a [`PatchFileHunk`] stands for.
pub struct HunkView {
    pub old_range: (nat, nat),
    pub new_range: (nat, nat),
    pub diff: Seq<char>,
}

/// What a [`PatchFile`] stands for.
pub struct PatchFileView {
    pub pre_hash: Seq<char>,
    pub post_hash: Seq<char>,
    pub hunks: Seq<HunkView>,
}

/// What an [`Action`] stands for.
pub struct ActionView {
    pub anchor: nat,
    pub remove: Seq<Seq<char>>,
    pub insert: Seq<Seq<char>>,
}

impl View for PatchFileHunk {
    type V = HunkView;

    open spec fn view(&self) -> HunkView {
        HunkView {
            old_range: (self.old_range.0 as nat, self.old_range.1 as nat),
            new_range: (self.new_range.0 as nat, self.new_range.1 as nat),
            diff: self.diff@,
        }
    }
}

impl View for PatchFile {
    type V = PatchFileView;

    open spec fn view(&self) -> PatchFileView {
        PatchFileView {
            pre_hash: self.pre_hash@,
            post_hash: self.post_hash@,
            hunks: hunks_of(self.hunks@),
        }
    }
}

impl View for Patch {
    type V = Seq<(Seq<char>, PatchFileView)>;

    open spec fn view(&self) -> Seq<(Seq<char>, PatchFileView)> {
        self.files@.map_values(|e: (String, PatchFile)| (e.0@, e.1@))
    }
}

impl View for Action {
    type V = ActionView;

    open spec fn view(&self) -> ActionView {
        ActionView {
            anchor: self.anchor as nat,
            remove: lines_of(self.remove@),
            insert: lines_of(self.insert@),
        }
    }
}

/// What a vector of hunks stands for.
pub open spec fn hunks_of(v: Seq<PatchFileHunk>) -> Seq<HunkView> {
    v.map_values(|h: PatchFileHunk| h@)
}

/// What a vector of actions stands for.
pub open spec fn actions_of(v: Seq<Action>) -> Seq<ActionView> {
    v.map_values(|a: Action| a@)
}

/// Whether each hunk begins after the one before it, in the text before the
/// edits and in the text after them.
pub open spec fn in_order(hunks: Seq<HunkView>) -> bool {
    forall|i: int, j: int|
        0 <= i < j < hunks.len() ==> (#[trigger] hunks[i]).old_range.0 < (
        #[trigger] hunks[j]).old_range.0 && hunks[i].new_range.0 < hunks[j].new_range.0
}

/// Whether a payload entry carries `mark`.
pub open spec fn has_mark(entry: Seq<char>, mark: char) -> bool {
    entry.len() > 0 && entry[0] == mark
}

/// The entries that carry `mark`, in order, each without it.
pub open spec fn marked(entries: Seq<Seq<char>>, mark: char) -> Seq<Seq<char>>
    decreases entries.len(),
{
    if entries.len() == 0 {
        Seq::empty()
    } else {
        let before = marked(entries.drop_last(), mark);
        if has_mark(entries.last(), mark) {
            before.push(entries.last().skip(1))
        } else {
            before
        }
    }
}

/// Each line behind `mark`.
pub open spec fn with_mark(lines: Seq<Seq<char>>, mark: char) -> Seq<Seq<char>> {
    Seq::new(lines.len(), |i: int| seq![mark] + lines[i])
}

/// The entries of the payload that says: `remove` leaves, `insert` comes.
pub open spec fn payload_entries(remove: Seq<Seq<char>>, insert: Seq<Seq<char>>) -> Seq<
    Seq<char>,
> {
    with_mark(remove, '-') + with_mark(insert, '+')
}

/// The payload that says: `remove` leaves, `insert` comes. Every entry ends
/// in a newline.
pub open spec fn payload_spec(remove: Seq<Seq<char>>, insert: Seq<Seq<char>>) -> Seq<char> {
    terminated_spec(payload_entries(remove, insert))
}

/// The hunk that turns `old[os..oe]` into `new[ns..ne]`.
pub open spec fn make_hunk(
    old: Seq<Seq<char>>,
    new: Seq<Seq<char>>,
    os: nat,
    oe: nat,
    ns: nat,
    ne: nat,
) -> HunkView {
    HunkView {
        old_range: (os, oe),
        new_range: (ns, ne),
        diff: payload_spec(old.subrange(os as int, oe as int), new.subrange(ns as int, ne as int)),
    }
}

/// The action that a hunk encodes: it begins at the start of the hunk's new
/// range, the `-` entries of the payload leave and its `+` entries come.
/// Entries with neither mark say nothing.
pub open spec fn decode_spec(h: HunkView) -> ActionView {
    ActionView {
        anchor: h.new_range.0,
        remove: marked(split_lines_spec(h.diff), '-'),
        insert: marked(split_lines_spec(h.diff), '+'),
    }
}

/// Each hunk decoded, in the order given.
pub open spec fn decode_all_spec(hunks: Seq<HunkView>) -> Seq<ActionView> {
    hunks.map_values(|h: HunkView| decode_spec(h))
}

/// `marked` goes through a concatenation.
pub proof fn lemma_marked_add(a: Seq<Seq<char>>, b: Seq<Seq<char>>, mark: char)
    ensures
        marked(a + b, mark) == marked(a, mark) + marked(b, mark),
    decreases b.len(),
{
    if b.len() == 0 {
        assert(a + b =~= a);
        assert(marked(a, mark) + marked(b, mark) =~= marked(a, mark));
    } else {
        lemma_marked_add(a, b.drop_last(), mark);
        assert((a + b).drop_last() =~= a + b.drop_last());
        assert((a + b).last() == b.last());
        if has_mark(b.last(), mark) {
            assert(marked(a + b, mark) =~= marked(a, mark) + marked(b, mark));
        }
    }
}

/// Of lines behind one mark, `marked` finds all under that mark and none
/// under another.
pub proof fn lemma_marked_with_mark(lines: Seq<Seq<char>>, mark: char, other: char)
    ensures
        marked(with_mark(lines, mark), mark) == lines,
        other != mark ==> marked(with_mark(lines, mark), other) == Seq::<Seq<char>>::empty(),
    decreases lines.len(),
{
    let entries = with_mark(lines, mark);
    if lines.len() > 0 {
        lemma_marked_with_mark(lines.drop_last(), mark, other);
        assert(entries.drop_last() =~= with_mark(lines.drop_last(), mark));
        assert(entries.last() == seq![mark] + lines.last());
        assert(entries.last().skip(1) =~= lines.last());
        assert(lines.drop_last().push(lines.last()) =~= lines);
    }
}

/// A payload gives back what it was made of.
pub proof fn lemma_decode_payload(remove: Seq<Seq<char>>, insert: Seq<Seq<char>>)
    requires
        all_lines(remove),
        all_lines(insert),
    ensures
        marked(split_lines_spec(payload_spec(remove, insert)), '-') == remove,
        marked(split_lines_spec(payload_spec(remove, insert)), '+') == insert,
{
    let entries = payload_entries(remove, insert);
    assert(all_lines(entries)) by {
        assert forall|i: int| 0 <= i < entries.len() implies is_line(#[trigger] entries[i]) by {
            if i < remove.len() {
                assert(is_line(remove[i]));
                assert(entries[i] == seq!['-'] + remove[i]);
            } else {
                assert(is_line(insert[i - remove.len()]));
                assert(entries[i] == seq!['+'] + insert[i - remove.len()]);
            }
        }
    }
    lemma_split_terminated(entries);
    lemma_marked_add(with_mark(remove, '-'), with_mark(insert, '+'), '-');
    lemma_marked_add(with_mark(remove, '-'), with_mark(insert, '+'), '+');
    lemma_marked_with_mark(remove, '-', '+');
    lemma_marked_with_mark(insert, '+', '-');
    assert(remove + Seq::<Seq<char>>::empty() =~= remove);
    assert(Seq::<Seq<char>>::empty() + insert =~= insert);
}

/// What `marked` finds are lines, where the entries are.
pub proof fn lemma_marked_lines(entries: Seq<Seq<char>>, mark: char)
    requires
        all_lines(entries),
    ensures
        all_lines(marked(entries, mark)),
    decreases entries.len(),
{
    if entries.len() > 0 {
        let before = entries.drop_last();
        assert(all_lines(before)) by {
            assert forall|i: int| 0 <= i < before.len() implies is_line(#[trigger] before[i]) by {
                assert(before[i] == entries[i]);
            }
        }
        lemma_marked_lines(before, mark);
        assert(is_line(entries.last()));
    }
}

/// The entries of `entries` that carry `mark`, each without it.
fn pick_marked(entries: &Vec<String>, mark: char) -> (lines: Vec<String>)
    ensures
        lines_of(lines@) == marked(lines_of(entries@), mark),
{
    let mut lines: Vec<String> = Vec::new();
    let mut i: usize = 0;
    assert(lines_of(entries@).take(0) =~= Seq::<Seq<char>>::empty());
    assert(lines_of(lines@) =~= Seq::<Seq<char>>::empty());
    while i < entries.len()
        invariant
            i <= entries.len(),
            lines_of(lines@) == marked(lines_of(entries@).take(i as int), mark),
        decreases entries.len() - i,
    {
        let chars = to_chars(entries[i].as_str());
        proof {
            let upto = lines_of(entries@).take(i + 1);
            assert(upto.drop_last() =~= lines_of(entries@).take(i as int));
            assert(upto.last() == entries@[i as int]@);
        }
        if chars.len() > 0 && chars[0] == mark {
            let line = string_from(&chars, 1, chars.len());
            proof {
                assert(line@ =~= entries@[i as int]@.skip(1));
                lemma_deep_view_push(lines@, line);
            }
            lines.push(line);
        }
        i += 1;
    }
    assert(lines_of(entries@).take(i as int) =~= lines_of(entries@));
    lines
}

impl Clone for PatchFileHunk {
    fn clone(&self) -> (copy: Self)
        ensures
            copy@ == self@,
    {
        PatchFileHunk {
            old_range: (self.old_range.0, self.old_range.1),
            new_range: (self.new_range.0, self.new_range.1),
            diff: self.diff.clone(),
        }
    }
}

impl PatchFile {
    /// Whether the edits stand in the order of the lines at which they begin.
    pub open spec fn in_order(&self) -> bool {
        in_order(self@.hunks)
    }
}

impl PatchFileHunk {
    /// Decodes the hunk.
    pub fn decode(&self) -> (action: Action)
        ensures
            action@ == decode_spec(self@),
            all_lines(action@.remove),
            all_lines(action@.insert),
    {
        let entries = split_lines(self.diff.as_str());
        let remove = pick_marked(&entries, '-');
        let insert = pick_marked(&entries, '+');
        proof {
            lemma_marked_lines(lines_of(entries@), '-');
            lemma_marked_lines(lines_of(entries@), '+');
        }
        Action { anchor: self.new_range.0, remove, insert }
    }
}

/// Decodes each hunk, in the order given.
pub fn decode_all(hunks: &Vec<PatchFileHunk>) -> (actions: Vec<Action>)
    ensures
        actions_of(actions@) == decode_all_spec(hunks_of(hunks@)),
{
    let mut actions: Vec<Action> = Vec::new();
    let mut i: usize = 0;
    while i < hunks.len()
        invariant
            i <= hunks.len(),
            actions_of(actions@) == decode_all_spec(hunks_of(hunks@)).take(i as int),
        decreases hunks.len() - i,
    {
        let action = hunks[i].decode();
        proof {
            let all = decode_all_spec(hunks_of(hunks@));
            assert(all[i as int] == decode_spec(hunks@[i as int]@));
            assert(all.take(i + 1) =~= all.take(i as int).push(all[i as int]));
            assert(actions_of(actions@.push(action)) =~= actions_of(actions@).push(action@));
        }
        actions.push(action);
        i += 1;
    }
    assert(decode_all_spec(hunks_of(hunks@)).take(i as int) =~= decode_all_spec(hunks_of(hunks@)));
    actions
}

/// The place of `key` among the paths of `files`, if it is there.
fn find_file(files: &Vec<(String, PatchFile)>, key: &str) -> (found: Option<usize>)
    ensures
        found is Some == has_key(files@.map_values(|e: (String, PatchFile)| (e.0@, e.1@)), key@),
        found matches Some(i) ==> i < files.len() && files@[i as int].0@ == key@,
{
    let ghost pairs = files@.map_values(|e: (String, PatchFile)| (e.0@, e.1@));
    let mut i: usize = 0;
    while i < files.len()
        invariant
            i <= files.len(),
            pairs == files@.map_values(|e: (String, PatchFile)| (e.0@, e.1@)),
            forall|k: int| 0 <= k < i ==> (#[trigger] pairs[k]).0 != key@,
        decreases files.len() - i,
    {
        assert(pairs[i as int].0 == files@[i as int].0@);
        if same_text(files[i].0.as_str(), key) {
            return Some(i);
        }
        i += 1;
    }
    None
}

/// Putting edits that are in order into a patch whose edits are keeps them
/// so.
pub proof fn lemma_put_in_order(
    patch: Seq<(Seq<char>, PatchFileView)>,
    path: Seq<char>,
    file: PatchFileView,
)
    requires
        forall|i: int| 0 <= i < patch.len() ==> in_order((#[trigger] patch[i]).1.hunks),
        in_order(file.hunks),
    ensures
        forall|i: int|
            0 <= i < put_spec(patch, path, file).len() ==> in_order(
                (#[trigger] put_spec(patch, path, file)[i]).1.hunks,
            ),
{
    let after = put_spec(patch, path, file);
    assert forall|i: int| 0 <= i < after.len() implies in_order((#[trigger] after[i]).1.hunks) by {
        if after[i] != (path, file) {
            assert(after[i] == patch[i]);
        }
    }
}

impl Patch {
    /// Whether no path occurs twice.
    pub open spec fn wf(&self) -> bool {
        keys_distinct(self@)
    }

    /// Whether the edits of each file stand in the order of the lines at
    /// which they begin.
    pub open spec fn in_order(&self) -> bool {
        forall|i: int| 0 <= i < self@.len() ==> in_order((#[trigger] self@[i]).1.hunks)
    }

    /// The patch that edits no file.
    pub fn new() -> (patch: Patch)
        ensures
            patch@ == Seq::<(Seq<char>, PatchFileView)>::empty(),
            patch.wf(),
            patch.in_order(),
    {
        let patch = Patch { files: Vec::new() };
        assert(patch@ =~= Seq::<(Seq<char>, PatchFileView)>::empty());
        patch
    }

    /// Puts the edits `file` under `path`, in the place of earlier edits of
    /// that path or as a new entry.
    pub fn put(&mut self, path: String, file: PatchFile)
        requires
            old(self).wf(),
        ensures
            final(self).wf(),
            final(self)@ == put_spec(old(self)@, path@, file@),
            old(self).in_order() && file.in_order() ==> final(self).in_order(),
    {
        let ghost before = self@;
        proof {
            lemma_put(before, path@, file@);
            if self.in_order() && file.in_order() {
                lemma_put_in_order(before, path@, file@);
            }
        }
        match find_file(&self.files, path.as_str()) {
            Some(i) => {
                proof {
                    let at = key_index(before, path@);
                    assert(before[i as int].0 == self.files@[i as int].0@);
                    assert(at == i) by {
                        if at < i {
                            assert(before[at].0 != before[i as int].0);
                        } else if i < at {
                            assert(before[i as int].0 != before[at].0);
                        }
                    }
                    assert(self.files@.update(i as int, (path, file)).map_values(
                        |e: (String, PatchFile)| (e.0@, e.1@),
                    ) =~= before.update(i as int, (path@, file@)));
                }
                self.files.set(i, (path, file));
            },
            None => {
                proof {
                    assert(self.files@.push((path, file)).map_values(
                        |e: (String, PatchFile)| (e.0@, e.1@),
                    ) =~= before.push((path@, file@)));
                }
                self.files.push((path, file));
            },
        }
    }
}

} // verus!
