//! Making hunks from two texts.
//!
//! The lines of the two texts are compared by the `similar` crate, which
//! answers with an edit script: a list of operations, each over a range of
//! old lines and a range of new lines. The script is checked here, and each
//! run of changes between two unchanged stretches becomes one hunk.

use crate::hash::{same_text, text_hash, text_hash_spec};
use crate::index::put_spec;
use crate::patch::{
    hunks_of, in_order, make_hunk, payload_spec, HunkView, Patch, PatchFile, PatchFileHunk,
    PatchFileView,
};
use crate::text::{
    lemma_terminated_push, lines_of, push_char, split_lines, split_lines_spec, terminated_spec,
};
use similar::{DiffOp, TextDiff};
use vstd::prelude::*;

verus! {

/// One operation of an edit script.
#[derive(Debug, Clone, Copy)]
pub enum EditOp {
    /// `len` old lines from `old_index` are the `len` new lines from
    /// `new_index`.
    Equal { old_index: usize, new_index: usize, len: usize },
    /// `old_len` old lines from `old_index` leave. Where the new text
    /// stands then follows from the operations before; `new_index` is
    /// carried along and not relied on.
    Delete { old_index: usize, old_len: usize, new_index: usize },
    /// `new_len` new lines from `new_index` come. Where the old text
    /// stands then follows from the operations before; `old_index` is
    /// carried along and not relied on.
    Insert { old_index: usize, new_index: usize, new_len: usize },
    /// `old_len` old lines from `old_index` give way to `new_len` new lines
    /// from `new_index`.
    Replace { old_index: usize, old_len: usize, new_index: usize, new_len: usize },
}

impl EditOp {
    /// Where the operation begins in the old lines.
    pub open spec fn old_start(self) -> nat {
        match self {
            EditOp::Equal { old_index, .. } => old_index as nat,
            EditOp::Delete { old_index, .. } => old_index as nat,
            EditOp::Insert { old_index, .. } => old_index as nat,
            EditOp::Replace { old_index, .. } => old_index as nat,
        }
    }

    /// Where the operation begins in the new lines.
    pub open spec fn new_start(self) -> nat {
        match self {
            EditOp::Equal { new_index, .. } => new_index as nat,
            EditOp::Delete { new_index, .. } => new_index as nat,
            EditOp::Insert { new_index, .. } => new_index as nat,
            EditOp::Replace { new_index, .. } => new_index as nat,
        }
    }

    /// How many old lines the operation covers.
    pub open spec fn old_len(self) -> nat {
        match self {
            EditOp::Equal { len, .. } => len as nat,
            EditOp::Delete { old_len, .. } => old_len as nat,
            EditOp::Insert { .. } => 0,
            EditOp::Replace { old_len, .. } => old_len as nat,
        }
    }

    /// How many new lines the operation covers.
    pub open spec fn new_len(self) -> nat {
        match self {
            EditOp::Equal { len, .. } => len as nat,
            EditOp::Delete { .. } => 0,
            EditOp::Insert { new_len, .. } => new_len as nat,
            EditOp::Replace { new_len, .. } => new_len as nat,
        }
    }

    /// Whether the operation keeps lines: `Equal`, over one line at least.
    pub open spec fn keeps(self) -> bool {
        self is Equal && self.old_len() > 0
    }

    /// Whether the operation changes lines: any but `Equal`.
    pub open spec fn changes(self) -> bool {
        !(self is Equal)
    }

    /// Where the operation begins in the old lines.
    pub fn old_index(&self) -> (i: usize)
        ensures
            i == self.old_start(),
    {
        match *self {
            EditOp::Equal { old_index, .. } => old_index,
            EditOp::Delete { old_index, .. } => old_index,
            EditOp::Insert { old_index, .. } => old_index,
            EditOp::Replace { old_index, .. } => old_index,
        }
    }

    /// Where the operation begins in the new lines.
    pub fn new_index(&self) -> (i: usize)
        ensures
            i == self.new_start(),
    {
        match *self {
            EditOp::Equal { new_index, .. } => new_index,
            EditOp::Delete { new_index, .. } => new_index,
            EditOp::Insert { new_index, .. } => new_index,
            EditOp::Replace { new_index, .. } => new_index,
        }
    }

    /// How many old lines the operation covers.
    pub fn old_count(&self) -> (n: usize)
        ensures
            n == self.old_len(),
    {
        match *self {
            EditOp::Equal { len, .. } => len,
            EditOp::Delete { old_len, .. } => old_len,
            EditOp::Insert { .. } => 0,
            EditOp::Replace { old_len, .. } => old_len,
        }
    }

    /// How many new lines the operation covers.
    pub fn new_count(&self) -> (n: usize)
        ensures
            n == self.new_len(),
    {
        match *self {
            EditOp::Equal { len, .. } => len,
            EditOp::Delete { .. } => 0,
            EditOp::Insert { new_len, .. } => new_len,
            EditOp::Replace { new_len, .. } => new_len,
        }
    }

    /// Whether the operation is `Equal`.
    pub fn is_equal(&self) -> (b: bool)
        ensures
            b == (*self is Equal),
    {
        match *self {
            EditOp::Equal { .. } => true,
            _ => false,
        }
    }

    /// Whether the operation begins at the old line `po` and the new line
    /// `pn`, on each side where it covers lines.
    pub fn starts_at(&self, po: usize, pn: usize) -> (b: bool)
        ensures
            b == begins_at(*self, po as nat, pn as nat),
    {
        match *self {
            EditOp::Equal { old_index, new_index, .. } => old_index == po && new_index == pn,
            EditOp::Delete { old_index, .. } => old_index == po,
            EditOp::Insert { new_index, .. } => new_index == pn,
            EditOp::Replace { old_index, new_index, .. } => old_index == po && new_index == pn,
        }
    }
}

/// Whether `op` begins at the old line `po` and the new line `pn`, on each
/// side where it covers lines.
pub open spec fn begins_at(op: EditOp, po: nat, pn: nat) -> bool {
    match op {
        EditOp::Equal { .. } => op.old_start() == po && op.new_start() == pn,
        EditOp::Delete { .. } => op.old_start() == po,
        EditOp::Insert { .. } => op.new_start() == pn,
        EditOp::Replace { .. } => op.old_start() == po && op.new_start() == pn,
    }
}

/// Whether `ops` is an edit script from `old[po..]` to `new[pn..]`: each
/// operation begins where the ones before it ended; the last ends where both
/// texts end; and what an `Equal` covers is the same lines on both sides.
pub open spec fn script_from(
    ops: Seq<EditOp>,
    old: Seq<Seq<char>>,
    new: Seq<Seq<char>>,
    po: nat,
    pn: nat,
) -> bool
    decreases ops.len(),
{
    if ops.len() == 0 {
        po == old.len() && pn == new.len()
    } else {
        let op = ops[0];
        &&& begins_at(op, po, pn)
        &&& po + op.old_len() <= old.len()
        &&& pn + op.new_len() <= new.len()
        &&& op is Equal ==> old.subrange(po as int, (po + op.old_len()) as int) == new.subrange(
            pn as int,
            (pn + op.new_len()) as int,
        )
        &&& script_from(ops.skip(1), old, new, po + op.old_len(), pn + op.new_len())
    }
}

/// Whether `ops` is an edit script from `old` to `new`.
pub open spec fn is_edit_script(ops: Seq<EditOp>, old: Seq<Seq<char>>, new: Seq<Seq<char>>) -> bool {
    script_from(ops, old, new, 0, 0)
}

/// The hunks of `ops`, which begin at the old line `po` and the new line
/// `pn`, where `pending` says at which old and new line a run of changes
/// began that is not closed yet.
pub open spec fn hunks_from(
    ops: Seq<EditOp>,
    old: Seq<Seq<char>>,
    new: Seq<Seq<char>>,
    po: nat,
    pn: nat,
    pending: Option<(nat, nat)>,
) -> Seq<HunkView>
    decreases ops.len(),
{
    if ops.len() == 0 {
        match pending {
            Some(p) => seq![make_hunk(old, new, p.0, old.len(), p.1, new.len())],
            None => Seq::empty(),
        }
    } else {
        let op = ops[0];
        let rest = ops.skip(1);
        let po2 = po + op.old_len();
        let pn2 = pn + op.new_len();
        if op.keeps() {
            match pending {
                Some(p) => seq![make_hunk(old, new, p.0, po, p.1, pn)] + hunks_from(
                    rest,
                    old,
                    new,
                    po2,
                    pn2,
                    None,
                ),
                None => hunks_from(rest, old, new, po2, pn2, None),
            }
        } else if op.changes() && pending is None {
            hunks_from(rest, old, new, po2, pn2, Some((po, pn)))
        } else {
            hunks_from(rest, old, new, po2, pn2, pending)
        }
    }
}

/// The hunks of an edit script: one for each run of changes that no kept
/// line interrupts, from the first changed line of the run to the next kept
/// line, or to the end.
pub open spec fn hunks_spec(ops: Seq<EditOp>, old: Seq<Seq<char>>, new: Seq<Seq<char>>) -> Seq<
    HunkView,
> {
    hunks_from(ops, old, new, 0, 0, None)
}

/// Of the hunks of the rest of a script, the first begins where the run
/// that is not closed yet began, and the others after the lines the script
/// stands at; without such a run none begins before those lines. Each begins
/// after the one before it.
proof fn lemma_hunks_rise(
    ops: Seq<EditOp>,
    old: Seq<Seq<char>>,
    new: Seq<Seq<char>>,
    po: nat,
    pn: nat,
    pending: Option<(nat, nat)>,
)
    requires
        pending matches Some(p) ==> p.0 <= po && p.1 <= pn,
    ensures
        ({
            let hs = hunks_from(ops, old, new, po, pn, pending);
            &&& in_order(hs)
            &&& pending is None ==> forall|i: int|
                0 <= i < hs.len() ==> (#[trigger] hs[i]).old_range.0 >= po && hs[i].new_range.0
                    >= pn
            &&& pending matches Some(p) ==> hs.len() >= 1 && hs[0].old_range.0 == p.0
                && hs[0].new_range.0 == p.1 && forall|i: int|
                1 <= i < hs.len() ==> (#[trigger] hs[i]).old_range.0 > po && hs[i].new_range.0 > pn
        }),
    decreases ops.len(),
{
    let hs = hunks_from(ops, old, new, po, pn, pending);
    if ops.len() == 0 {
        match pending {
            Some(p) => {
                assert(hs =~= seq![make_hunk(old, new, p.0, old.len(), p.1, new.len())]);
            },
            None => {
                assert(hs =~= Seq::<HunkView>::empty());
            },
        }
    } else {
        let op = ops[0];
        let rest = ops.skip(1);
        let po2 = po + op.old_len();
        let pn2 = pn + op.new_len();
        if op.keeps() {
            lemma_hunks_rise(rest, old, new, po2, pn2, None);
            let tail = hunks_from(rest, old, new, po2, pn2, None);
            match pending {
                Some(p) => {
                    assert(hs[0] == make_hunk(old, new, p.0, po, p.1, pn));
                    assert forall|i: int| 1 <= i < hs.len() implies (
                    #[trigger] hs[i]).old_range.0 > po && hs[i].new_range.0 > pn by {
                        assert(hs[i] == tail[i - 1]);
                    }
                    assert forall|i: int, j: int| 0 <= i < j < hs.len() implies (
                    #[trigger] hs[i]).old_range.0 < (#[trigger] hs[j]).old_range.0
                        && hs[i].new_range.0 < hs[j].new_range.0 by {
                        assert(hs[j] == tail[j - 1]);
                        if i > 0 {
                            assert(hs[i] == tail[i - 1]);
                        }
                    }
                },
                None => {},
            }
        } else if op.changes() && pending is None {
            lemma_hunks_rise(rest, old, new, po2, pn2, Some((po, pn)));
            assert forall|i: int| 0 <= i < hs.len() implies (#[trigger] hs[i]).old_range.0 >= po
                && hs[i].new_range.0 >= pn by {
                if i >= 1 {
                    assert(hs[i].new_range.0 > pn2);
                }
            }
        } else {
            lemma_hunks_rise(rest, old, new, po2, pn2, pending);
            if pending is Some {
                assert forall|i: int| 1 <= i < hs.len() implies (#[trigger] hs[i]).old_range.0
                    > po && hs[i].new_range.0 > pn by {
                    assert(hs[i].new_range.0 > pn2);
                }
            }
        }
    }
}

/// The hunks of a script stand in the order of the lines at which they
/// begin, and no two begin at one line.
pub proof fn lemma_hunks_in_order(ops: Seq<EditOp>, old: Seq<Seq<char>>, new: Seq<Seq<char>>)
    ensures
        in_order(hunks_spec(ops, old, new)),
{
    lemma_hunks_rise(ops, old, new, 0, 0, None);
}

/// Whether `old[po..po + len]` and `new[pn..pn + len]` are the same lines.
fn same_lines(old: &Vec<String>, po: usize, new: &Vec<String>, pn: usize, len: usize) -> (b: bool)
    requires
        po + len <= old.len(),
        pn + len <= new.len(),
    ensures
        b == (lines_of(old@).subrange(po as int, po + len) == lines_of(new@).subrange(
            pn as int,
            pn + len,
        )),
{
    let ghost a = lines_of(old@).subrange(po as int, po + len);
    let ghost b = lines_of(new@).subrange(pn as int, pn + len);
    let mut k: usize = 0;
    while k < len
        invariant
            k <= len,
            po + len <= old.len(),
            pn + len <= new.len(),
            a == lines_of(old@).subrange(po as int, po + len),
            b == lines_of(new@).subrange(pn as int, pn + len),
            forall|j: int| 0 <= j < k ==> a[j] == b[j],
        decreases len - k,
    {
        assert(a[k as int] == old@[po + k]@);
        assert(b[k as int] == new@[pn + k]@);
        if old[po + k] != new[pn + k] {
            return false;
        }
        k += 1;
    }
    assert(a =~= b);
    true
}

/// Checks an edit script.
pub fn check_script(old: &Vec<String>, new: &Vec<String>, ops: &Vec<EditOp>) -> (ok: bool)
    ensures
        ok == is_edit_script(ops@, lines_of(old@), lines_of(new@)),
{
    let ghost lo = lines_of(old@);
    let ghost ln = lines_of(new@);
    let mut po: usize = 0;
    let mut pn: usize = 0;
    let mut i: usize = 0;
    assert(ops@.skip(0) =~= ops@);
    while i < ops.len()
        invariant
            i <= ops.len(),
            po <= old.len(),
            pn <= new.len(),
            lo == lines_of(old@),
            ln == lines_of(new@),
            is_edit_script(ops@, lo, ln) == script_from(ops@.skip(i as int), lo, ln, po as nat, pn as nat),
        decreases ops.len() - i,
    {
        let op = &ops[i];
        proof {
            assert(ops@.skip(i as int)[0] == *op);
            assert(ops@.skip(i as int).skip(1) =~= ops@.skip(i + 1));
            assert(lo.len() == old.len());
            assert(ln.len() == new.len());
        }
        if !op.starts_at(po, pn) {
            return false;
        }
        let ol = op.old_count();
        let nl = op.new_count();
        if ol > old.len() - po || nl > new.len() - pn {
            return false;
        }
        if op.is_equal() && !same_lines(old, po, new, pn, ol) {
            return false;
        }
        po = po + ol;
        pn = pn + nl;
        i += 1;
    }
    proof {
        assert(ops@.skip(i as int).len() == 0);
        assert(lo.len() == old.len());
        assert(ln.len() == new.len());
    }
    po == old.len() && pn == new.len()
}

/// Appends the lines `src[from..to]`, each behind `mark` and followed by a
/// newline, to `out`.
fn push_marked(src: &Vec<String>, from: usize, to: usize, mark: char, out: &mut String)
    requires
        from <= to <= src.len(),
    ensures
        final(out)@ == old(out)@ + terminated_spec(
            crate::patch::with_mark(lines_of(src@).subrange(from as int, to as int), mark),
        ),
{
    let ghost lines = lines_of(src@);
    let mut k: usize = from;
    proof {
        assert(crate::patch::with_mark(lines.subrange(from as int, from as int), mark)
            =~= Seq::<Seq<char>>::empty());
        assert(out@ + Seq::<char>::empty() =~= out@);
    }
    while k < to
        invariant
            from <= k <= to <= src.len(),
            lines == lines_of(src@),
            out@ == old(out)@ + terminated_spec(
                crate::patch::with_mark(lines.subrange(from as int, k as int), mark),
            ),
        decreases to - k,
    {
        proof {
            let before = crate::patch::with_mark(lines.subrange(from as int, k as int), mark);
            let entry = seq![mark] + lines[k as int];
            assert(crate::patch::with_mark(lines.subrange(from as int, k + 1), mark)
                =~= before.push(entry));
            lemma_terminated_push(before, entry);
            assert(old(out)@ + (terminated_spec(before) + entry + seq!['\n']) =~= old(out)@
                + terminated_spec(before) + seq![mark] + lines[k as int] + seq!['\n']);
        }
        push_char(out, mark);
        out.append(src[k].as_str());
        push_char(out, '\n');
        k += 1;
    }
}

/// Terminating goes through a concatenation.
pub proof fn lemma_terminated_add(a: Seq<Seq<char>>, b: Seq<Seq<char>>)
    ensures
        terminated_spec(a + b) == terminated_spec(a) + terminated_spec(b),
    decreases b.len(),
{
    if b.len() == 0 {
        assert(a + b =~= a);
        assert(terminated_spec(a) + terminated_spec(b) =~= terminated_spec(a));
    } else {
        let front = b.drop_last();
        lemma_terminated_add(a, front);
        assert(a + b =~= (a + front).push(b.last()));
        assert(b =~= front.push(b.last()));
        lemma_terminated_push(a + front, b.last());
        lemma_terminated_push(front, b.last());
        assert(terminated_spec(a + b) =~= terminated_spec(a) + terminated_spec(b));
    }
}

/// The hunk that turns `old[os..oe]` into `new[ns..ne]`.
pub fn encode_hunk(
    old: &Vec<String>,
    os: usize,
    oe: usize,
    new: &Vec<String>,
    ns: usize,
    ne: usize,
) -> (hunk: PatchFileHunk)
    requires
        os <= oe <= old.len(),
        ns <= ne <= new.len(),
    ensures
        hunk@ == make_hunk(lines_of(old@), lines_of(new@), os as nat, oe as nat, ns as nat, ne as nat),
{
    let mut diff = String::new();
    push_marked(old, os, oe, '-', &mut diff);
    push_marked(new, ns, ne, '+', &mut diff);
    proof {
        let remove = lines_of(old@).subrange(os as int, oe as int);
        let insert = lines_of(new@).subrange(ns as int, ne as int);
        lemma_terminated_add(
            crate::patch::with_mark(remove, '-'),
            crate::patch::with_mark(insert, '+'),
        );
        assert(diff@ =~= payload_spec(remove, insert));
    }
    PatchFileHunk { old_range: (os, oe), new_range: (ns, ne), diff }
}

/// The hunks of an edit script.
pub fn hunks_of_script(old: &Vec<String>, new: &Vec<String>, ops: &Vec<EditOp>) -> (hunks: Vec<
    PatchFileHunk,
>)
    requires
        is_edit_script(ops@, lines_of(old@), lines_of(new@)),
    ensures
        hunks_of(hunks@) == hunks_spec(ops@, lines_of(old@), lines_of(new@)),
        in_order(hunks_of(hunks@)),
{
    let ghost lo = lines_of(old@);
    let ghost ln = lines_of(new@);
    proof {
        lemma_hunks_in_order(ops@, lo, ln);
    }
    let mut hunks: Vec<PatchFileHunk> = Vec::new();
    let mut pending: Option<(usize, usize)> = None;
    let mut po: usize = 0;
    let mut pn: usize = 0;
    let mut i: usize = 0;
    proof {
        assert(ops@.skip(0) =~= ops@);
        assert(hunks_of(hunks@) =~= Seq::<HunkView>::empty());
        assert(Seq::<HunkView>::empty() + hunks_spec(ops@, lo, ln) =~= hunks_spec(ops@, lo, ln));
    }
    while i < ops.len()
        invariant
            i <= ops.len(),
            lo == lines_of(old@),
            ln == lines_of(new@),
            po <= old.len(),
            pn <= new.len(),
            script_from(ops@.skip(i as int), lo, ln, po as nat, pn as nat),
            pending matches Some(p) ==> p.0 <= po && p.1 <= pn,
            hunks_spec(ops@, lo, ln) == hunks_of(hunks@) + hunks_from(
                ops@.skip(i as int),
                lo,
                ln,
                po as nat,
                pn as nat,
                match pending {
                    Some(p) => Some((p.0 as nat, p.1 as nat)),
                    None => None,
                },
            ),
        decreases ops.len() - i,
    {
        let op = &ops[i];
        proof {
            assert(ops@.skip(i as int)[0] == *op);
            assert(ops@.skip(i as int).skip(1) =~= ops@.skip(i + 1));
            assert(lo.len() == old.len());
            assert(ln.len() == new.len());
        }
        if op.is_equal() && op.old_count() > 0 {
            match pending {
                Some(p) => {
                    let hunk = encode_hunk(old, p.0, po, new, p.1, pn);
                    proof {
                        let tail = hunks_from(
                            ops@.skip(i + 1),
                            lo,
                            ln,
                            (po + op.old_len()) as nat,
                            (pn + op.new_len()) as nat,
                            None,
                        );
                        assert(hunks_of(hunks@.push(hunk)) =~= hunks_of(hunks@).push(hunk@));
                        assert(hunks_of(hunks@) + (seq![hunk@] + tail) =~= hunks_of(hunks@).push(
                            hunk@,
                        ) + tail);
                    }
                    hunks.push(hunk);
                },
                None => {},
            }
            pending = None;
        } else if !op.is_equal() && pending.is_none() {
            pending = Some((po, pn));
        }
        po = po + op.old_count();
        pn = pn + op.new_count();
        i += 1;
    }
    proof {
        assert(ops@.skip(i as int).len() == 0);
        assert(lo.len() == old.len());
        assert(ln.len() == new.len());
    }
    match pending {
        Some(p) => {
            let hunk = encode_hunk(old, p.0, old.len(), new, p.1, new.len());
            proof {
                assert(hunks_of(hunks@.push(hunk)) =~= hunks_of(hunks@).push(hunk@));
                assert(hunks_of(hunks@) + seq![hunk@] =~= hunks_of(hunks@).push(hunk@));
            }
            hunks.push(hunk);
        },
        None => {
            assert(hunks_of(hunks@) + Seq::<HunkView>::empty() =~= hunks_of(hunks@));
        },
    }
    hunks
}

/// The edit script that `similar` gives for two lists of lines.
pub uninterp spec fn similar_line_ops(old: Seq<Seq<char>>, new: Seq<Seq<char>>) -> Seq<EditOp>;

/// Why no hunks could be made.
#[derive(Debug)]
pub enum DiffError {
    /// The two texts have more lines together than the comparison takes.
    TooManyLines,
    /// What came back from the comparison is no edit script from the one
    /// text to the other.
    BadScript,
}

/// The most lines that two texts may have together.
pub open spec fn max_lines() -> nat {
    0xffff_ffff
}

/// Whether two texts of so many lines can be compared.
pub fn lines_fit(old_len: usize, new_len: usize) -> (fit: bool)
    ensures
        fit == (old_len + new_len <= max_lines()),
{
    let room: usize = if usize::MAX > 0xffff_ffff {
        0xffff_ffff
    } else {
        usize::MAX
    };
    old_len <= room && new_len <= room - old_len
}

/// The edit script from the lines `old` to the lines `new`.
///
/// Calls `similar::TextDiff::from_slices`, which runs Myers' algorithm with
/// no deadline over the two slices, and hands on the operations it
/// captured, in their order, each with its own fields. The operations depend
/// on the two lists of lines alone. Nothing is claimed of them here: they are
/// checked before they are used. Lines are numbered by `u32` inside, so
/// the two lists may not hold more than `u32::MAX` lines together.
#[verifier::external_body]
fn line_ops(old: &Vec<String>, new: &Vec<String>) -> (ops: Vec<EditOp>)
    requires
        old.len() + new.len() <= max_lines(),
    ensures
        ops@ == similar_line_ops(lines_of(old@), lines_of(new@)),
{
    let a: Vec<&str> = old.iter().map(String::as_str).collect();
    let b: Vec<&str> = new.iter().map(String::as_str).collect();
    let diff = TextDiff::from_slices(&a, &b);
    let ops = diff.ops().iter();
    ops.map(|op| match *op {
        DiffOp::Equal { old_index, new_index, len } => EditOp::Equal { old_index, new_index, len },
        DiffOp::Delete { old_index, old_len, new_index } => EditOp::Delete { old_index, old_len, new_index },
        DiffOp::Insert { old_index, new_index, new_len } => EditOp::Insert { old_index, new_index, new_len },
        DiffOp::Replace { old_index, old_len, new_index, new_len } => EditOp::Replace { old_index, old_len, new_index, new_len },
    }).collect()
}

/// What `diff_lines` returns for the script `ops`.
pub open spec fn diff_result_spec(ops: Seq<EditOp>, old: Seq<Seq<char>>, new: Seq<Seq<char>>) -> Result<
    Seq<HunkView>,
    DiffError,
> {
    if old.len() + new.len() > max_lines() {
        Err(DiffError::TooManyLines)
    } else if !is_edit_script(ops, old, new) {
        Err(DiffError::BadScript)
    } else {
        Ok(hunks_spec(ops, old, new))
    }
}

/// Whether `result` is what `expected` says, each hunk taken by its view,
/// and the hunks stand in order.
pub open spec fn is_diff_result(
    result: Result<Vec<PatchFileHunk>, DiffError>,
    expected: Result<Seq<HunkView>, DiffError>,
) -> bool {
    match result {
        Ok(hunks) => expected == Ok::<Seq<HunkView>, DiffError>(hunks_of(hunks@)) && in_order(
            hunks_of(hunks@),
        ),
        Err(e) => expected == Err::<Seq<HunkView>, DiffError>(e),
    }
}

/// The hunks of a script that is said to lead from `old` to `new`: those of
/// `hunks_spec` where it does, and `BadScript` where it does not.
pub fn hunks_of_ops(old: &Vec<String>, new: &Vec<String>, ops: &Vec<EditOp>) -> (result: Result<
    Vec<PatchFileHunk>,
    DiffError,
>)
    ensures
        is_edit_script(ops@, lines_of(old@), lines_of(new@)) ==> result is Ok && hunks_of(
            result->Ok_0@,
        ) == hunks_spec(ops@, lines_of(old@), lines_of(new@)) && in_order(hunks_of(result->Ok_0@)),
        !is_edit_script(ops@, lines_of(old@), lines_of(new@)) ==> result == Err::<
            Vec<PatchFileHunk>,
            DiffError,
        >(DiffError::BadScript),
{
    if check_script(old, new, ops) {
        Ok(hunks_of_script(old, new, ops))
    } else {
        Err(DiffError::BadScript)
    }
}

/// The hunks that lead from the lines `old` to the lines `new`.
pub fn diff_lines(old: &Vec<String>, new: &Vec<String>) -> (result: Result<
    Vec<PatchFileHunk>,
    DiffError,
>)
    ensures
        is_diff_result(
            result,
            diff_result_spec(
                similar_line_ops(lines_of(old@), lines_of(new@)),
                lines_of(old@),
                lines_of(new@),
            ),
        ),
{
    if !lines_fit(old.len(), new.len()) {
        return Err(DiffError::TooManyLines);
    }
    let ops = line_ops(old, new);
    hunks_of_ops(old, new, &ops)
}

/// The hunks that lead from the text `old_text` to the text `new_text`.
pub fn diff_texts(old_text: &str, new_text: &str) -> (result: Result<Vec<PatchFileHunk>, DiffError>)
    ensures
        is_diff_result(
            result,
            diff_result_spec(
                similar_line_ops(split_lines_spec(old_text@), split_lines_spec(new_text@)),
                split_lines_spec(old_text@),
                split_lines_spec(new_text@),
            ),
        ),
{
    let old = split_lines(old_text);
    let new = split_lines(new_text);
    diff_lines(&old, &new)
}

/// What `diff_file` returns, where the comparison of the lines gives the
/// script `ops`: nothing for a working copy whose hash is the stored one,
/// else the edits that lead from the stored text to the working text, or the
/// other way round if `reverse` is set, with the two hashes.
pub open spec fn diff_file_spec(
    ops: Seq<EditOp>,
    stored_text: Seq<char>,
    working_text: Seq<char>,
    stored_hash: Seq<char>,
    reverse: bool,
) -> Result<Option<PatchFileView>, DiffError> {
    let old = split_lines_spec(if reverse { working_text } else { stored_text });
    let new = split_lines_spec(if reverse { stored_text } else { working_text });
    if text_hash_spec(working_text) == stored_hash {
        Ok(None)
    } else {
        match diff_result_spec(ops, old, new) {
            Ok(hunks) => Ok(
                Some(
                    PatchFileView {
                        pre_hash: stored_hash,
                        post_hash: text_hash_spec(working_text),
                        hunks,
                    },
                ),
            ),
            Err(e) => Err(e),
        }
    }
}

/// The script that the comparison gives for a stored and a working text.
pub open spec fn file_ops_spec(stored_text: Seq<char>, working_text: Seq<char>, reverse: bool) -> Seq<
    EditOp,
> {
    similar_line_ops(
        split_lines_spec(if reverse { working_text } else { stored_text }),
        split_lines_spec(if reverse { stored_text } else { working_text }),
    )
}

/// Whether `result` is what `expected` says, the file taken by its view,
/// and the file's edits stand in order.
pub open spec fn is_file_result(
    result: Result<Option<PatchFile>, DiffError>,
    expected: Result<Option<PatchFileView>, DiffError>,
) -> bool {
    match result {
        Ok(Some(file)) => expected == Ok::<Option<PatchFileView>, DiffError>(Some(file@))
            && file.in_order(),
        Ok(None) => expected == Ok::<Option<PatchFileView>, DiffError>(None),
        Err(e) => expected == Err::<Option<PatchFileView>, DiffError>(e),
    }
}

/// The edits of one tracked file: none if its working copy has the stored
/// hash, else those that lead from the stored text to the working text, or
/// the other way round if `reverse` is set.
pub fn diff_file(stored_text: &str, working_text: &str, stored_hash: &str, reverse: bool) -> (result:
    Result<Option<PatchFile>, DiffError>)
    ensures
        is_file_result(
            result,
            diff_file_spec(
                file_ops_spec(stored_text@, working_text@, reverse),
                stored_text@,
                working_text@,
                stored_hash@,
                reverse,
            ),
        ),
        text_hash_spec(working_text@) == stored_hash@ ==> result is Ok && result->Ok_0 is None,
{
    let working_hash = text_hash(working_text);
    if same_text(working_hash.as_str(), stored_hash) {
        return Ok(None);
    }
    let hunks = if reverse {
        diff_texts(working_text, stored_text)
    } else {
        diff_texts(stored_text, working_text)
    };
    match hunks {
        Ok(hunks) => Ok(
            Some(PatchFile { pre_hash: stored_hash.to_owned(), post_hash: working_hash, hunks }),
        ),
        Err(e) => Err(e),
    }
}

/// Adds the edits of one tracked file to `patch`: nothing if the working
/// copy has the stored hash or no hunks could be made, else the file's edits
/// under `path`.
pub fn add_file_diff(
    patch: &mut Patch,
    path: &str,
    stored_text: &str,
    working_text: &str,
    stored_hash: &str,
    reverse: bool,
) -> (result: Result<bool, DiffError>)
    requires
        old(patch).wf(),
    ensures
        final(patch).wf(),
        match diff_file_spec(
            file_ops_spec(stored_text@, working_text@, reverse),
            stored_text@,
            working_text@,
            stored_hash@,
            reverse,
        ) {
            Ok(Some(file)) => result == Ok::<bool, DiffError>(true) && final(patch)@ == put_spec(
                old(patch)@,
                path@,
                file,
            ),
            Ok(None) => result == Ok::<bool, DiffError>(false) && final(patch)@ == old(patch)@,
            Err(e) => result == Err::<bool, DiffError>(e) && final(patch)@ == old(patch)@,
        },
        text_hash_spec(working_text@) == stored_hash@ ==> final(patch)@ == old(patch)@,
        old(patch).in_order() ==> final(patch).in_order(),
{
    match diff_file(stored_text, working_text, stored_hash, reverse) {
        Ok(Some(file)) => {
            patch.put(path.to_owned(), file);
            Ok(true)
        },
        Ok(None) => Ok(false),
        Err(e) => Err(e),
    }
}

} // verus!
