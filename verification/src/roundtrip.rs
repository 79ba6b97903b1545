//! What holds of `diff`, `apply` and `reverse` together.
//!
//! The hunks made of an edit script from one text to another turn the first
//! into the second when they are applied, and their reverse turns the second
//! back into the first.

use crate::apply::{
    apply_lines_spec, apply_text_spec, is_sorted, lemma_sort_sorted, lines_before, run_spec,
    sort_spec, step_spec, Cursor,
};
use crate::diff::{
    diff_file_spec, diff_result_spec, file_ops_spec, hunks_from, hunks_spec, is_edit_script,
    script_from, similar_line_ops, EditOp,
};
use crate::patch::{
    decode_all_spec, decode_spec, lemma_decode_payload, make_hunk, HunkView, PatchFileView,
};
use crate::reverse::{
    lemma_decode_reverse, reverse_file_spec, reverse_hunk_spec, reverse_hunks_spec,
};
use crate::text::{
    all_lines, ends_with_newline_spec, is_line, lemma_split_gives_lines, lemma_unsplit_split,
    split_lines_spec,
};
use vstd::prelude::*;

verus! {

/// Whether `h` removes the old lines of its old range and brings the new
/// lines of its new range.
pub open spec fn hunk_edits(h: HunkView, old: Seq<Seq<char>>, new: Seq<Seq<char>>) -> bool {
    &&& h.old_range.0 <= h.old_range.1 <= old.len()
    &&& h.new_range.0 <= h.new_range.1 <= new.len()
    &&& decode_spec(h).remove == old.subrange(h.old_range.0 as int, h.old_range.1 as int)
    &&& decode_spec(h).insert == new.subrange(h.new_range.0 as int, h.new_range.1 as int)
}

/// Whether `hunks` lead from `old[co..]` to `new[cn..]`: between each two
/// hunks, before the first and after the last, the two texts have the same
/// lines, and each hunk turns its old range into its new range.
pub open spec fn links(
    hunks: Seq<HunkView>,
    old: Seq<Seq<char>>,
    new: Seq<Seq<char>>,
    co: nat,
    cn: nat,
) -> bool
    decreases hunks.len(),
{
    if hunks.len() == 0 {
        co <= old.len() && cn <= new.len() && old.skip(co as int) == new.skip(cn as int)
    } else {
        let h = hunks[0];
        &&& hunk_edits(h, old, new)
        &&& co <= h.old_range.0
        &&& cn <= h.new_range.0
        &&& old.subrange(co as int, h.old_range.0 as int) == new.subrange(
            cn as int,
            h.new_range.0 as int,
        )
        &&& links(hunks.skip(1), old, new, h.old_range.1, h.new_range.1)
    }
}

/// A part of lines is lines.
proof fn lemma_subrange_lines(lines: Seq<Seq<char>>, from: int, to: int)
    requires
        all_lines(lines),
        0 <= from <= to <= lines.len(),
    ensures
        all_lines(lines.subrange(from, to)),
{
    let part = lines.subrange(from, to);
    assert forall|i: int| 0 <= i < part.len() implies is_line(#[trigger] part[i]) by {
        assert(part[i] == lines[from + i]);
    }
}

/// A hunk made of two ranges of lines edits just those ranges.
proof fn lemma_make_hunk_edits(
    old: Seq<Seq<char>>,
    new: Seq<Seq<char>>,
    os: nat,
    oe: nat,
    ns: nat,
    ne: nat,
)
    requires
        all_lines(old),
        all_lines(new),
        os <= oe <= old.len(),
        ns <= ne <= new.len(),
    ensures
        hunk_edits(make_hunk(old, new, os, oe, ns, ne), old, new),
{
    lemma_subrange_lines(old, os as int, oe as int);
    lemma_subrange_lines(new, ns as int, ne as int);
    lemma_decode_payload(old.subrange(os as int, oe as int), new.subrange(ns as int, ne as int));
}

/// The hunks of the rest of an edit script lead from where the last hunk
/// ended to the end of both texts.
proof fn lemma_script_links(
    ops: Seq<EditOp>,
    old: Seq<Seq<char>>,
    new: Seq<Seq<char>>,
    po: nat,
    pn: nat,
    pending: Option<(nat, nat)>,
    co: nat,
    cn: nat,
)
    requires
        all_lines(old),
        all_lines(new),
        script_from(ops, old, new, po, pn),
        po <= old.len(),
        pn <= new.len(),
        match pending {
            Some(p) => co <= p.0 <= po && cn <= p.1 <= pn && old.subrange(co as int, p.0 as int)
                == new.subrange(cn as int, p.1 as int),
            None => co <= po && cn <= pn && old.subrange(co as int, po as int) == new.subrange(
                cn as int,
                pn as int,
            ),
        },
    ensures
        links(hunks_from(ops, old, new, po, pn, pending), old, new, co, cn),
    decreases ops.len(),
{
    if ops.len() == 0 {
        match pending {
            Some(p) => {
                let h = make_hunk(old, new, p.0, old.len(), p.1, new.len());
                lemma_make_hunk_edits(old, new, p.0, old.len(), p.1, new.len());
                let hs = seq![h];
                assert(hs[0] == h);
                assert(hs.skip(1) =~= Seq::<HunkView>::empty());
                assert(old.skip(old.len() as int) =~= new.skip(new.len() as int));
                assert(links(hs.skip(1), old, new, old.len(), new.len()));
            },
            None => {
                assert(old.skip(co as int) =~= old.subrange(co as int, po as int));
                assert(new.skip(cn as int) =~= new.subrange(cn as int, pn as int));
            },
        }
    } else {
        let op = ops[0];
        let rest = ops.skip(1);
        let po2 = po + op.old_len();
        let pn2 = pn + op.new_len();
        if op.keeps() {
            let kept_old = old.subrange(po as int, po2 as int);
            let kept_new = new.subrange(pn as int, pn2 as int);
            assert(kept_old == kept_new);
            match pending {
                Some(p) => {
                    let h = make_hunk(old, new, p.0, po, p.1, pn);
                    lemma_make_hunk_edits(old, new, p.0, po, p.1, pn);
                    lemma_script_links(rest, old, new, po2, pn2, None, po, pn);
                    let tail = hunks_from(rest, old, new, po2, pn2, None);
                    let hs = seq![h] + tail;
                    assert(hs[0] == h);
                    assert(hs.skip(1) =~= tail);
                },
                None => {
                    let before_old = old.subrange(co as int, po as int);
                    let before_new = new.subrange(cn as int, pn as int);
                    assert(before_old.len() == before_new.len());
                    assert(old.subrange(co as int, po2 as int) =~= before_old + kept_old);
                    assert(new.subrange(cn as int, pn2 as int) =~= before_new + kept_new);
                    lemma_script_links(rest, old, new, po2, pn2, None, co, cn);
                },
            }
        } else if op.changes() && pending is None {
            lemma_script_links(rest, old, new, po2, pn2, Some((po, pn)), co, cn);
        } else {
            if pending is None {
                assert(po2 == po && pn2 == pn);
            }
            lemma_script_links(rest, old, new, po2, pn2, pending, co, cn);
        }
    }
}

/// Hunks that lead from one text to another begin at rising lines.
proof fn lemma_links_sorted(
    hunks: Seq<HunkView>,
    old: Seq<Seq<char>>,
    new: Seq<Seq<char>>,
    co: nat,
    cn: nat,
)
    requires
        links(hunks, old, new, co, cn),
    ensures
        is_sorted(decode_all_spec(hunks)),
        forall|i: int| 0 <= i < hunks.len() ==> cn <= (#[trigger] decode_all_spec(hunks)[i]).anchor,
    decreases hunks.len(),
{
    let actions = decode_all_spec(hunks);
    if hunks.len() > 0 {
        let h = hunks[0];
        let rest = hunks.skip(1);
        lemma_links_sorted(rest, old, new, h.old_range.1, h.new_range.1);
        let tail = decode_all_spec(rest);
        assert forall|i: int| 0 < i < hunks.len() implies actions[i] == tail[i - 1] by {
            assert(rest[i - 1] == hunks[i]);
        }
        assert forall|i: int| 0 <= i < hunks.len() implies cn <= (#[trigger] actions[i]).anchor by {
            if i > 0 {
                assert(actions[i] == tail[i - 1]);
            }
        }
        assert forall|i: int, j: int| 0 <= i < j < actions.len() implies (
        #[trigger] actions[i]).anchor <= (#[trigger] actions[j]).anchor by {
            assert(actions[j] == tail[j - 1]);
            if i > 0 {
                assert(actions[i] == tail[i - 1]);
            }
        }
    }
}

/// Run from the end of one hunk, hunks that lead from one text to another
/// make the other text.
proof fn lemma_links_run(
    hunks: Seq<HunkView>,
    old: Seq<Seq<char>>,
    new: Seq<Seq<char>>,
    co: nat,
    cn: nat,
)
    requires
        links(hunks, old, new, co, cn),
        co <= old.len(),
        cn <= new.len(),
    ensures
        ({
            let c = Cursor { pos: co, line: cn, out: new.take(cn as int), cut: false };
            let end = run_spec(old, c, decode_all_spec(hunks));
            end.out + old.skip(end.pos as int) == new
        }),
    decreases hunks.len(),
{
    let c = Cursor { pos: co, line: cn, out: new.take(cn as int), cut: false };
    let actions = decode_all_spec(hunks);
    if hunks.len() == 0 {
        assert(new.take(cn as int) + new.skip(cn as int) =~= new);
    } else {
        let h = hunks[0];
        let rest = hunks.skip(1);
        let a = actions[0];
        assert(a == decode_spec(h));
        assert(actions.skip(1) =~= decode_all_spec(rest));
        let gap_old = old.subrange(co as int, h.old_range.0 as int);
        let gap_new = new.subrange(cn as int, h.new_range.0 as int);
        assert(gap_old.len() == gap_new.len());
        assert(lines_before(c, a) == h.old_range.0 - co);
        let next = step_spec(old, c, a);
        assert(next.pos == h.old_range.1);
        assert(next.line == h.new_range.1);
        assert(next.out =~= new.take(h.new_range.1 as int)) by {
            assert(next.out == new.take(cn as int) + gap_old + a.insert);
            assert(new.take(cn as int) + gap_new + new.subrange(
                h.new_range.0 as int,
                h.new_range.1 as int,
            ) =~= new.take(h.new_range.1 as int));
        }
        assert(!next.cut);
        lemma_links_run(rest, old, new, h.old_range.1, h.new_range.1);
    }
}

/// Hunks that lead from `old` to `new`, applied to `old`, give `new`.
pub proof fn lemma_links_apply(hunks: Seq<HunkView>, old: Seq<Seq<char>>, new: Seq<Seq<char>>)
    requires
        links(hunks, old, new, 0, 0),
    ensures
        apply_lines_spec(old, sort_spec(decode_all_spec(hunks))) == new,
{
    lemma_links_sorted(hunks, old, new, 0, 0);
    lemma_sort_sorted(decode_all_spec(hunks));
    lemma_links_run(hunks, old, new, 0, 0);
    assert(new.take(0) =~= Seq::<Seq<char>>::empty());
}

/// The reverse of hunks that lead from `old` to `new` leads from `new` to
/// `old`.
pub proof fn lemma_links_reverse(
    hunks: Seq<HunkView>,
    old: Seq<Seq<char>>,
    new: Seq<Seq<char>>,
    co: nat,
    cn: nat,
)
    requires
        links(hunks, old, new, co, cn),
    ensures
        links(reverse_hunks_spec(hunks), new, old, cn, co),
    decreases hunks.len(),
{
    let reversed = reverse_hunks_spec(hunks);
    if hunks.len() > 0 {
        let h = hunks[0];
        lemma_decode_reverse(h);
        lemma_links_reverse(hunks.skip(1), old, new, h.old_range.1, h.new_range.1);
        assert(reversed[0] == reverse_hunk_spec(h));
        assert(reversed.skip(1) =~= reverse_hunks_spec(hunks.skip(1)));
    }
}

/// The hunks of an edit script from `old` to `new`, applied to `old`, give
/// `new`; their reverse, applied to `new`, gives `old`.
pub proof fn lemma_round_trip_lines(ops: Seq<EditOp>, old: Seq<Seq<char>>, new: Seq<Seq<char>>)
    requires
        is_edit_script(ops, old, new),
        all_lines(old),
        all_lines(new),
    ensures
        apply_lines_spec(old, sort_spec(decode_all_spec(hunks_spec(ops, old, new)))) == new,
        apply_lines_spec(
            new,
            sort_spec(decode_all_spec(reverse_hunks_spec(hunks_spec(ops, old, new)))),
        ) == old,
{
    let hunks = hunks_spec(ops, old, new);
    assert(old.subrange(0, 0) =~= new.subrange(0, 0));
    lemma_script_links(ops, old, new, 0, 0, None, 0, 0);
    lemma_links_apply(hunks, old, new);
    lemma_links_reverse(hunks, old, new, 0, 0);
    lemma_links_apply(reverse_hunks_spec(hunks), new, old);
}

/// For two texts that both end in a newline, or both do not: the hunks of
/// an edit script from the lines of `a` to the lines of `b`, applied to `a`,
/// give `b`; and their reverse, applied to `b`, gives `a`.
pub proof fn lemma_round_trip(ops: Seq<EditOp>, a: Seq<char>, b: Seq<char>)
    requires
        is_edit_script(ops, split_lines_spec(a), split_lines_spec(b)),
        ends_with_newline_spec(a) == ends_with_newline_spec(b),
    ensures
        apply_text_spec(a, hunks_spec(ops, split_lines_spec(a), split_lines_spec(b))) == b,
        apply_text_spec(
            b,
            reverse_hunks_spec(hunks_spec(ops, split_lines_spec(a), split_lines_spec(b))),
        ) == a,
{
    lemma_split_gives_lines(a);
    lemma_split_gives_lines(b);
    lemma_round_trip_lines(ops, split_lines_spec(a), split_lines_spec(b));
    lemma_unsplit_split(a);
    lemma_unsplit_split(b);
}

/// For two texts that both end in a newline, or both do not: the hunks
/// that the comparison of `a` with `b` gives, applied to `a`, give `b`; and
/// their reverse, applied to `b`, gives `a`.
pub proof fn lemma_diff_round_trip(a: Seq<char>, b: Seq<char>, hunks: Seq<HunkView>)
    requires
        diff_result_spec(
            similar_line_ops(split_lines_spec(a), split_lines_spec(b)),
            split_lines_spec(a),
            split_lines_spec(b),
        ) == Ok::<Seq<HunkView>, crate::diff::DiffError>(hunks),
        ends_with_newline_spec(a) == ends_with_newline_spec(b),
    ensures
        apply_text_spec(a, hunks) == b,
        apply_text_spec(b, reverse_hunks_spec(hunks)) == a,
{
    lemma_round_trip(similar_line_ops(split_lines_spec(a), split_lines_spec(b)), a, b);
}

/// For a stored and a working text that both end in a newline, or both do
/// not: the edits that the comparison gives for the file lead from the
/// stored text to the working text, or the other way round if `reverse` is
/// set; and their reverse leads back.
pub proof fn lemma_file_round_trip(
    stored_text: Seq<char>,
    working_text: Seq<char>,
    stored_hash: Seq<char>,
    reverse: bool,
    file: PatchFileView,
)
    requires
        diff_file_spec(
            file_ops_spec(stored_text, working_text, reverse),
            stored_text,
            working_text,
            stored_hash,
            reverse,
        ) == Ok::<Option<PatchFileView>, crate::diff::DiffError>(Some(file)),
        ends_with_newline_spec(stored_text) == ends_with_newline_spec(working_text),
    ensures
        ({
            let from = if reverse { working_text } else { stored_text };
            let to = if reverse { stored_text } else { working_text };
            &&& apply_text_spec(from, file.hunks) == to
            &&& apply_text_spec(to, reverse_file_spec(file).hunks) == from
        }),
{
    let from = if reverse { working_text } else { stored_text };
    let to = if reverse { stored_text } else { working_text };
    lemma_diff_round_trip(from, to, file.hunks);
}

} // verus!
