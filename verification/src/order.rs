//! The order of a file's hunks does not matter.
//!
//! Before they are applied, the decoded hunks are put in the order of their
//! anchors. So two lists of the same hunks, no two of which begin at one
//! line, give the same text in whatever order each list holds them.

use crate::apply::{
    apply_text_spec, distinct_anchors, insert_sorted, is_sorted, lemma_insert_sorted,
    lemma_sort_sorted, sort_spec, strictly_sorted,
};
use crate::patch::{decode_all_spec, in_order, ActionView, HunkView};
use vstd::prelude::*;

verus! {

/// Every element of `a` is an element of `b`.
pub open spec fn all_among<T>(a: Seq<T>, b: Seq<T>) -> bool {
    forall|i: int| 0 <= i < a.len() ==> b.contains(#[trigger] a[i])
}

/// No two hunks begin at one line.
pub open spec fn distinct_hunk_anchors(hunks: Seq<HunkView>) -> bool {
    forall|i: int, j: int|
        0 <= i < j < hunks.len() ==> (#[trigger] hunks[i]).new_range.0 != (
        #[trigger] hunks[j]).new_range.0
}

/// Of hunks that stand in order no two begin at one line, and they are
/// applied in the order they stand in.
pub proof fn lemma_in_order(hunks: Seq<HunkView>)
    requires
        in_order(hunks),
    ensures
        distinct_hunk_anchors(hunks),
        sort_spec(decode_all_spec(hunks)) == decode_all_spec(hunks),
{
    let actions = decode_all_spec(hunks);
    assert(is_sorted(actions)) by {
        assert forall|i: int, j: int| 0 <= i < j < actions.len() implies (
        #[trigger] actions[i]).anchor <= (#[trigger] actions[j]).anchor by {
            assert(hunks[i].new_range.0 < hunks[j].new_range.0);
        }
    }
    lemma_sort_sorted(actions);
}

/// `insert_sorted` keeps `a` and every element of `sorted`.
proof fn lemma_insert_keeps(a: ActionView, sorted: Seq<ActionView>)
    ensures
        insert_sorted(a, sorted).contains(a),
        all_among(sorted, insert_sorted(a, sorted)),
    decreases sorted.len(),
{
    let result = insert_sorted(a, sorted);
    if sorted.len() == 0 || a.anchor <= sorted[0].anchor {
        assert(result[0] == a);
        assert forall|i: int| 0 <= i < sorted.len() implies result.contains(
            #[trigger] sorted[i],
        ) by {
            assert(result[i + 1] == sorted[i]);
        }
    } else {
        let rest = sorted.skip(1);
        let inner = insert_sorted(a, rest);
        lemma_insert_keeps(a, rest);
        let w = choose|w: int| 0 <= w < inner.len() && inner[w] == a;
        assert(result[w + 1] == a);
        assert forall|i: int| 0 <= i < sorted.len() implies result.contains(
            #[trigger] sorted[i],
        ) by {
            if i == 0 {
                assert(result[0] == sorted[0]);
            } else {
                assert(rest[i - 1] == sorted[i]);
                assert(inner.contains(rest[i - 1]));
                let v = choose|v: int| 0 <= v < inner.len() && inner[v] == sorted[i];
                assert(result[v + 1] == sorted[i]);
            }
        }
    }
}

/// Sorting keeps just the elements it was given.
pub proof fn lemma_sort_elements(actions: Seq<ActionView>)
    ensures
        all_among(actions, sort_spec(actions)),
        all_among(sort_spec(actions), actions),
    decreases actions.len(),
{
    let sorted = sort_spec(actions);
    if actions.len() > 0 {
        let rest = actions.skip(1);
        let inner = sort_spec(rest);
        lemma_sort_elements(rest);
        lemma_insert_keeps(actions[0], inner);
        lemma_insert_sorted(actions[0], inner);
        assert forall|i: int| 0 <= i < actions.len() implies sorted.contains(
            #[trigger] actions[i],
        ) by {
            if i > 0 {
                assert(rest[i - 1] == actions[i]);
                assert(inner.contains(rest[i - 1]));
                let v = choose|v: int| 0 <= v < inner.len() && inner[v] == actions[i];
                assert(sorted.contains(inner[v]));
            }
        }
        assert forall|k: int| 0 <= k < sorted.len() implies actions.contains(
            #[trigger] sorted[k],
        ) by {
            if sorted[k] == actions[0] {
            } else {
                assert(inner.contains(sorted[k]));
                let v = choose|v: int| 0 <= v < inner.len() && inner[v] == sorted[k];
                assert(rest.contains(inner[v]));
                let u = choose|u: int| 0 <= u < rest.len() && rest[u] == inner[v];
                assert(actions[u + 1] == sorted[k]);
            }
        }
    }
}

/// Into anchors that rise, an action with another anchor goes so that they
/// still rise.
proof fn lemma_insert_strict(a: ActionView, sorted: Seq<ActionView>)
    requires
        strictly_sorted(sorted),
        forall|i: int| 0 <= i < sorted.len() ==> (#[trigger] sorted[i]).anchor != a.anchor,
    ensures
        strictly_sorted(insert_sorted(a, sorted)),
    decreases sorted.len(),
{
    let result = insert_sorted(a, sorted);
    if sorted.len() == 0 || a.anchor <= sorted[0].anchor {
        assert forall|i: int, j: int| 0 <= i < j < result.len() implies (
        #[trigger] result[i]).anchor < (#[trigger] result[j]).anchor by {
            assert(result[j] == sorted[j - 1]);
            if i == 0 {
                if j - 1 > 0 {
                    assert(sorted[0].anchor < sorted[j - 1].anchor);
                }
            } else {
                assert(result[i] == sorted[i - 1]);
            }
        }
    } else {
        let rest = sorted.skip(1);
        let inner = insert_sorted(a, rest);
        assert(strictly_sorted(rest)) by {
            assert forall|i: int, j: int| 0 <= i < j < rest.len() implies (
            #[trigger] rest[i]).anchor < (#[trigger] rest[j]).anchor by {
                assert(rest[i] == sorted[i + 1]);
                assert(rest[j] == sorted[j + 1]);
            }
        }
        assert forall|i: int| 0 <= i < rest.len() implies (#[trigger] rest[i]).anchor
            != a.anchor by {
            assert(rest[i] == sorted[i + 1]);
        }
        lemma_insert_strict(a, rest);
        lemma_insert_sorted(a, rest);
        assert forall|i: int, j: int| 0 <= i < j < result.len() implies (
        #[trigger] result[i]).anchor < (#[trigger] result[j]).anchor by {
            assert(result[j] == inner[j - 1]);
            if i == 0 {
                if inner[j - 1] != a {
                    assert(rest.contains(inner[j - 1]));
                    let w = choose|w: int| 0 <= w < rest.len() && rest[w] == inner[j - 1];
                    assert(sorted[w + 1] == inner[j - 1]);
                    assert(sorted[0].anchor < sorted[w + 1].anchor);
                }
            } else {
                assert(result[i] == inner[i - 1]);
            }
        }
    }
}

/// Actions of which no two have one anchor come out of the sort with
/// rising anchors.
pub proof fn lemma_sort_strict(actions: Seq<ActionView>)
    requires
        distinct_anchors(actions),
    ensures
        strictly_sorted(sort_spec(actions)),
    decreases actions.len(),
{
    if actions.len() > 0 {
        let rest = actions.skip(1);
        let inner = sort_spec(rest);
        assert(distinct_anchors(rest)) by {
            assert forall|i: int, j: int| 0 <= i < j < rest.len() implies (
            #[trigger] rest[i]).anchor != (#[trigger] rest[j]).anchor by {
                assert(rest[i] == actions[i + 1]);
                assert(rest[j] == actions[j + 1]);
            }
        }
        lemma_sort_strict(rest);
        lemma_sort_elements(rest);
        assert forall|i: int| 0 <= i < inner.len() implies (#[trigger] inner[i]).anchor
            != actions[0].anchor by {
            assert(rest.contains(inner[i]));
            let u = choose|u: int| 0 <= u < rest.len() && rest[u] == inner[i];
            assert(actions[u + 1] == inner[i]);
        }
        lemma_insert_strict(actions[0], inner);
    }
}

/// Two lists with rising anchors that hold the same actions are one list.
pub proof fn lemma_strictly_sorted_same(s: Seq<ActionView>, t: Seq<ActionView>)
    requires
        strictly_sorted(s),
        strictly_sorted(t),
        all_among(s, t),
        all_among(t, s),
    ensures
        s == t,
    decreases s.len(),
{
    if s.len() == 0 {
        if t.len() > 0 {
            assert(s.contains(t[0]));
        }
        assert(s =~= t);
    } else {
        assert(t.contains(s[0]));
        let j = choose|j: int| 0 <= j < t.len() && t[j] == s[0];
        assert(s.contains(t[0]));
        let i = choose|i: int| 0 <= i < s.len() && s[i] == t[0];
        if i > 0 {
            assert(s[0].anchor < s[i].anchor);
        }
        if j > 0 {
            assert(t[0].anchor < t[j].anchor);
        }
        assert(s[0] == t[0]);
        let s1 = s.skip(1);
        let t1 = t.skip(1);
        assert(strictly_sorted(s1)) by {
            assert forall|a: int, b: int| 0 <= a < b < s1.len() implies (#[trigger] s1[a]).anchor
                < (#[trigger] s1[b]).anchor by {
                assert(s1[a] == s[a + 1]);
                assert(s1[b] == s[b + 1]);
            }
        }
        assert(strictly_sorted(t1)) by {
            assert forall|a: int, b: int| 0 <= a < b < t1.len() implies (#[trigger] t1[a]).anchor
                < (#[trigger] t1[b]).anchor by {
                assert(t1[a] == t[a + 1]);
                assert(t1[b] == t[b + 1]);
            }
        }
        assert(all_among(s1, t1)) by {
            assert forall|k: int| 0 <= k < s1.len() implies t1.contains(#[trigger] s1[k]) by {
                assert(s1[k] == s[k + 1]);
                assert(t.contains(s[k + 1]));
                let m = choose|m: int| 0 <= m < t.len() && t[m] == s[k + 1];
                assert(s[0].anchor < s[k + 1].anchor);
                assert(m > 0);
                assert(t1[m - 1] == s1[k]);
            }
        }
        assert(all_among(t1, s1)) by {
            assert forall|k: int| 0 <= k < t1.len() implies s1.contains(#[trigger] t1[k]) by {
                assert(t1[k] == t[k + 1]);
                assert(s.contains(t[k + 1]));
                let m = choose|m: int| 0 <= m < s.len() && s[m] == t[k + 1];
                assert(t[0].anchor < t[k + 1].anchor);
                assert(m > 0);
                assert(s1[m - 1] == t1[k]);
            }
        }
        lemma_strictly_sorted_same(s1, t1);
        assert(s =~= seq![s[0]] + s1);
        assert(t =~= seq![t[0]] + t1);
    }
}

/// Two lists of the same actions, no two of which have one anchor, are one
/// list once sorted.
pub proof fn lemma_sort_same(p: Seq<ActionView>, q: Seq<ActionView>)
    requires
        distinct_anchors(p),
        distinct_anchors(q),
        all_among(p, q),
        all_among(q, p),
    ensures
        sort_spec(p) == sort_spec(q),
{
    lemma_sort_strict(p);
    lemma_sort_strict(q);
    lemma_sort_elements(p);
    lemma_sort_elements(q);
    let sp = sort_spec(p);
    let sq = sort_spec(q);
    assert(all_among(sp, sq)) by {
        assert forall|k: int| 0 <= k < sp.len() implies sq.contains(#[trigger] sp[k]) by {
            assert(p.contains(sp[k]));
            let u = choose|u: int| 0 <= u < p.len() && p[u] == sp[k];
            assert(q.contains(p[u]));
            let v = choose|v: int| 0 <= v < q.len() && q[v] == p[u];
            assert(sq.contains(q[v]));
        }
    }
    assert(all_among(sq, sp)) by {
        assert forall|k: int| 0 <= k < sq.len() implies sp.contains(#[trigger] sq[k]) by {
            assert(q.contains(sq[k]));
            let u = choose|u: int| 0 <= u < q.len() && q[u] == sq[k];
            assert(p.contains(q[u]));
            let v = choose|v: int| 0 <= v < p.len() && p[v] == q[u];
            assert(sp.contains(p[v]));
        }
    }
    lemma_strictly_sorted_same(sp, sq);
}

/// Two lists of the same hunks, no two of which begin at one line, make the
/// same text of any text they are applied to, whatever the order of each
/// list.
pub proof fn lemma_order_free(old_text: Seq<char>, p: Seq<HunkView>, q: Seq<HunkView>)
    requires
        distinct_hunk_anchors(p),
        distinct_hunk_anchors(q),
        all_among(p, q),
        all_among(q, p),
    ensures
        apply_text_spec(old_text, p) == apply_text_spec(old_text, q),
{
    let dp = decode_all_spec(p);
    let dq = decode_all_spec(q);
    assert(distinct_anchors(dp));
    assert(distinct_anchors(dq));
    assert(all_among(dp, dq)) by {
        assert forall|i: int| 0 <= i < dp.len() implies dq.contains(#[trigger] dp[i]) by {
            assert(q.contains(p[i]));
            let v = choose|v: int| 0 <= v < q.len() && q[v] == p[i];
            assert(dq[v] == dp[i]);
        }
    }
    assert(all_among(dq, dp)) by {
        assert forall|i: int| 0 <= i < dq.len() implies dp.contains(#[trigger] dq[i]) by {
            assert(p.contains(q[i]));
            let v = choose|v: int| 0 <= v < p.len() && p[v] == q[i];
            assert(dp[v] == dq[i]);
        }
    }
    lemma_sort_same(dp, dq);
}

} // verus!
