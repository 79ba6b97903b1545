use qop::apply::{apply, apply_actions, apply_patch, sort_actions};
use qop::patch::{decode_all, Action, Patch, PatchFile, PatchFileHunk};
use qop::reverse::{reverse, reverse_hunks, reverse_payload};

fn strings(items: &[&str]) -> Vec<String> {
    items.iter().map(|s| s.to_string()).collect()
}

fn hunk(old: (usize, usize), new: (usize, usize), diff: &str) -> PatchFileHunk {
    PatchFileHunk { old_range: old, new_range: new, diff: diff.to_string() }
}

fn action(anchor: usize, remove: &[&str], insert: &[&str]) -> Action {
    Action { anchor, remove: strings(remove), insert: strings(insert) }
}

fn same_action(a: &Action, anchor: usize, remove: &[&str], insert: &[&str]) {
    assert_eq!(a.anchor, anchor);
    assert_eq!(a.remove, strings(remove));
    assert_eq!(a.insert, strings(insert));
}

#[test]
fn decode_splits_the_payload_by_mark() {
    let a = hunk((1, 2), (1, 3), "-two\n+TWO\n+four\n").decode();
    same_action(&a, 1, &["two"], &["TWO", "four"]);
}

#[test]
fn decode_takes_the_anchor_from_the_new_range() {
    let a = hunk((7, 9), (4, 4), "-x\n-y\n").decode();
    same_action(&a, 4, &["x", "y"], &[]);
}

#[test]
fn decode_skips_entries_without_a_mark() {
    let a = hunk((0, 1), (0, 1), " kept\n-gone\n\n?\n+come").decode();
    same_action(&a, 0, &["gone"], &["come"]);
}

#[test]
fn decode_keeps_what_follows_the_mark() {
    let a = hunk((0, 2), (0, 2), "--\n++\n+\n-\n+ +x\n").decode();
    same_action(&a, 0, &["-", ""], &["+", "", " +x"]);
}

#[test]
fn decode_all_keeps_the_order() {
    let hunks = vec![hunk((5, 5), (5, 6), "+b\n"), hunk((0, 1), (0, 0), "-a\n")];
    let actions = decode_all(&hunks);
    assert_eq!(actions.len(), 2);
    same_action(&actions[0], 5, &[], &["b"]);
    same_action(&actions[1], 0, &["a"], &[]);
}

#[test]
fn sort_actions_orders_by_anchor() {
    let sorted = sort_actions(vec![
        action(9, &[], &["c"]),
        action(2, &[], &["a"]),
        action(5, &[], &["b"]),
    ]);
    let anchors: Vec<usize> = sorted.iter().map(|a| a.anchor).collect();
    assert_eq!(anchors, vec![2, 5, 9]);
    assert_eq!(sorted[0].insert, strings(&["a"]));
    assert_eq!(sorted[2].insert, strings(&["c"]));
}

#[test]
fn sort_actions_keeps_the_order_of_equal_anchors() {
    let sorted = sort_actions(vec![
        action(3, &[], &["first"]),
        action(1, &[], &["zero"]),
        action(3, &[], &["second"]),
        action(3, &[], &["third"]),
    ]);
    let inserted: Vec<String> = sorted.iter().map(|a| a.insert[0].clone()).collect();
    assert_eq!(inserted, strings(&["zero", "first", "second", "third"]));
}

#[test]
fn apply_actions_replaces_and_appends() {
    let old = strings(&["one", "two", "three"]);
    let actions = vec![action(1, &["two"], &["TWO"]), action(3, &[], &["four"])];
    assert_eq!(apply_actions(&old, &actions), strings(&["one", "TWO", "three", "four"]));
}

#[test]
fn apply_actions_counts_in_the_new_text() {
    let old = strings(&["a", "b", "c", "d", "e"]);
    // "a" goes, two lines come behind "b", "d" goes.
    let actions = vec![
        action(0, &["a"], &[]),
        action(1, &[], &["x", "y"]),
        action(4, &["d"], &[]),
    ];
    assert_eq!(apply_actions(&old, &actions), strings(&["b", "x", "y", "c", "e"]));
}

#[test]
fn apply_actions_without_actions_copies() {
    let old = strings(&["a", "b"]);
    assert_eq!(apply_actions(&old, &Vec::new()), old);
}

#[test]
fn apply_actions_stops_at_an_anchor_beyond_the_text() {
    let old = strings(&["a", "b"]);
    let actions = vec![
        action(1, &[], &["x"]),
        action(7, &["b"], &["never"]),
        action(8, &[], &["never either"]),
    ];
    assert_eq!(apply_actions(&old, &actions), strings(&["a", "x", "b"]));
}

#[test]
fn apply_actions_at_the_very_end_still_inserts() {
    let old = strings(&["a", "b"]);
    let actions = vec![action(2, &[], &["c"])];
    assert_eq!(apply_actions(&old, &actions), strings(&["a", "b", "c"]));
}

#[test]
fn apply_actions_removes_no_more_than_is_there() {
    let old = strings(&["a", "b"]);
    let actions = vec![action(1, &["b", "c", "d"], &["z"])];
    assert_eq!(apply_actions(&old, &actions), strings(&["a", "z"]));
}

#[test]
fn apply_actions_with_an_anchor_behind_the_cursor_copies_nothing() {
    let old = strings(&["a", "b", "c"]);
    let actions = vec![action(2, &[], &["x", "y"]), action(3, &["c"], &[])];
    // After the first action the output stands at line 4, so the second
    // removes at once.
    assert_eq!(apply_actions(&old, &actions), strings(&["a", "b", "x", "y"]));
}

#[test]
fn apply_actions_with_huge_anchor_and_insert_does_not_overflow() {
    let old = strings(&["a"]);
    let actions = vec![action(usize::MAX, &[], &["x"]), action(0, &[], &["y"])];
    assert_eq!(apply_actions(&old, &actions), strings(&["a"]));
    let actions = vec![action(0, &[], &["x"]), action(usize::MAX, &[], &["y"])];
    assert_eq!(apply_actions(&old, &actions), strings(&["x", "a"]));
}

#[test]
fn apply_keeps_a_final_newline() {
    let hunks = vec![hunk((1, 2), (1, 2), "-two\n+TWO\n")];
    assert_eq!(apply("one\ntwo\nthree\n", &hunks), "one\nTWO\nthree\n");
}

#[test]
fn apply_adds_no_final_newline() {
    let hunks = vec![hunk((1, 2), (1, 2), "-two\n+TWO\n")];
    assert_eq!(apply("one\ntwo\nthree", &hunks), "one\nTWO\nthree");
}

#[test]
fn apply_sorts_the_hunks_first() {
    let in_order = vec![hunk((1, 2), (1, 2), "-two\n+TWO\n"), hunk((3, 3), (3, 4), "+four\n")];
    let swapped = vec![hunk((3, 3), (3, 4), "+four\n"), hunk((1, 2), (1, 2), "-two\n+TWO\n")];
    let old = "one\ntwo\nthree\n";
    assert_eq!(apply(old, &in_order), "one\nTWO\nthree\nfour\n");
    assert_eq!(apply(old, &swapped), apply(old, &in_order));
}

#[test]
fn apply_without_hunks_changes_nothing() {
    for text in ["", "\n", "a", "a\nb\n", "a\r\nb"] {
        assert_eq!(apply(text, &Vec::new()), text);
    }
}

#[test]
fn patch_file_apply_is_apply_of_its_hunks() {
    let file = PatchFile {
        pre_hash: "p".to_string(),
        post_hash: "q".to_string(),
        hunks: vec![hunk((0, 1), (0, 1), "-a\n+b\n")],
    };
    assert_eq!(file.apply("a\nc\n"), "b\nc\n");
}

#[test]
fn reverse_payload_swaps_the_marks() {
    assert_eq!(reverse_payload("-two\n+TWO\n+four\n"), "+two\n-TWO\n-four");
    assert_eq!(reverse_payload(" kept\n+x"), " kept\n-x");
    assert_eq!(reverse_payload(""), "");
    assert_eq!(reverse_payload("+\n-\n"), "-\n+");
}

#[test]
fn reverse_hunk_swaps_the_ranges() {
    let r = hunk((1, 2), (4, 6), "-a\n+b\n+c\n").reverse();
    assert_eq!(r.old_range, (4, 6));
    assert_eq!(r.new_range, (1, 2));
    assert_eq!(r.diff, "+a\n-b\n-c");
}

#[test]
fn reverse_twice_decodes_as_before() {
    let h = hunk((1, 2), (4, 6), "-a\n+b\n+c\n");
    let back = h.reverse().reverse();
    assert_eq!(back.old_range, h.old_range);
    assert_eq!(back.new_range, h.new_range);
    let a = back.decode();
    same_action(&a, 4, &["a"], &["b", "c"]);
}

#[test]
fn reverse_hunks_undo_the_hunks() {
    let hunks = vec![hunk((1, 2), (1, 2), "-two\n+TWO\n"), hunk((3, 3), (3, 4), "+four\n")];
    let new = apply("one\ntwo\nthree\n", &hunks);
    assert_eq!(new, "one\nTWO\nthree\nfour\n");
    assert_eq!(apply(&new, &reverse_hunks(&hunks)), "one\ntwo\nthree\n");
}

#[test]
fn reverse_patch_keeps_paths_and_hashes() {
    let mut patch = Patch::new();
    patch.put(
        "./a.txt".to_string(),
        PatchFile {
            pre_hash: "pre".to_string(),
            post_hash: "post".to_string(),
            hunks: vec![hunk((0, 1), (0, 2), "-a\n+b\n+c\n")],
        },
    );
    let r = reverse(&patch);
    assert_eq!(r.files.len(), 1);
    assert_eq!(r.files[0].0, "./a.txt");
    assert_eq!(r.files[0].1.pre_hash, "pre");
    assert_eq!(r.files[0].1.post_hash, "post");
    assert_eq!(r.files[0].1.hunks[0].old_range, (0, 2));
    assert_eq!(r.files[0].1.hunks[0].new_range, (0, 1));
    assert_eq!(r.files[0].1.hunks[0].diff, "+a\n-b\n-c");
}

#[test]
fn patch_put_replaces_the_edits_of_a_path() {
    let mut patch = Patch::new();
    let file = |h: &str| PatchFile { pre_hash: h.to_string(), post_hash: h.to_string(), hunks: Vec::new() };
    patch.put("a".to_string(), file("1"));
    patch.put("b".to_string(), file("2"));
    patch.put("a".to_string(), file("3"));
    assert_eq!(patch.files.len(), 2);
    assert_eq!(patch.files[0].0, "a");
    assert_eq!(patch.files[0].1.pre_hash, "3");
    assert_eq!(patch.files[1].0, "b");
}

#[test]
fn apply_patch_gives_each_path_its_new_text() {
    let mut patch = Patch::new();
    patch.put(
        "./a.txt".to_string(),
        PatchFile {
            pre_hash: String::new(),
            post_hash: String::new(),
            hunks: vec![hunk((0, 1), (0, 1), "-a\n+b\n")],
        },
    );
    patch.put(
        "./c.txt".to_string(),
        PatchFile { pre_hash: String::new(), post_hash: String::new(), hunks: Vec::new() },
    );
    let written = apply_patch(&patch, &strings(&["a\nz\n", "same"]));
    assert_eq!(
        written,
        vec![
            ("./a.txt".to_string(), "b\nz\n".to_string()),
            ("./c.txt".to_string(), "same".to_string())
        ]
    );
}

#[test]
fn empty_patch_writes_nothing() {
    let written = apply_patch(&Patch::new(), &Vec::new());
    assert!(written.is_empty());
}

#[test]
fn hunk_clone_is_equal() {
    let h = hunk((1, 2), (3, 4), "+x\n");
    let c = h.clone();
    assert_eq!(c.old_range, (1, 2));
    assert_eq!(c.new_range, (3, 4));
    assert_eq!(c.diff, "+x\n");
}

#[test]
fn reverse_keeps_the_order_of_the_hunks() {
    let hunks = vec![hunk((1, 2), (1, 3), "-b\n+B\n+C\n"), hunk((4, 5), (5, 5), "-e\n")];
    let reversed = reverse_hunks(&hunks);
    assert_eq!(reversed.len(), 2);
    assert_eq!((reversed[0].old_range, reversed[0].new_range), ((1, 3), (1, 2)));
    assert_eq!((reversed[1].old_range, reversed[1].new_range), ((5, 5), (4, 5)));
    assert!(reversed[0].new_range.0 < reversed[1].new_range.0);
    assert!(reversed[0].old_range.0 < reversed[1].old_range.0);
}

#[test]
fn reverse_of_the_empty_patch_is_empty() {
    assert!(reverse(&Patch::new()).files.is_empty());
}
