use qop::apply::apply;
use qop::changes::{diff, FileTexts};
use qop::diff::{
    add_file_diff, check_script, diff_file, diff_lines, diff_texts, encode_hunk, hunks_of_ops,
    hunks_of_script, DiffError, EditOp,
};
use qop::hash::text_hash;
use qop::index::Index;
use qop::patch::{Patch, PatchFileHunk};
use qop::reverse::reverse_hunks;
use qop::text::split_lines;

fn strings(items: &[&str]) -> Vec<String> {
    items.iter().map(|s| s.to_string()).collect()
}

fn shape(hunks: &[PatchFileHunk]) -> Vec<((usize, usize), (usize, usize), String)> {
    hunks.iter().map(|h| (h.old_range, h.new_range, h.diff.clone())).collect()
}

#[test]
fn scenario_edit_of_three_lines() {
    let stored = "one\ntwo\nthree\n";
    let working = "one\nTWO\nthree\nfour\n";
    let hunks = diff_texts(stored, working).unwrap();
    assert_eq!(
        shape(&hunks),
        vec![
            ((1, 2), (1, 2), "-two\n+TWO\n".to_string()),
            ((3, 3), (3, 4), "+four\n".to_string()),
        ]
    );
    assert_eq!(apply(stored, &hunks), working);
    assert_eq!(apply(working, &reverse_hunks(&hunks)), stored);
}

#[test]
fn scenario_edit_without_final_newline() {
    let stored = "one\ntwo\nthree";
    let working = "one\nTWO\nthree\nfour";
    let hunks = diff_texts(stored, working).unwrap();
    assert_eq!(apply(stored, &hunks), working);
    assert_eq!(apply(working, &reverse_hunks(&hunks)), stored);
}

#[test]
fn diff_of_equal_texts_has_no_hunks() {
    assert!(diff_texts("a\nb\n", "a\nb\n").unwrap().is_empty());
    assert!(diff_texts("", "").unwrap().is_empty());
}

#[test]
fn diff_from_and_to_the_empty_text() {
    let hunks = diff_texts("", "a\nb\n").unwrap();
    assert_eq!(shape(&hunks), vec![((0, 0), (0, 2), "+a\n+b\n".to_string())]);
    let hunks = diff_texts("a\nb\n", "").unwrap();
    assert_eq!(shape(&hunks), vec![((0, 2), (0, 0), "-a\n-b\n".to_string())]);
}

#[test]
fn round_trip_over_many_pairs() {
    let texts = [
        "",
        "a",
        "a\nb\nc",
        "a\nx\nc",
        "x\na\nb\nc\ny",
        "b",
        "c\nb\na",
        "a\na\na\nb\na\na",
        "a\n\n\nb",
        "one\ntwo\nthree\nfour\nfive\nsix\nseven",
        "one\n2\nthree\nfour\n5\nsix\nseven\neight",
        "-a\n+b\n c",
        "+b\n-a",
    ];
    for old in texts {
        for new in texts {
            let hunks = diff_texts(old, new).unwrap();
            assert_eq!(apply(old, &hunks), new, "{old:?} -> {new:?}");
            assert_eq!(apply(new, &reverse_hunks(&hunks)), old, "{new:?} -> {old:?}");
            let mut shuffled = hunks.clone();
            shuffled.reverse();
            assert_eq!(apply(old, &shuffled), new, "{old:?} -> {new:?}, hunks reversed");
        }
    }
}

#[test]
fn round_trip_over_more_than_a_hundred_lines() {
    let old: Vec<String> = (0..300).map(|i| format!("line {i}")).collect();
    let mut new = old.clone();
    new[7] = "changed".to_string();
    new.remove(150);
    new.insert(222, "added".to_string());
    new.push("last".to_string());
    let old_text = old.join("\n");
    let new_text = new.join("\n");
    let hunks = diff_texts(&old_text, &new_text).unwrap();
    assert_eq!(hunks.len(), 4);
    assert_eq!(apply(&old_text, &hunks), new_text);
    assert_eq!(apply(&new_text, &reverse_hunks(&hunks)), old_text);
}

#[test]
fn hunks_begin_at_rising_lines() {
    let hunks = diff_texts("a\nb\nc\nd\ne\nf\n", "b\nc\nX\ne\nf\nY\n").unwrap();
    let anchors: Vec<usize> = hunks.iter().map(|h| h.new_range.0).collect();
    let mut sorted = anchors.clone();
    sorted.sort();
    sorted.dedup();
    assert_eq!(anchors, sorted);
}

#[test]
fn diff_lines_agrees_with_diff_texts() {
    let old = strings(&["a", "b"]);
    let new = strings(&["a", "c"]);
    let hunks = diff_lines(&old, &new).unwrap();
    assert_eq!(shape(&hunks), vec![((1, 2), (1, 2), "-b\n+c\n".to_string())]);
    assert_eq!(shape(&hunks), shape(&diff_texts("a\nb", "a\nc").unwrap()));
}

#[test]
fn check_script_takes_a_script() {
    let old = strings(&["a", "b", "c"]);
    let new = strings(&["a", "x", "c", "d"]);
    let ops = vec![
        EditOp::Equal { old_index: 0, new_index: 0, len: 1 },
        EditOp::Replace { old_index: 1, old_len: 1, new_index: 1, new_len: 1 },
        EditOp::Equal { old_index: 2, new_index: 2, len: 1 },
        EditOp::Insert { old_index: 3, new_index: 3, new_len: 1 },
    ];
    assert!(check_script(&old, &new, &ops));
}

#[test]
fn check_script_refuses_what_is_no_script() {
    let old = strings(&["a", "b", "c"]);
    let new = strings(&["a", "x", "c", "d"]);
    // A gap.
    assert!(!check_script(
        &old,
        &new,
        &vec![
            EditOp::Equal { old_index: 0, new_index: 0, len: 1 },
            EditOp::Equal { old_index: 2, new_index: 2, len: 1 },
        ]
    ));
    // Stops short of the end.
    assert!(!check_script(&old, &new, &vec![EditOp::Equal { old_index: 0, new_index: 0, len: 1 }]));
    // Says equal what is not.
    assert!(!check_script(
        &old,
        &new,
        &vec![
            EditOp::Equal { old_index: 0, new_index: 0, len: 3 },
            EditOp::Insert { old_index: 3, new_index: 3, new_len: 1 },
        ]
    ));
    // Reaches beyond the end.
    assert!(!check_script(
        &old,
        &new,
        &vec![EditOp::Replace { old_index: 0, old_len: 4, new_index: 0, new_len: 4 }]
    ));
    // Lengths that overflow.
    assert!(!check_script(
        &old,
        &new,
        &vec![EditOp::Delete { old_index: 0, old_len: usize::MAX, new_index: 0 }]
    ));
    // No operation for texts that have lines.
    assert!(!check_script(&old, &new, &Vec::new()));
    assert!(check_script(&Vec::new(), &Vec::new(), &Vec::new()));
}

#[test]
fn hunks_of_ops_says_bad_script() {
    let old = strings(&["a"]);
    let new = strings(&["b"]);
    let bad = vec![EditOp::Equal { old_index: 0, new_index: 0, len: 1 }];
    assert!(matches!(hunks_of_ops(&old, &new, &bad), Err(DiffError::BadScript)));
    let good = vec![EditOp::Replace { old_index: 0, old_len: 1, new_index: 0, new_len: 1 }];
    let hunks = hunks_of_ops(&old, &new, &good).unwrap();
    assert_eq!(shape(&hunks), vec![((0, 1), (0, 1), "-a\n+b\n".to_string())]);
}

#[test]
fn hunks_of_script_joins_changes_that_touch() {
    let old = strings(&["a", "b", "c", "d"]);
    let new = strings(&["a", "x", "d", "y"]);
    let ops = vec![
        EditOp::Equal { old_index: 0, new_index: 0, len: 1 },
        EditOp::Delete { old_index: 1, old_len: 2, new_index: 1 },
        EditOp::Equal { old_index: 3, new_index: 1, len: 0 },
        EditOp::Insert { old_index: 3, new_index: 1, new_len: 1 },
        EditOp::Equal { old_index: 3, new_index: 2, len: 1 },
        EditOp::Insert { old_index: 4, new_index: 3, new_len: 1 },
    ];
    assert!(check_script(&old, &new, &ops));
    let hunks = hunks_of_script(&old, &new, &ops);
    assert_eq!(
        shape(&hunks),
        vec![
            ((1, 3), (1, 2), "-b\n-c\n+x\n".to_string()),
            ((4, 4), (3, 4), "+y\n".to_string()),
        ]
    );
    assert_eq!(apply("a\nb\nc\nd", &hunks), "a\nx\nd\ny");
}

#[test]
fn encode_hunk_marks_each_line() {
    let old = strings(&["a", "b", "c"]);
    let new = strings(&["x", "y"]);
    let h = encode_hunk(&old, 1, 3, &new, 0, 1);
    assert_eq!(h.old_range, (1, 3));
    assert_eq!(h.new_range, (0, 1));
    assert_eq!(h.diff, "-b\n-c\n+x\n");
    let empty = encode_hunk(&old, 2, 2, &new, 1, 1);
    assert_eq!(empty.diff, "");
}

#[test]
fn edit_op_getters() {
    let op = EditOp::Replace { old_index: 1, old_len: 2, new_index: 3, new_len: 4 };
    assert_eq!((op.old_index(), op.old_count(), op.new_index(), op.new_count()), (1, 2, 3, 4));
    assert!(!op.is_equal());
    let op = EditOp::Equal { old_index: 5, new_index: 6, len: 7 };
    assert_eq!((op.old_index(), op.old_count(), op.new_index(), op.new_count()), (5, 7, 6, 7));
    assert!(op.is_equal());
    let op = EditOp::Delete { old_index: 1, old_len: 2, new_index: 3 };
    assert_eq!((op.old_index(), op.old_count(), op.new_index(), op.new_count()), (1, 2, 3, 0));
    let op = EditOp::Insert { old_index: 1, new_index: 3, new_len: 4 };
    assert_eq!((op.old_index(), op.old_count(), op.new_index(), op.new_count()), (1, 0, 3, 4));
}

#[test]
fn diff_file_of_unchanged_file_is_nothing() {
    let text = "one\ntwo\n";
    let hash = text_hash(text);
    // The stored text is not looked at.
    assert!(diff_file("whatever", text, &hash, false).unwrap().is_none());
    assert!(diff_file("whatever", text, &hash, true).unwrap().is_none());
}

#[test]
fn diff_file_of_changed_file_has_hashes_and_hunks() {
    let stored = "one\ntwo\n";
    let working = "one\nTWO\n";
    let file = diff_file(stored, working, &text_hash(stored), false).unwrap().unwrap();
    assert_eq!(file.pre_hash, text_hash(stored));
    assert_eq!(file.post_hash, text_hash(working));
    assert_eq!(shape(&file.hunks), vec![((1, 2), (1, 2), "-two\n+TWO\n".to_string())]);
    assert_eq!(file.apply(stored), working);
}

#[test]
fn diff_file_reversed_leads_back_to_the_stored_text() {
    let stored = "one\ntwo\n";
    let working = "one\nTWO\nthree\n";
    let file = diff_file(stored, working, &text_hash(stored), true).unwrap().unwrap();
    assert_eq!(file.pre_hash, text_hash(stored));
    assert_eq!(file.post_hash, text_hash(working));
    assert_eq!(file.apply(working), stored);
}

#[test]
fn add_file_diff_adds_changed_files_only() {
    let mut patch = Patch::new();
    let same = "a\n";
    assert_eq!(add_file_diff(&mut patch, "./same", same, same, &text_hash(same), false).unwrap(), false);
    assert!(patch.files.is_empty());
    assert_eq!(add_file_diff(&mut patch, "./new", "a\n", "b\n", &text_hash("a\n"), false).unwrap(), true);
    assert_eq!(patch.files.len(), 1);
    assert_eq!(patch.files[0].0, "./new");
}

#[test]
fn diff_of_a_tree_leaves_unchanged_files_out() {
    let mut index = Index::new();
    index.record("./a.txt".to_string(), text_hash("one\ntwo\nthree\n"));
    index.record("./b.txt".to_string(), text_hash("same\n"));
    index.record("./c.txt".to_string(), text_hash("x"));
    let texts = vec![
        FileTexts { working: "one\nTWO\nthree\nfour\n".to_string(), stored: "one\ntwo\nthree\n".to_string() },
        FileTexts { working: "same\n".to_string(), stored: String::new() },
        FileTexts { working: "y".to_string(), stored: "x".to_string() },
    ];
    let patch = diff(&index, &texts, false).unwrap();
    let paths: Vec<&str> = patch.files.iter().map(|f| f.0.as_str()).collect();
    assert_eq!(paths, vec!["./a.txt", "./c.txt"]);
    assert_eq!(patch.files[0].1.apply("one\ntwo\nthree\n"), "one\nTWO\nthree\nfour\n");
    assert_eq!(patch.files[1].1.apply("x"), "y");

    let back = diff(&index, &texts, true).unwrap();
    assert_eq!(back.files.len(), 2);
    assert_eq!(back.files[0].1.apply("one\nTWO\nthree\nfour\n"), "one\ntwo\nthree\n");
}

#[test]
fn diff_of_an_empty_index_is_the_empty_patch() {
    let patch = diff(&Index::new(), &Vec::new(), false).unwrap();
    assert!(patch.files.is_empty());
}

#[test]
fn split_then_diff_lines_round_trip() {
    let old = split_lines("k\nl\nm\n");
    let new = split_lines("l\nm\nn\n");
    let hunks = diff_lines(&old, &new).unwrap();
    assert_eq!(apply("k\nl\nm\n", &hunks), "l\nm\nn\n");
}

#[test]
fn check_script_goes_by_the_side_an_operation_covers() {
    let old = strings(&["x", "a", "b", "c", "y"]);
    let new = strings(&["a", "a", "a", "b", "a", "a"]);
    let ops = vec![
        EditOp::Delete { old_index: 0, old_len: 1, new_index: 2 },
        EditOp::Equal { old_index: 1, new_index: 0, len: 1 },
        EditOp::Insert { old_index: 1, new_index: 1, new_len: 2 },
        EditOp::Equal { old_index: 2, new_index: 3, len: 1 },
        EditOp::Replace { old_index: 3, old_len: 2, new_index: 4, new_len: 2 },
    ];
    assert!(check_script(&old, &new, &ops));
    let hunks = hunks_of_script(&old, &new, &ops);
    assert_eq!(
        shape(&hunks),
        vec![
            ((0, 1), (0, 0), "-x\n".to_string()),
            ((2, 2), (1, 3), "+a\n+a\n".to_string()),
            ((3, 5), (4, 6), "-c\n-y\n+a\n+a\n".to_string()),
        ]
    );
    // A deletion that begins elsewhere in the old text is refused.
    let mut wrong = ops.clone();
    wrong[0] = EditOp::Delete { old_index: 1, old_len: 1, new_index: 0 };
    assert!(!check_script(&old, &new, &wrong));
}

#[test]
fn lines_fit_up_to_the_limit() {
    if usize::MAX > 0xffff_ffff {
        assert!(qop::diff::lines_fit(0xffff_ffff, 0));
        assert!(qop::diff::lines_fit(0xffff_0000, 0xffff));
        assert!(!qop::diff::lines_fit(0xffff_ffff, 1));
        assert!(!qop::diff::lines_fit(0, 0x1_0000_0000));
    }
    assert!(qop::diff::lines_fit(0, 0));
    assert!(qop::diff::lines_fit(1000, 2000));
    assert!(!qop::diff::lines_fit(usize::MAX, 1));
    assert!(!qop::diff::lines_fit(1, usize::MAX));
    assert!(!qop::diff::lines_fit(usize::MAX, usize::MAX));
}
