//! The patch of a whole tree against its snapshot.
//!
//! Each tracked file is taken in the order of the index. A file whose
//! working copy has the stored hash adds nothing to the patch, and its
//! stored text is not looked at. The first file for which no hunks can be
//! made ends the run with its error.

use crate::diff::{add_file_diff, diff_file_spec, file_ops_spec, DiffError};
use crate::hash::text_hash_spec;
use crate::index::{
    files_of, has_key, key_index, keys_distinct, lemma_put, map_of, put_spec, Index,
};
use crate::patch::{Patch, PatchFileView};
use vstd::prelude::*;

verus! {

/// The working text and the stored text of one tracked file.
#[derive(Debug)]
pub struct FileTexts {
    /// The text of the working copy.
    pub working: String,
    /// The text of the stored copy. It is read only where the working copy
    /// does not have the stored hash.
    pub stored: String,
}

/// What a [`FileTexts`] stands for: the working text, then the stored text.
pub open spec fn texts_of(v: Seq<FileTexts>) -> Seq<(Seq<char>, Seq<char>)> {
    v.map_values(|t: FileTexts| (t.working@, t.stored@))
}

/// What the edits of the file `files[i]` are, with the texts `texts[i]`.
pub open spec fn file_diff_at(
    files: Seq<(Seq<char>, Seq<char>)>,
    texts: Seq<(Seq<char>, Seq<char>)>,
    reverse: bool,
    i: int,
) -> Result<Option<PatchFileView>, DiffError> {
    diff_file_spec(
        file_ops_spec(texts[i].1, texts[i].0, reverse),
        texts[i].1,
        texts[i].0,
        files[i].1,
        reverse,
    )
}

/// The patch of the tracked files `files`, each a path with its stored
/// hash, whose texts are `texts`.
pub open spec fn diff_spec(
    files: Seq<(Seq<char>, Seq<char>)>,
    texts: Seq<(Seq<char>, Seq<char>)>,
    reverse: bool,
) -> Result<Seq<(Seq<char>, PatchFileView)>, DiffError>
    decreases files.len(),
{
    if files.len() == 0 {
        Ok(Seq::empty())
    } else {
        match diff_spec(files.drop_last(), texts.drop_last(), reverse) {
            Err(e) => Err(e),
            Ok(patch) => match file_diff_at(files, texts, reverse, files.len() - 1) {
                Err(e) => Err(e),
                Ok(None) => Ok(patch),
                Ok(Some(file)) => Ok(put_spec(patch, files.last().0, file)),
            },
        }
    }
}

/// An error among the first files is the error of the whole run.
proof fn lemma_error_stays(
    files: Seq<(Seq<char>, Seq<char>)>,
    texts: Seq<(Seq<char>, Seq<char>)>,
    reverse: bool,
    n: int,
)
    requires
        files.len() == texts.len(),
        0 <= n <= files.len(),
        diff_spec(files.take(n), texts.take(n), reverse) is Err,
    ensures
        diff_spec(files, texts, reverse) == diff_spec(files.take(n), texts.take(n), reverse),
    decreases files.len() - n,
{
    if n < files.len() {
        let more_files = files.take(n + 1);
        let more_texts = texts.take(n + 1);
        assert(more_files.drop_last() =~= files.take(n));
        assert(more_texts.drop_last() =~= texts.take(n));
        lemma_error_stays(files, texts, reverse, n + 1);
    } else {
        assert(files.take(n) =~= files);
        assert(texts.take(n) =~= texts);
    }
}

/// A patch holds edits only for files whose working copy does not have the
/// stored hash.
pub proof fn lemma_patch_keys(
    files: Seq<(Seq<char>, Seq<char>)>,
    texts: Seq<(Seq<char>, Seq<char>)>,
    reverse: bool,
)
    requires
        files.len() == texts.len(),
        diff_spec(files, texts, reverse) is Ok,
    ensures
        keys_distinct(diff_spec(files, texts, reverse)->Ok_0),
        forall|k: Seq<char>| #[trigger]
            has_key(diff_spec(files, texts, reverse)->Ok_0, k) ==> exists|i: int|
                0 <= i < files.len() && (#[trigger] files[i]).0 == k && text_hash_spec(texts[i].0)
                    != files[i].1,
    decreases files.len(),
{
    let patch = diff_spec(files, texts, reverse)->Ok_0;
    if files.len() == 0 {
        assert forall|k: Seq<char>| #[trigger] has_key(patch, k) implies exists|i: int|
            0 <= i < files.len() && (#[trigger] files[i]).0 == k && text_hash_spec(texts[i].0)
                != files[i].1 by {
            let i = key_index(patch, k);
        }
    } else {
        let front = files.drop_last();
        let front_texts = texts.drop_last();
        lemma_patch_keys(front, front_texts, reverse);
        let before = diff_spec(front, front_texts, reverse)->Ok_0;
        let last = files.len() - 1;
        assert forall|k: Seq<char>| #[trigger] has_key(before, k) implies exists|i: int|
            0 <= i < files.len() && (#[trigger] files[i]).0 == k && text_hash_spec(texts[i].0)
                != files[i].1 by {
            let i = choose|i: int|
                0 <= i < front.len() && (#[trigger] front[i]).0 == k && text_hash_spec(
                    front_texts[i].0,
                ) != front[i].1;
            assert(files[i] == front[i]);
            assert(texts[i] == front_texts[i]);
        }
        match file_diff_at(files, texts, reverse, last) {
            Ok(Some(file)) => {
                lemma_put(before, files[last].0, file);
                assert forall|k: Seq<char>| #[trigger] has_key(patch, k) implies exists|i: int|
                    0 <= i < files.len() && (#[trigger] files[i]).0 == k && text_hash_spec(
                        texts[i].0,
                    ) != files[i].1 by {
                    let at = key_index(patch, k);
                    if has_key(before, k) {
                    } else {
                        assert(k == files[last].0) by {
                            if has_key(before, files[last].0) {
                                assert(before[at].0 == k);
                            } else if at < before.len() {
                                assert(before[at].0 == k);
                            }
                        }
                        assert(files[last].0 == k);
                    }
                }
            },
            _ => {},
        }
    }
}

/// A tracked file whose working copy has the stored hash has no edits in
/// the patch.
pub proof fn lemma_unmodified_absent(
    files: Seq<(Seq<char>, Seq<char>)>,
    texts: Seq<(Seq<char>, Seq<char>)>,
    reverse: bool,
    i: int,
)
    requires
        files.len() == texts.len(),
        keys_distinct(files),
        0 <= i < files.len(),
        text_hash_spec(texts[i].0) == files[i].1,
        diff_spec(files, texts, reverse) is Ok,
    ensures
        !has_key(diff_spec(files, texts, reverse)->Ok_0, files[i].0),
{
    lemma_patch_keys(files, texts, reverse);
    let patch = diff_spec(files, texts, reverse)->Ok_0;
    if has_key(patch, files[i].0) {
        let j = choose|j: int|
            0 <= j < files.len() && (#[trigger] files[j]).0 == files[i].0 && text_hash_spec(
                texts[j].0,
            ) != files[j].1;
        if j < i {
            assert(files[j].0 != files[i].0);
        } else if i < j {
            assert(files[i].0 != files[j].0);
        }
    }
}

/// A patch maps just the tracked files whose working copy does not have the
/// stored hash, each to the edits that the comparison gives for it.
pub proof fn lemma_patch_maps(
    files: Seq<(Seq<char>, Seq<char>)>,
    texts: Seq<(Seq<char>, Seq<char>)>,
    reverse: bool,
    i: int,
)
    requires
        files.len() == texts.len(),
        keys_distinct(files),
        0 <= i < files.len(),
        diff_spec(files, texts, reverse) is Ok,
    ensures
        ({
            let patch = map_of(diff_spec(files, texts, reverse)->Ok_0);
            match file_diff_at(files, texts, reverse, i) {
                Ok(Some(file)) => patch.dom().contains(files[i].0) && patch[files[i].0] == file,
                Ok(None) => !patch.dom().contains(files[i].0),
                Err(_) => false,
            }
        }),
    decreases files.len(),
{
    let front = files.drop_last();
    let front_texts = texts.drop_last();
    let last = files.len() - 1;
    let before = diff_spec(front, front_texts, reverse)->Ok_0;
    let patch = diff_spec(files, texts, reverse)->Ok_0;
    let key = files[i].0;
    assert(keys_distinct(front)) by {
        assert forall|a: int, b: int| 0 <= a < b < front.len() implies (#[trigger] front[a]).0 != (
        #[trigger] front[b]).0 by {
            assert(front[a] == files[a]);
            assert(front[b] == files[b]);
        }
    }
    lemma_patch_keys(front, front_texts, reverse);
    if i < last {
        lemma_patch_maps(front, front_texts, reverse, i);
        assert(front[i] == files[i]);
        assert(front_texts[i] == texts[i]);
        assert(files[last].0 != key);
        match file_diff_at(files, texts, reverse, last) {
            Ok(Some(file)) => {
                lemma_put(before, files[last].0, file);
            },
            _ => {},
        }
    } else {
        match file_diff_at(files, texts, reverse, last) {
            Ok(Some(file)) => {
                lemma_put(before, key, file);
            },
            _ => {
                if has_key(before, key) {
                    let j = choose|j: int|
                        0 <= j < front.len() && (#[trigger] front[j]).0 == key && text_hash_spec(
                            front_texts[j].0,
                        ) != front[j].1;
                    assert(front[j] == files[j]);
                    assert(files[j].0 != files[last].0);
                }
            },
        }
    }
}

/// Whether `result` is what `expected` says, the patch taken by its view;
/// no path of the patch occurs twice, and the edits of each file stand in
/// order.
pub open spec fn is_patch_result(
    result: Result<Patch, DiffError>,
    expected: Result<Seq<(Seq<char>, PatchFileView)>, DiffError>,
) -> bool {
    match result {
        Ok(patch) => expected == Ok::<Seq<(Seq<char>, PatchFileView)>, DiffError>(patch@)
            && patch.wf() && patch.in_order(),
        Err(e) => expected == Err::<Seq<(Seq<char>, PatchFileView)>, DiffError>(e),
    }
}

/// The patch of the tracked files of `index`, whose texts are `texts`, in
/// the order of the index.
pub fn diff(index: &Index, texts: &Vec<FileTexts>, reverse: bool) -> (result: Result<
    Patch,
    DiffError,
>)
    requires
        texts.len() == index.files.len(),
    ensures
        is_patch_result(result, diff_spec(files_of(index.files@), texts_of(texts@), reverse)),
{
    let ghost files = files_of(index.files@);
    let ghost all = texts_of(texts@);
    let mut patch = Patch::new();
    let mut i: usize = 0;
    proof {
        assert(files.take(0) =~= Seq::<(Seq<char>, Seq<char>)>::empty());
    }
    while i < index.files.len()
        invariant
            i <= index.files.len(),
            texts.len() == index.files.len(),
            files == files_of(index.files@),
            all == texts_of(texts@),
            patch.wf(),
            patch.in_order(),
            diff_spec(files.take(i as int), all.take(i as int), reverse) == Ok::<
                Seq<(Seq<char>, PatchFileView)>,
                DiffError,
            >(patch@),
        decreases index.files.len() - i,
    {
        let entry = &index.files[i];
        let t = &texts[i];
        proof {
            let more_files = files.take(i + 1);
            let more_texts = all.take(i + 1);
            assert(more_files.drop_last() =~= files.take(i as int));
            assert(more_texts.drop_last() =~= all.take(i as int));
            assert(more_files[i as int] == (entry.0@, entry.1@));
            assert(more_texts[i as int] == (t.working@, t.stored@));
        }
        let added = add_file_diff(
            &mut patch,
            entry.0.as_str(),
            t.stored.as_str(),
            t.working.as_str(),
            entry.1.as_str(),
            reverse,
        );
        match added {
            Ok(_) => {},
            Err(e) => {
                proof {
                    lemma_error_stays(files, all, reverse, i + 1);
                }
                return Err(e);
            },
        }
        i += 1;
    }
    proof {
        assert(files.take(i as int) =~= files);
        assert(all.take(i as int) =~= all);
    }
    Ok(patch)
}

} // verus!
