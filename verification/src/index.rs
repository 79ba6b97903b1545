//! The snapshot index: for each tracked file, the hash of its content at the
//! time of the snapshot.

use crate::hash::{content_hash, hash_spec};
use vstd::prelude::*;

verus! {

/// What is known of one checkpoint.
#[derive(Debug)]
pub struct IndexEntry {
    /// When the checkpoint was taken, in seconds since the Unix epoch.
    pub instant: i64,
}

/// The index of a snapshot.
#[derive(Debug)]
pub struct Index {
    /// The latest checkpoint, if there is one.
    pub latest: Option<String>,
    /// The checkpoints, by their names.
    pub entries: Vec<(String, IndexEntry)>,
    /// Each tracked file's path with the hash of its content. No path
    /// occurs twice.
    pub files: Vec<(String, String)>,
}

/// What the files of an index stand for, in their order.
pub open spec fn files_of(v: Seq<(String, String)>) -> Seq<(Seq<char>, Seq<char>)> {
    v.map_values(|e: (String, String)| (e.0@, e.1@))
}

/// No key occurs twice.
pub open spec fn keys_distinct<V>(pairs: Seq<(Seq<char>, V)>) -> bool {
    forall|i: int, j: int|
        0 <= i < j < pairs.len() ==> (#[trigger] pairs[i]).0 != (#[trigger] pairs[j]).0
}

/// Whether `key` occurs in `pairs`.
pub open spec fn has_key<V>(pairs: Seq<(Seq<char>, V)>, key: Seq<char>) -> bool {
    exists|i: int| 0 <= i < pairs.len() && (#[trigger] pairs[i]).0 == key
}

/// An index at which `key` occurs in `pairs`, if it occurs.
pub open spec fn key_index<V>(pairs: Seq<(Seq<char>, V)>, key: Seq<char>) -> int {
    choose|i: int| 0 <= i < pairs.len() && (#[trigger] pairs[i]).0 == key
}

/// The mapping that `pairs` stands for: each key to the value beside it.
pub open spec fn map_of<V>(pairs: Seq<(Seq<char>, V)>) -> Map<Seq<char>, V> {
    Map::new(|k: Seq<char>| has_key(pairs, k), |k: Seq<char>| pairs[key_index(pairs, k)].1)
}

/// `pairs` with `value` under `key`: in the place of the pair that has the
/// key, or at the end if none has it.
pub open spec fn put_spec<V>(pairs: Seq<(Seq<char>, V)>, key: Seq<char>, value: V) -> Seq<
    (Seq<char>, V),
> {
    if has_key(pairs, key) {
        pairs.update(key_index(pairs, key), (key, value))
    } else {
        pairs.push((key, value))
    }
}

/// Putting a value under a key keeps the keys distinct and changes the
/// mapping at that key alone.
pub proof fn lemma_put<V>(pairs: Seq<(Seq<char>, V)>, key: Seq<char>, value: V)
    requires
        keys_distinct(pairs),
    ensures
        keys_distinct(put_spec(pairs, key, value)),
        map_of(put_spec(pairs, key, value)) == map_of(pairs).insert(key, value),
{
    let after = put_spec(pairs, key, value);
    if has_key(pairs, key) {
        let at = key_index(pairs, key);
        assert forall|i: int, j: int| 0 <= i < j < after.len() implies (#[trigger] after[i]).0 != (
        #[trigger] after[j]).0 by {
            assert(after[i].0 == pairs[i].0);
            assert(after[j].0 == pairs[j].0);
        }
        assert forall|k: Seq<char>| has_key(after, k) == (has_key(pairs, k) || k == key) by {
            if has_key(after, k) {
                let i = key_index(after, k);
                assert(pairs[i].0 == k);
            }
            if has_key(pairs, k) {
                let i = key_index(pairs, k);
                assert(after[i].0 == k);
            }
        }
        assert forall|k: Seq<char>| has_key(after, k) implies #[trigger] map_of(after)[k] == map_of(
            pairs,
        ).insert(key, value)[k] by {
            let i = key_index(after, k);
            assert(pairs[i].0 == k);
            if k == key {
                assert(i == at) by {
                    if i < at {
                        assert(pairs[i].0 != pairs[at].0);
                    } else if at < i {
                        assert(pairs[at].0 != pairs[i].0);
                    }
                }
            } else {
                let j = key_index(pairs, k);
                assert(i == j) by {
                    if i < j {
                        assert(pairs[i].0 != pairs[j].0);
                    } else if j < i {
                        assert(pairs[j].0 != pairs[i].0);
                    }
                }
            }
        }
        assert(map_of(after) =~= map_of(pairs).insert(key, value));
    } else {
        assert forall|i: int, j: int| 0 <= i < j < after.len() implies (#[trigger] after[i]).0 != (
        #[trigger] after[j]).0 by {
            if j == pairs.len() {
                assert(after[i] == pairs[i]);
            } else {
                assert(after[i] == pairs[i]);
                assert(after[j] == pairs[j]);
            }
        }
        assert forall|k: Seq<char>| has_key(after, k) == (has_key(pairs, k) || k == key) by {
            if has_key(after, k) {
                let i = key_index(after, k);
                if i < pairs.len() {
                    assert(pairs[i].0 == k);
                }
            }
            if has_key(pairs, k) {
                let i = key_index(pairs, k);
                assert(after[i].0 == k);
            }
            if k == key {
                assert(after[pairs.len() as int].0 == k);
            }
        }
        assert forall|k: Seq<char>| has_key(after, k) implies #[trigger] map_of(after)[k] == map_of(
            pairs,
        ).insert(key, value)[k] by {
            let i = key_index(after, k);
            if k == key {
                if i < pairs.len() {
                    assert(pairs[i].0 == key);
                }
            } else {
                assert(i < pairs.len());
                assert(pairs[i].0 == k);
                let j = key_index(pairs, k);
                assert(i == j) by {
                    if i < j {
                        assert(pairs[i].0 != pairs[j].0);
                    } else if j < i {
                        assert(pairs[j].0 != pairs[i].0);
                    }
                }
            }
        }
        assert(map_of(after) =~= map_of(pairs).insert(key, value));
    }
}

/// The place of `key` among the paths of `files`, if it is there.
pub fn find_path(files: &Vec<(String, String)>, key: &str) -> (found: Option<usize>)
    ensures
        found is Some == has_key(files_of(files@), key@),
        found matches Some(i) ==> i < files.len() && files_of(files@)[i as int].0 == key@,
{
    let mut i: usize = 0;
    while i < files.len()
        invariant
            i <= files.len(),
            forall|k: int| 0 <= k < i ==> (#[trigger] files_of(files@)[k]).0 != key@,
        decreases files.len() - i,
    {
        assert(files_of(files@)[i as int].0 == files@[i as int].0@);
        if crate::hash::same_text(files[i].0.as_str(), key) {
            return Some(i);
        }
        i += 1;
    }
    None
}

impl Index {
    /// What the paths of the index map to.
    pub open spec fn files_map(&self) -> Map<Seq<char>, Seq<char>> {
        map_of(files_of(self.files@))
    }

    /// Whether no path occurs twice.
    pub open spec fn wf(&self) -> bool {
        keys_distinct(files_of(self.files@))
    }

    /// The index of a snapshot that tracks no file: no checkpoint, no file.
    pub fn new() -> (index: Index)
        ensures
            index.wf(),
            index.latest is None,
            index.entries@.len() == 0,
            index.files@.len() == 0,
            index.files_map() == Map::<Seq<char>, Seq<char>>::empty(),
    {
        let index = Index { latest: None, entries: Vec::new(), files: Vec::new() };
        assert(index.files_map() =~= Map::<Seq<char>, Seq<char>>::empty());
        index
    }

    /// Records `hash` as the hash of the file at `path`, in the place of an
    /// earlier record of that path or as a new one.
    pub fn record(&mut self, path: String, hash: String)
        requires
            old(self).wf(),
        ensures
            final(self).wf(),
            files_of(final(self).files@) == put_spec(files_of(old(self).files@), path@, hash@),
            final(self).files_map() == old(self).files_map().insert(path@, hash@),
            final(self).latest == old(self).latest,
            final(self).entries == old(self).entries,
    {
        let ghost before = files_of(self.files@);
        proof {
            lemma_put(before, path@, hash@);
        }
        match find_path(&self.files, path.as_str()) {
            Some(i) => {
                proof {
                    let at = key_index(before, path@);
                    assert(at == i) by {
                        if at < i {
                            assert(before[at].0 != before[i as int].0);
                        } else if i < at {
                            assert(before[i as int].0 != before[at].0);
                        }
                    }
                    assert(files_of(self.files@.update(i as int, (path, hash))) =~= before.update(
                        i as int,
                        (path@, hash@),
                    ));
                }
                self.files.set(i, (path, hash));
            },
            None => {
                proof {
                    assert(files_of(self.files@.push((path, hash))) =~= before.push(
                        (path@, hash@),
                    ));
                }
                self.files.push((path, hash));
            },
        }
    }

    /// Records the file at `path` with the content `content`: its hash.
    pub fn record_file(&mut self, path: String, content: &[u8])
        requires
            old(self).wf(),
        ensures
            final(self).wf(),
            files_of(final(self).files@) == put_spec(
                files_of(old(self).files@),
                path@,
                hash_spec(content@),
            ),
            final(self).files_map() == old(self).files_map().insert(path@, hash_spec(content@)),
            final(self).latest == old(self).latest,
            final(self).entries == old(self).entries,
    {
        let hash = content_hash(content);
        self.record(path, hash);
    }

    /// The index of a snapshot whose walk saw the files `seen`, each a path
    /// with the file's content: no checkpoint, and each file recorded in the
    /// order the walk saw it.
    pub fn snapshot(seen: &Vec<(String, Vec<u8>)>) -> (index: Index)
        ensures
            index.wf(),
            index.latest is None,
            index.entries@.len() == 0,
            files_of(index.files@) == snapshot_spec(seen_of(seen@)),
    {
        let mut index = Index::new();
        let mut i: usize = 0;
        let ghost all = seen_of(seen@);
        assert(files_of(index.files@) =~= Seq::<(Seq<char>, Seq<char>)>::empty());
        assert(all.take(0) =~= Seq::<(Seq<char>, Seq<u8>)>::empty());
        while i < seen.len()
            invariant
                i <= seen.len(),
                all == seen_of(seen@),
                index.wf(),
                index.latest is None,
                index.entries@.len() == 0,
                files_of(index.files@) == snapshot_spec(all.take(i as int)),
            decreases seen.len() - i,
        {
            proof {
                assert(all.take(i + 1).drop_last() =~= all.take(i as int));
                assert(all.take(i + 1).last() == (seen@[i as int].0@, seen@[i as int].1@));
            }
            index.record_file(seen[i].0.clone(), seen[i].1.as_slice());
            i += 1;
        }
        assert(all.take(i as int) =~= all);
        index
    }

    /// The hash recorded for the file at `path`, if one is.
    pub fn hash_of(&self, path: &str) -> (hash: Option<&String>)
        requires
            self.wf(),
        ensures
            hash is Some == self.files_map().dom().contains(path@),
            hash matches Some(h) ==> h@ == self.files_map()[path@],
    {
        match find_path(&self.files, path) {
            Some(i) => {
                proof {
                    let pairs = files_of(self.files@);
                    let at = key_index(pairs, path@);
                    assert(at == i) by {
                        if at < i {
                            assert(pairs[at].0 != pairs[i as int].0);
                        } else if i < at {
                            assert(pairs[i as int].0 != pairs[at].0);
                        }
                    }
                    assert(pairs[i as int].1 == self.files@[i as int].1@);
                }
                Some(&self.files[i].1)
            },
            None => None,
        }
    }
}

/// What the files that a walk saw stand for: each path with its content.
pub open spec fn seen_of(v: Seq<(String, Vec<u8>)>) -> Seq<(Seq<char>, Seq<u8>)> {
    v.map_values(|e: (String, Vec<u8>)| (e.0@, e.1@))
}

/// The files that a walk saw, recorded one after another into `pairs`.
pub open spec fn record_all_spec(
    pairs: Seq<(Seq<char>, Seq<char>)>,
    seen: Seq<(Seq<char>, Seq<u8>)>,
) -> Seq<(Seq<char>, Seq<char>)>
    decreases seen.len(),
{
    if seen.len() == 0 {
        pairs
    } else {
        put_spec(
            record_all_spec(pairs, seen.drop_last()),
            seen.last().0,
            hash_spec(seen.last().1),
        )
    }
}

/// The files of the index of a snapshot whose walk saw `seen`.
pub open spec fn snapshot_spec(seen: Seq<(Seq<char>, Seq<u8>)>) -> Seq<(Seq<char>, Seq<char>)> {
    record_all_spec(Seq::empty(), seen)
}

/// A snapshot maps just the paths that its walk saw, each to the hash of
/// the content that the walk saw there last.
pub proof fn lemma_snapshot_map(seen: Seq<(Seq<char>, Seq<u8>)>)
    ensures
        keys_distinct(snapshot_spec(seen)),
        forall|k: Seq<char>| #[trigger]
            map_of(snapshot_spec(seen)).dom().contains(k) == has_key(seen, k),
        forall|i: int|
            0 <= i < seen.len() && (forall|j: int| i < j < seen.len() ==> seen[j].0 != seen[i].0)
                ==> map_of(snapshot_spec(seen))[(#[trigger] seen[i]).0] == hash_spec(seen[i].1),
    decreases seen.len(),
{
    let result = snapshot_spec(seen);
    if seen.len() == 0 {
        assert forall|k: Seq<char>| #[trigger]
            map_of(result).dom().contains(k) == has_key(seen, k) by {
            if has_key(result, k) {
                let i = key_index(result, k);
            }
            if has_key(seen, k) {
                let i = key_index(seen, k);
            }
        }
    } else {
        let before = seen.drop_last();
        let last = seen.last();
        lemma_snapshot_map(before);
        lemma_put(snapshot_spec(before), last.0, hash_spec(last.1));
        assert forall|k: Seq<char>| #[trigger]
            map_of(result).dom().contains(k) == has_key(seen, k) by {
            if has_key(seen, k) {
                let i = key_index(seen, k);
                if i < before.len() {
                    assert(before[i].0 == k);
                }
            }
            if has_key(before, k) {
                let i = key_index(before, k);
                assert(seen[i].0 == k);
            }
            if k == last.0 {
                assert(seen[seen.len() - 1].0 == k);
            }
            assert(map_of(snapshot_spec(before)).dom().contains(k) == has_key(before, k));
        }
        assert forall|i: int|
            0 <= i < seen.len() && (forall|j: int|
                i < j < seen.len() ==> seen[j].0 != seen[i].0) implies map_of(result)[(
        #[trigger] seen[i]).0] == hash_spec(seen[i].1) by {
            if i < before.len() {
                assert(before[i] == seen[i]);
                assert(seen[seen.len() - 1].0 != seen[i].0);
                assert forall|j: int| i < j < before.len() implies before[j].0 != before[i].0 by {
                    assert(before[j] == seen[j]);
                }
            }
        }
    }
}

/// Two walks that saw the same files, each once, in whatever order, give
/// the same mapping from paths to hashes.
pub proof fn lemma_snapshot_same(p: Seq<(Seq<char>, Seq<u8>)>, q: Seq<(Seq<char>, Seq<u8>)>)
    requires
        keys_distinct(p),
        keys_distinct(q),
        forall|i: int| 0 <= i < p.len() ==> q.contains(#[trigger] p[i]),
        forall|i: int| 0 <= i < q.len() ==> p.contains(#[trigger] q[i]),
    ensures
        map_of(snapshot_spec(p)) == map_of(snapshot_spec(q)),
{
    lemma_snapshot_map(p);
    lemma_snapshot_map(q);
    let mp = map_of(snapshot_spec(p));
    let mq = map_of(snapshot_spec(q));
    assert forall|k: Seq<char>| mp.dom().contains(k) == mq.dom().contains(k) by {
        if has_key(p, k) {
            let i = key_index(p, k);
            assert(q.contains(p[i]));
            let j = choose|j: int| 0 <= j < q.len() && q[j] == p[i];
            assert(q[j].0 == k);
        }
        if has_key(q, k) {
            let i = key_index(q, k);
            assert(p.contains(q[i]));
            let j = choose|j: int| 0 <= j < p.len() && p[j] == q[i];
            assert(p[j].0 == k);
        }
        assert(mp.dom().contains(k) == has_key(p, k));
        assert(mq.dom().contains(k) == has_key(q, k));
    }
    assert forall|k: Seq<char>| mp.dom().contains(k) implies mp[k] == mq[k] by {
        assert(has_key(p, k));
        let i = key_index(p, k);
        assert(q.contains(p[i]));
        let j = choose|j: int| 0 <= j < q.len() && q[j] == p[i];
        assert(mp[p[i].0] == hash_spec(p[i].1));
        assert(mq[q[j].0] == hash_spec(q[j].1));
    }
    assert(mp =~= mq);
}

} // verus!
