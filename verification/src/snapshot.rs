//! The walk of a snapshot, one directory at a time.
//!
//! For a directory that the walk has listed, `plan_directory` says which of
//! its entries the walk goes on to: those that the patterns in force do not
//! leave out. The caller reads the tree and does what the plan says; a
//! directory it enters gets a plan of its own, with the list of its manifest
//! put in force on top.

use crate::ignore::{
    components, components_spec, is_rooted, lemma_excluded_below, lemma_first_slash, parts_spec,
    stack_excludes, IgnoreStack,
};
use crate::text::{push_char, to_chars};
use vstd::prelude::*;

verus! {

/// One entry of a listed directory.
#[derive(Debug)]
pub struct DirEntry {
    /// The entry's name in its directory.
    pub name: String,
    /// Whether the entry is a directory.
    pub is_dir: bool,
}

/// One entry that the walk goes on to.
#[derive(Debug)]
pub struct Visit {
    /// The entry's path: its directory's path and its name.
    pub path: String,
    /// Whether the entry is a directory.
    pub is_dir: bool,
}

/// What a [`DirEntry`] stands for.
pub struct DirEntryView {
    pub name: Seq<char>,
    pub is_dir: bool,
}

/// What a [`Visit`] stands for.
pub struct VisitView {
    pub path: Seq<char>,
    pub is_dir: bool,
}

impl View for DirEntry {
    type V = DirEntryView;

    open spec fn view(&self) -> DirEntryView {
        DirEntryView { name: self.name@, is_dir: self.is_dir }
    }
}

impl View for Visit {
    type V = VisitView;

    open spec fn view(&self) -> VisitView {
        VisitView { path: self.path@, is_dir: self.is_dir }
    }
}

/// What a listing stands for.
pub open spec fn entries_of(v: Seq<DirEntry>) -> Seq<DirEntryView> {
    v.map_values(|e: DirEntry| e@)
}

/// What a plan stands for.
pub open spec fn visits_of(v: Seq<Visit>) -> Seq<VisitView> {
    v.map_values(|e: Visit| e@)
}

/// The path of `name` in the directory `dir`: `name` itself if it begins at
/// the root or `dir` is empty, else `dir`, a slash unless `dir` ends in one,
/// and `name`.
pub open spec fn child_path_spec(dir: Seq<char>, name: Seq<char>) -> Seq<char> {
    if is_rooted(name) || dir.len() == 0 {
        name
    } else if dir.last() == '/' {
        dir + name
    } else {
        dir + seq!['/'] + name
    }
}

/// The directory that holds the stored copies.
pub open spec fn store_root_spec() -> Seq<char> {
    "./.qop/store"@
}

/// Where the copy of the file at `path` is stored.
pub open spec fn store_path_spec(path: Seq<char>) -> Seq<char> {
    child_path_spec(store_root_spec(), path)
}

/// The plan for the listing `entries` of the directory `dir`: each entry
/// that `stack` does not leave out, in the order of the listing.
pub open spec fn visits_spec(
    dir: Seq<char>,
    entries: Seq<DirEntryView>,
    stack: Seq<Seq<Seq<Seq<char>>>>,
) -> Seq<VisitView>
    decreases entries.len(),
{
    if entries.len() == 0 {
        Seq::empty()
    } else {
        let before = visits_spec(dir, entries.drop_last(), stack);
        let e = entries.last();
        let path = child_path_spec(dir, e.name);
        if stack_excludes(stack, components_spec(path)) {
            before
        } else {
            before.push(VisitView { path, is_dir: e.is_dir })
        }
    }
}

/// The parts of two paths with a slash between them are the parts of the
/// one, then the parts of the other.
pub proof fn lemma_parts_join(a: Seq<char>, b: Seq<char>)
    ensures
        parts_spec(a + seq!['/'] + b) == parts_spec(a) + parts_spec(b),
    decreases a.len(),
{
    let whole = a + seq!['/'] + b;
    lemma_first_slash(a, 0);
    let n = crate::ignore::first_slash(a);
    assert forall|k: int| 0 <= k < n implies whole[k] != '/' by {
        assert(whole[k] == a[k]);
    }
    if n < a.len() {
        assert(whole[n] == a[n]);
    } else {
        assert(whole[n] == '/');
    }
    lemma_first_slash(whole, n);
    assert(whole.take(n) =~= a.take(n));
    if n < a.len() {
        assert(whole.skip(n + 1) =~= a.skip(n + 1) + seq!['/'] + b);
        lemma_parts_join(a.skip(n + 1), b);
        let head = a.take(n);
        if crate::ignore::counts(head) {
            assert(seq![head] + (parts_spec(a.skip(n + 1)) + parts_spec(b)) =~= (seq![head]
                + parts_spec(a.skip(n + 1))) + parts_spec(b));
        }
    } else {
        assert(whole.skip(n + 1) =~= b);
        assert(a.take(n) =~= a);
        if a.len() == 0 {
            assert(parts_spec(a) + parts_spec(b) =~= parts_spec(b));
        } else if crate::ignore::counts(a) {
            assert(parts_spec(a) =~= seq![a]);
        } else {
            assert(parts_spec(a) =~= Seq::<Seq<char>>::empty());
            assert(parts_spec(a) + parts_spec(b) =~= parts_spec(b));
        }
    }
}

/// A slash at the end of a path adds no part.
proof fn lemma_parts_trailing_slash(a: Seq<char>)
    ensures
        parts_spec(a + seq!['/']) == parts_spec(a),
{
    lemma_parts_join(a, Seq::<char>::empty());
    assert(a + seq!['/'] + Seq::<char>::empty() =~= a + seq!['/']);
    assert(parts_spec(a) + parts_spec(Seq::<char>::empty()) =~= parts_spec(a));
}

/// The components of an entry's path are those of its directory, then the
/// parts of its name.
pub proof fn lemma_child_components(dir: Seq<char>, name: Seq<char>)
    requires
        !is_rooted(name),
    ensures
        components_spec(child_path_spec(dir, name)) == components_spec(dir) + parts_spec(name),
{
    let child = child_path_spec(dir, name);
    if dir.len() == 0 {
        assert(parts_spec(dir) + parts_spec(name) =~= parts_spec(name));
    } else {
        assert(child[0] == dir[0]);
        if dir.last() == '/' {
            let front = dir.drop_last();
            assert(dir =~= front + seq!['/']);
            assert(child =~= front + seq!['/'] + name);
            lemma_parts_join(front, name);
            lemma_parts_trailing_slash(front);
        } else {
            lemma_parts_join(dir, name);
        }
        if is_rooted(dir) {
            assert(seq![seq!['/']] + (parts_spec(dir) + parts_spec(name)) =~= (seq![seq!['/']]
                + parts_spec(dir)) + parts_spec(name));
        }
    }
}

/// What is left out stays left out at any depth: where the patterns in
/// force leave a directory out, they leave out each entry of it, whatever
/// lists are put in force on top.
pub proof fn lemma_child_excluded(
    stack: Seq<Seq<Seq<Seq<char>>>>,
    deeper: Seq<Seq<Seq<Seq<char>>>>,
    dir: Seq<char>,
    name: Seq<char>,
)
    requires
        stack_excludes(stack, components_spec(dir)),
        !is_rooted(name),
    ensures
        stack_excludes(stack + deeper, components_spec(child_path_spec(dir, name))),
{
    lemma_child_components(dir, name);
    lemma_excluded_below(stack, deeper, components_spec(dir), parts_spec(name));
}

/// A plan holds no entry that the patterns in force leave out, and every
/// entry that they do not.
pub proof fn lemma_visits(
    dir: Seq<char>,
    entries: Seq<DirEntryView>,
    stack: Seq<Seq<Seq<Seq<char>>>>,
)
    ensures
        forall|i: int|
            0 <= i < visits_spec(dir, entries, stack).len() ==> !stack_excludes(
                stack,
                components_spec((#[trigger] visits_spec(dir, entries, stack)[i]).path),
            ),
        forall|k: int|
            0 <= k < entries.len() && !stack_excludes(
                stack,
                components_spec(child_path_spec(dir, (#[trigger] entries[k]).name)),
            ) ==> visits_spec(dir, entries, stack).contains(
                VisitView {
                    path: child_path_spec(dir, entries[k].name),
                    is_dir: entries[k].is_dir,
                },
            ),
    decreases entries.len(),
{
    let visits = visits_spec(dir, entries, stack);
    if entries.len() > 0 {
        let front = entries.drop_last();
        let before = visits_spec(dir, front, stack);
        lemma_visits(dir, front, stack);
        let e = entries.last();
        let path = child_path_spec(dir, e.name);
        assert forall|i: int| 0 <= i < visits.len() implies !stack_excludes(
            stack,
            components_spec((#[trigger] visits[i]).path),
        ) by {
            if i < before.len() {
                assert(visits[i] == before[i]);
            }
        }
        assert forall|k: int|
            0 <= k < entries.len() && !stack_excludes(
                stack,
                components_spec(child_path_spec(dir, (#[trigger] entries[k]).name)),
            ) implies visits.contains(
            VisitView { path: child_path_spec(dir, entries[k].name), is_dir: entries[k].is_dir },
        ) by {
            let v = VisitView {
                path: child_path_spec(dir, entries[k].name),
                is_dir: entries[k].is_dir,
            };
            if k < front.len() {
                assert(front[k] == entries[k]);
                assert(before.contains(v));
                let w = choose|w: int| 0 <= w < before.len() && before[w] == v;
                assert(visits[w] == v);
            } else {
                assert(visits[visits.len() - 1] == v);
            }
        }
    }
}

/// Nothing below a directory that is left out is ever planned: where the
/// patterns in force leave a directory out, a plan for a listing of it is
/// empty, whatever lists are put in force on top.
pub proof fn lemma_excluded_never_planned(
    stack: Seq<Seq<Seq<Seq<char>>>>,
    deeper: Seq<Seq<Seq<Seq<char>>>>,
    dir: Seq<char>,
    entries: Seq<DirEntryView>,
)
    requires
        stack_excludes(stack, components_spec(dir)),
        forall|k: int| 0 <= k < entries.len() ==> !is_rooted((#[trigger] entries[k]).name),
    ensures
        visits_spec(dir, entries, stack + deeper) == Seq::<VisitView>::empty(),
    decreases entries.len(),
{
    if entries.len() > 0 {
        let front = entries.drop_last();
        assert forall|k: int| 0 <= k < front.len() implies !is_rooted((#[trigger] front[k]).name) by {
            assert(front[k] == entries[k]);
        }
        lemma_excluded_never_planned(stack, deeper, dir, front);
        assert(!is_rooted(entries[entries.len() - 1].name));
        lemma_child_excluded(stack, deeper, dir, entries.last().name);
    }
}

/// The path of `name` in the directory `dir`.
pub fn child_path(dir: &str, name: &str) -> (path: String)
    ensures
        path@ == child_path_spec(dir@, name@),
{
    let d = to_chars(dir);
    let n = to_chars(name);
    let mut path = String::new();
    if (n.len() > 0 && n[0] == '/') || d.len() == 0 {
        path.append(name);
        assert(path@ =~= name@);
    } else if d[d.len() - 1] == '/' {
        path.append(dir);
        path.append(name);
        assert(path@ =~= dir@ + name@);
    } else {
        path.append(dir);
        push_char(&mut path, '/');
        path.append(name);
        assert(path@ =~= dir@ + seq!['/'] + name@);
    }
    path
}

/// Where the copy of the file at `path` is stored.
pub fn store_path(path: &str) -> (stored: String)
    ensures
        stored@ == store_path_spec(path@),
{
    child_path("./.qop/store", path)
}

/// The plan for the listing `entries` of the directory `dir`.
pub fn plan_directory(dir: &str, entries: &Vec<DirEntry>, stack: &IgnoreStack) -> (visits: Vec<
    Visit,
>)
    ensures
        visits_of(visits@) == visits_spec(dir@, entries_of(entries@), stack@),
{
    let mut visits: Vec<Visit> = Vec::new();
    let mut i: usize = 0;
    let ghost all = entries_of(entries@);
    assert(all.take(0) =~= Seq::<DirEntryView>::empty());
    assert(visits_of(visits@) =~= Seq::<VisitView>::empty());
    while i < entries.len()
        invariant
            i <= entries.len(),
            all == entries_of(entries@),
            visits_of(visits@) == visits_spec(dir@, all.take(i as int), stack@),
        decreases entries.len() - i,
    {
        let e = &entries[i];
        let path = child_path(dir, e.name.as_str());
        let parts = components(path.as_str());
        proof {
            assert(all.take(i + 1).drop_last() =~= all.take(i as int));
            assert(all.take(i + 1).last() == e@);
        }
        if !stack.excludes(&parts) {
            let visit = Visit { path, is_dir: e.is_dir };
            proof {
                assert(visits_of(visits@.push(visit)) =~= visits_of(visits@).push(visit@));
            }
            visits.push(visit);
        }
        i += 1;
    }
    assert(all.take(i as int) =~= all);
    visits
}

} // verus!
