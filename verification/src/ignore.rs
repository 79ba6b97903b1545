//! Which entries of a tree are left out.
//!
//! A directory may hold a manifest that names what to leave out below it.
//! Paths are taken by their components: the parts between slashes, without
//! empty parts and without `.`; a path that begins with a slash has the root
//! `/` as its first component. A pattern of a manifest is read from the
//! manifest's directory, unless it begins at the root. An entry is left out
//! if the components of some pattern in force are the first components of
//! its path. The patterns in force in a directory are those of its own
//! manifest and of the manifests of all directories above it.

use crate::text::{lemma_deep_view_push, lines_of, string_from, to_chars};
use vstd::prelude::*;

verus! {

/// The manifest of one directory.
#[derive(Debug)]
pub struct QopFile {
    /// What to leave out, each pattern a path read from the manifest's
    /// directory.
    pub ignore: Vec<String>,
}

/// The index of the first slash of `path`, or its length if it has none.
pub open spec fn first_slash(path: Seq<char>) -> int
    decreases path.len(),
{
    if path.len() == 0 || path[0] == '/' {
        0
    } else {
        1 + first_slash(path.skip(1))
    }
}

/// Whether a part between two slashes counts as a component.
pub open spec fn counts(part: Seq<char>) -> bool {
    part.len() > 0 && part != seq!['.']
}

/// The parts of `path` between its slashes that count.
pub open spec fn parts_spec(path: Seq<char>) -> Seq<Seq<char>>
    decreases path.len(),
{
    if path.len() == 0 {
        Seq::empty()
    } else {
        let n = first_slash(path);
        let head = path.take(n);
        let rest = if 0 <= n < path.len() {
            parts_spec(path.skip(n + 1))
        } else {
            Seq::empty()
        };
        if counts(head) {
            seq![head] + rest
        } else {
            rest
        }
    }
}

/// Whether `path` begins at the root.
pub open spec fn is_rooted(path: Seq<char>) -> bool {
    path.len() > 0 && path[0] == '/'
}

/// The components of `path`.
pub open spec fn components_spec(path: Seq<char>) -> Seq<Seq<char>> {
    if is_rooted(path) {
        seq![seq!['/']] + parts_spec(path)
    } else {
        parts_spec(path)
    }
}

/// The components of `pattern`, read from the directory `dir`.
pub open spec fn scoped_spec(dir: Seq<Seq<char>>, pattern: Seq<char>) -> Seq<Seq<char>> {
    if is_rooted(pattern) {
        components_spec(pattern)
    } else {
        dir + parts_spec(pattern)
    }
}

/// Whether the components of `pattern` are the first components of `path`.
pub open spec fn is_prefix(pattern: Seq<Seq<char>>, path: Seq<Seq<char>>) -> bool {
    pattern.len() <= path.len() && path.take(pattern.len() as int) == pattern
}

/// Whether some pattern of `list` leaves `path` out.
pub open spec fn list_excludes(list: Seq<Seq<Seq<char>>>, path: Seq<Seq<char>>) -> bool {
    exists|i: int| 0 <= i < list.len() && is_prefix(#[trigger] list[i], path)
}

/// Whether some list of `stack` leaves `path` out.
pub open spec fn stack_excludes(stack: Seq<Seq<Seq<Seq<char>>>>, path: Seq<Seq<char>>) -> bool {
    exists|k: int| 0 <= k < stack.len() && list_excludes(#[trigger] stack[k], path)
}

/// What a list of patterns stands for.
pub open spec fn list_of(v: Seq<Vec<String>>) -> Seq<Seq<Seq<char>>> {
    v.map_values(|p: Vec<String>| lines_of(p@))
}

/// What a stack of lists stands for.
pub open spec fn stack_of(v: Seq<Vec<Vec<String>>>) -> Seq<Seq<Seq<Seq<char>>>> {
    v.map_values(|l: Vec<Vec<String>>| list_of(l@))
}

/// `first_slash` is in range, stands on a slash unless it is the length, and
/// no slash comes before it; and it is the only index of which that holds.
pub proof fn lemma_first_slash(path: Seq<char>, j: int)
    ensures
        0 <= first_slash(path) <= path.len(),
        first_slash(path) < path.len() ==> path[first_slash(path)] == '/',
        forall|k: int| 0 <= k < first_slash(path) ==> path[k] != '/',
        0 <= j <= path.len() && (j < path.len() ==> path[j] == '/') && (forall|k: int|
            0 <= k < j ==> path[k] != '/') ==> first_slash(path) == j,
    decreases path.len(),
{
    if path.len() == 0 || path[0] == '/' {
    } else {
        let rest = path.skip(1);
        lemma_first_slash(rest, j - 1);
        assert forall|k: int| 0 <= k < first_slash(path) implies path[k] != '/' by {
            if k > 0 {
                assert(rest[k - 1] == path[k]);
            }
        }
        if 0 <= j <= path.len() && (j < path.len() ==> path[j] == '/') && (forall|k: int|
            0 <= k < j ==> path[k] != '/') {
            assert(path[0] != '/');
            assert(j > 0);
            assert forall|k: int| 0 <= k < j - 1 implies rest[k] != '/' by {
                assert(rest[k] == path[k + 1]);
            }
            if j - 1 < rest.len() {
                assert(rest[j - 1] == path[j]);
            }
        }
    }
}

/// A pattern that leaves a path out leaves out every path below it.
pub proof fn lemma_prefix_below(
    pattern: Seq<Seq<char>>,
    path: Seq<Seq<char>>,
    more: Seq<Seq<char>>,
)
    requires
        is_prefix(pattern, path),
    ensures
        is_prefix(pattern, path + more),
{
    assert((path + more).take(pattern.len() as int) =~= path.take(pattern.len() as int));
}

/// What the manifests above a directory leave out stays left out below it:
/// where the patterns in force leave `path` out, they leave out every path
/// below `path`, whatever lists the directories on the way add.
pub proof fn lemma_excluded_below(
    stack: Seq<Seq<Seq<Seq<char>>>>,
    deeper: Seq<Seq<Seq<Seq<char>>>>,
    path: Seq<Seq<char>>,
    more: Seq<Seq<char>>,
)
    requires
        stack_excludes(stack, path),
    ensures
        stack_excludes(stack + deeper, path + more),
{
    let k = choose|k: int| 0 <= k < stack.len() && list_excludes(#[trigger] stack[k], path);
    let list = stack[k];
    let i = choose|i: int| 0 <= i < list.len() && is_prefix(#[trigger] list[i], path);
    lemma_prefix_below(list[i], path, more);
    assert(is_prefix(list[i], path + more));
    assert(list_excludes(list, path + more));
    assert((stack + deeper)[k] == list);
}

/// A pattern read from a directory leaves out what it names there, and all
/// below it.
pub proof fn lemma_scoped_excludes(dir: Seq<Seq<char>>, pattern: Seq<char>, more: Seq<Seq<char>>)
    requires
        !is_rooted(pattern),
    ensures
        is_prefix(scoped_spec(dir, pattern), dir + parts_spec(pattern) + more),
{
    let p = scoped_spec(dir, pattern);
    assert((dir + parts_spec(pattern) + more).take(p.len() as int) =~= p);
}

/// The parts of `path` between its slashes that count.
fn parts(path: &str) -> (found: Vec<String>)
    ensures
        lines_of(found@) == parts_spec(path@),
{
    let chars = to_chars(path);
    let n = chars.len();
    let mut found: Vec<String> = Vec::new();
    let mut start: usize = 0;
    let mut i: usize = 0;
    assert(path@.skip(0) =~= path@);
    assert(lines_of(found@) =~= Seq::<Seq<char>>::empty());
    assert(Seq::<Seq<char>>::empty() + parts_spec(path@) =~= parts_spec(path@));
    while i < n
        invariant
            start <= i <= n,
            n == chars.len(),
            chars@ == path@,
            forall|k: int| start <= k < i ==> chars@[k] != '/',
            parts_spec(path@) == lines_of(found@) + parts_spec(path@.skip(start as int)),
        decreases n - i,
    {
        if chars[i] == '/' {
            let ghost rest = path@.skip(start as int);
            let ghost j = i - start;
            proof {
                assert forall|k: int| 0 <= k < j implies rest[k] != '/' by {
                    assert(rest[k] == chars@[start + k]);
                }
                assert(rest[j] == '/');
                lemma_first_slash(rest, j);
                assert(rest.skip(j + 1) =~= path@.skip(i + 1));
                assert(rest.take(j) =~= chars@.subrange(start as int, i as int));
            }
            let keep = i > start && !(i - start == 1 && chars[start] == '.');
            if keep {
                let part = string_from(&chars, start, i);
                proof {
                    assert(part@ != seq!['.']) by {
                        if part@ == seq!['.'] {
                            assert(part@.len() == 1);
                            assert(part@[0] == '.');
                        }
                    }
                    lemma_deep_view_push(found@, part);
                    assert(lines_of(found@) + (seq![part@] + parts_spec(path@.skip(i + 1)))
                        =~= lines_of(found@).push(part@) + parts_spec(path@.skip(i + 1)));
                }
                found.push(part);
            } else {
                proof {
                    let head = rest.take(j);
                    if head.len() > 0 {
                        assert(head =~= seq!['.']);
                    }
                }
            }
            start = i + 1;
        }
        i += 1;
    }
    let ghost rest = path@.skip(start as int);
    proof {
        if start < n {
            assert forall|k: int| 0 <= k < rest.len() implies rest[k] != '/' by {
                assert(rest[k] == chars@[start + k]);
            }
            lemma_first_slash(rest, rest.len() as int);
            assert(rest.take(rest.len() as int) =~= chars@.subrange(start as int, n as int));
        } else {
            assert(rest.len() == 0);
        }
    }
    if start < n && !(n - start == 1 && chars[start] == '.') {
        let part = string_from(&chars, start, n);
        proof {
            assert(part@ != seq!['.']) by {
                if part@ == seq!['.'] {
                    assert(part@.len() == 1);
                    assert(part@[0] == '.');
                }
            }
            lemma_deep_view_push(found@, part);
            assert(lines_of(found@) + seq![part@] =~= lines_of(found@).push(part@));
        }
        found.push(part);
    } else {
        proof {
            if start < n {
                assert(rest.take(rest.len() as int) =~= seq!['.']);
            }
            assert(lines_of(found@) + Seq::<Seq<char>>::empty() =~= lines_of(found@));
        }
    }
    found
}

/// Whether `path` begins at the root.
fn rooted(path: &str) -> (b: bool)
    ensures
        b == is_rooted(path@),
{
    let chars = to_chars(path);
    chars.len() > 0 && chars[0] == '/'
}

/// The root as a component.
fn root() -> (s: String)
    ensures
        s@ == seq!['/'],
{
    let mut s = String::new();
    crate::text::push_char(&mut s, '/');
    assert(s@ =~= seq!['/']);
    s
}

/// Appends a copy of each string of `src` to `out`.
fn append_copies(src: &Vec<String>, out: &mut Vec<String>)
    ensures
        lines_of(final(out)@) == lines_of(old(out)@) + lines_of(src@),
{
    let mut k: usize = 0;
    assert(lines_of(out@) + lines_of(src@).take(0) =~= lines_of(out@));
    while k < src.len()
        invariant
            k <= src.len(),
            lines_of(out@) == lines_of(old(out)@) + lines_of(src@).take(k as int),
        decreases src.len() - k,
    {
        let s = src[k].clone();
        proof {
            lemma_deep_view_push(out@, s);
            assert(lines_of(old(out)@) + lines_of(src@).take(k + 1) =~= (lines_of(old(out)@)
                + lines_of(src@).take(k as int)).push(s@));
        }
        out.push(s);
        k += 1;
    }
    assert(lines_of(src@).take(k as int) =~= lines_of(src@));
}

/// The components of `path`.
pub fn components(path: &str) -> (found: Vec<String>)
    ensures
        lines_of(found@) == components_spec(path@),
{
    let mut found: Vec<String> = Vec::new();
    assert(lines_of(found@) =~= Seq::<Seq<char>>::empty());
    if rooted(path) {
        let r = root();
        proof {
            lemma_deep_view_push(found@, r);
            assert(Seq::<Seq<char>>::empty().push(r@) =~= seq![seq!['/']]);
        }
        found.push(r);
    }
    let rest = parts(path);
    let ghost before = lines_of(found@);
    append_copies(&rest, &mut found);
    assert(Seq::<Seq<char>>::empty() + parts_spec(path@) =~= parts_spec(path@));
    found
}

/// The components of `pattern`, read from the directory `dir`.
pub fn scoped(dir: &Vec<String>, pattern: &str) -> (found: Vec<String>)
    ensures
        lines_of(found@) == scoped_spec(lines_of(dir@), pattern@),
{
    if rooted(pattern) {
        components(pattern)
    } else {
        let mut found: Vec<String> = Vec::new();
        assert(lines_of(found@) =~= Seq::<Seq<char>>::empty());
        append_copies(dir, &mut found);
        assert(Seq::<Seq<char>>::empty() + lines_of(dir@) =~= lines_of(dir@));
        let rest = parts(pattern);
        append_copies(&rest, &mut found);
        found
    }
}

impl QopFile {
    /// The list that the manifest of the directory `dir` puts in force: each
    /// of its patterns, read from `dir`.
    pub fn patterns_in(&self, dir: &Vec<String>) -> (list: Vec<Vec<String>>)
        ensures
            list@.len() == self.ignore@.len(),
            forall|i: int|
                0 <= i < list@.len() ==> (#[trigger] list_of(list@)[i]) == scoped_spec(
                    lines_of(dir@),
                    self.ignore@[i]@,
                ),
    {
        let mut list: Vec<Vec<String>> = Vec::new();
        let mut i: usize = 0;
        while i < self.ignore.len()
            invariant
                i <= self.ignore.len(),
                list@.len() == i,
                forall|k: int|
                    0 <= k < i ==> (#[trigger] list_of(list@)[k]) == scoped_spec(
                        lines_of(dir@),
                        self.ignore@[k]@,
                    ),
            decreases self.ignore.len() - i,
        {
            let p = scoped(dir, self.ignore[i].as_str());
            proof {
                let after = list@.push(p);
                assert forall|k: int| 0 <= k < i + 1 implies (#[trigger] list_of(after)[k])
                    == scoped_spec(lines_of(dir@), self.ignore@[k]@) by {
                    if k < i {
                        assert(list_of(after)[k] == list_of(list@)[k]);
                    }
                }
            }
            list.push(p);
            i += 1;
        }
        list
    }
}

/// Whether the components of `pattern` are the first components of `path`.
pub fn has_prefix(path: &Vec<String>, pattern: &Vec<String>) -> (b: bool)
    ensures
        b == is_prefix(lines_of(pattern@), lines_of(path@)),
{
    if pattern.len() > path.len() {
        return false;
    }
    let ghost want = lines_of(pattern@);
    let ghost have = lines_of(path@).take(pattern.len() as int);
    let mut k: usize = 0;
    while k < pattern.len()
        invariant
            k <= pattern.len() <= path.len(),
            want == lines_of(pattern@),
            have == lines_of(path@).take(pattern.len() as int),
            forall|j: int| 0 <= j < k ==> want[j] == have[j],
        decreases pattern.len() - k,
    {
        assert(want[k as int] == pattern@[k as int]@);
        assert(have[k as int] == path@[k as int]@);
        if path[k] != pattern[k] {
            return false;
        }
        k += 1;
    }
    assert(want =~= have);
    true
}

/// Whether some pattern of `list` leaves `path` out.
pub fn list_leaves_out(list: &Vec<Vec<String>>, path: &Vec<String>) -> (b: bool)
    ensures
        b == list_excludes(list_of(list@), lines_of(path@)),
{
    let mut i: usize = 0;
    while i < list.len()
        invariant
            i <= list.len(),
            forall|k: int| 0 <= k < i ==> !is_prefix(#[trigger] list_of(list@)[k], lines_of(path@)),
        decreases list.len() - i,
    {
        assert(list_of(list@)[i as int] == lines_of(list@[i as int]@));
        if has_prefix(path, &list[i]) {
            return true;
        }
        i += 1;
    }
    false
}

/// The patterns in force, one list for each directory from the root of the
/// walk down to the one the walk is in.
#[derive(Debug)]
pub struct IgnoreStack {
    /// The lists, the root's first.
    pub lists: Vec<Vec<Vec<String>>>,
}

impl View for IgnoreStack {
    type V = Seq<Seq<Seq<Seq<char>>>>;

    open spec fn view(&self) -> Seq<Seq<Seq<Seq<char>>>> {
        stack_of(self.lists@)
    }
}

impl IgnoreStack {
    /// No patterns in force.
    pub fn new() -> (stack: IgnoreStack)
        ensures
            stack@ == Seq::<Seq<Seq<Seq<char>>>>::empty(),
    {
        let stack = IgnoreStack { lists: Vec::new() };
        assert(stack@ =~= Seq::<Seq<Seq<Seq<char>>>>::empty());
        stack
    }

    /// Puts the list of a directory in force, on entering it.
    pub fn enter(&mut self, list: Vec<Vec<String>>)
        ensures
            final(self)@ == old(self)@.push(list_of(list@)),
    {
        proof {
            assert(stack_of(self.lists@.push(list)) =~= stack_of(self.lists@).push(list_of(list@)));
        }
        self.lists.push(list);
    }

    /// Takes the list of a directory out of force, on leaving it. Without a
    /// list in force nothing changes.
    pub fn leave(&mut self)
        ensures
            old(self)@.len() > 0 ==> final(self)@ == old(self)@.drop_last(),
            old(self)@.len() == 0 ==> final(self)@ == old(self)@,
    {
        proof {
            if self.lists@.len() > 0 {
                assert(stack_of(self.lists@.drop_last()) =~= stack_of(self.lists@).drop_last());
            }
        }
        let _ = self.lists.pop();
    }

    /// Whether the patterns in force leave `path` out.
    pub fn excludes(&self, path: &Vec<String>) -> (b: bool)
        ensures
            b == stack_excludes(self@, lines_of(path@)),
    {
        let mut k: usize = 0;
        while k < self.lists.len()
            invariant
                k <= self.lists.len(),
                forall|j: int| 0 <= j < k ==> !list_excludes(#[trigger] self@[j], lines_of(path@)),
            decreases self.lists.len() - k,
        {
            assert(self@[k as int] == list_of(self.lists@[k as int]@));
            if list_leaves_out(&self.lists[k], path) {
                return true;
            }
            k += 1;
        }
        false
    }
}

} // verus!
