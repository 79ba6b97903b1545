//! Texts as sequences of lines.
//!
//! A text is cut into lines at every `'\n'`. A final `'\n'` ends the last
//! line and starts no further one, so a text is fully described by its lines
//! together with one flag: whether it ends in a newline. Nothing else is
//! special: a `'\r'` is an ordinary character of its line.

use vstd::prelude::*;

verus! {

/// A line holds no newline.
pub open spec fn is_line(line: Seq<char>) -> bool {
    forall|k: int| 0 <= k < line.len() ==> line[k] != '\n'
}

/// Every element is a line.
pub open spec fn all_lines(lines: Seq<Seq<char>>) -> bool {
    forall|i: int| 0 <= i < lines.len() ==> is_line(#[trigger] lines[i])
}

/// The index of the first newline of `text`, or its length if it has none.
pub open spec fn first_newline(text: Seq<char>) -> int
    decreases text.len(),
{
    if text.len() == 0 || text[0] == '\n' {
        0
    } else {
        1 + first_newline(text.skip(1))
    }
}

/// The lines of `text`.
pub open spec fn split_lines_spec(text: Seq<char>) -> Seq<Seq<char>>
    decreases text.len(),
{
    if text.len() == 0 {
        Seq::empty()
    } else {
        let n = first_newline(text);
        if n < 0 || n >= text.len() {
            seq![text]
        } else {
            seq![text.take(n)] + split_lines_spec(text.skip(n + 1))
        }
    }
}

/// Whether `text` ends in a newline.
pub open spec fn ends_with_newline_spec(text: Seq<char>) -> bool {
    text.len() > 0 && text.last() == '\n'
}

/// The lines with one newline between each two neighbours.
pub open spec fn join_lines_spec(lines: Seq<Seq<char>>) -> Seq<char>
    decreases lines.len(),
{
    if lines.len() == 0 {
        Seq::empty()
    } else if lines.len() == 1 {
        lines[0]
    } else {
        lines[0] + seq!['\n'] + join_lines_spec(lines.skip(1))
    }
}

/// The text made of `lines`, ending in a newline if `final_newline` is set.
pub open spec fn unsplit_spec(lines: Seq<Seq<char>>, final_newline: bool) -> Seq<char> {
    if final_newline {
        join_lines_spec(lines) + seq!['\n']
    } else {
        join_lines_spec(lines)
    }
}

/// The lines, each followed by a newline.
pub open spec fn terminated_spec(lines: Seq<Seq<char>>) -> Seq<char>
    decreases lines.len(),
{
    if lines.len() == 0 {
        Seq::empty()
    } else {
        lines[0] + seq!['\n'] + terminated_spec(lines.skip(1))
    }
}

/// `first_newline` is in range, stands on a newline unless it is the length,
/// and no newline comes before it.
pub proof fn lemma_first_newline(text: Seq<char>)
    ensures
        0 <= first_newline(text) <= text.len(),
        first_newline(text) < text.len() ==> text[first_newline(text)] == '\n',
        forall|k: int| 0 <= k < first_newline(text) ==> text[k] != '\n',
    decreases text.len(),
{
    if text.len() == 0 || text[0] == '\n' {
    } else {
        let rest = text.skip(1);
        lemma_first_newline(rest);
        assert forall|k: int| 0 <= k < first_newline(text) implies text[k] != '\n' by {
            if k > 0 {
                assert(rest[k - 1] == text[k]);
            }
        }
    }
}

/// An index with the properties of `first_newline` is `first_newline`.
pub proof fn lemma_first_newline_is(text: Seq<char>, j: int)
    requires
        0 <= j <= text.len(),
        j < text.len() ==> text[j] == '\n',
        forall|k: int| 0 <= k < j ==> text[k] != '\n',
    ensures
        first_newline(text) == j,
{
    lemma_first_newline(text);
}

/// A text without a newline is its own single line, or no line if it is
/// empty.
pub proof fn lemma_split_single(text: Seq<char>)
    requires
        is_line(text),
    ensures
        split_lines_spec(text) == if text.len() == 0 {
            Seq::<Seq<char>>::empty()
        } else {
            seq![text]
        },
{
    lemma_first_newline_is(text, text.len() as int);
}

/// Cutting off the first line: where the first newline of `text` stands at
/// `j`, the lines are the `j` characters before it, then the lines of what
/// follows it.
pub proof fn lemma_split_at_newline(text: Seq<char>, j: int)
    requires
        0 <= j < text.len(),
        text[j] == '\n',
        forall|k: int| 0 <= k < j ==> text[k] != '\n',
    ensures
        split_lines_spec(text) == seq![text.take(j)] + split_lines_spec(text.skip(j + 1)),
{
    lemma_first_newline_is(text, j);
}

/// What `split_lines_spec` returns are lines.
pub proof fn lemma_split_gives_lines(text: Seq<char>)
    ensures
        all_lines(split_lines_spec(text)),
    decreases text.len(),
{
    if text.len() > 0 {
        lemma_first_newline(text);
        let n = first_newline(text);
        if n < text.len() {
            let rest = text.skip(n + 1);
            lemma_split_gives_lines(rest);
            let tail = split_lines_spec(rest);
            let all = seq![text.take(n)] + tail;
            assert forall|i: int| 0 <= i < all.len() implies is_line(#[trigger] all[i]) by {
                if i > 0 {
                    assert(all[i] == tail[i - 1]);
                }
            }
        }
    }
}

/// Splitting loses nothing: the lines of a text, put together again with
/// the text's own final newline, are the text.
pub proof fn lemma_unsplit_split(text: Seq<char>)
    ensures
        unsplit_spec(split_lines_spec(text), ends_with_newline_spec(text)) == text,
    decreases text.len(),
{
    if text.len() > 0 {
        lemma_first_newline(text);
        let n = first_newline(text);
        if n < text.len() {
            let rest = text.skip(n + 1);
            let tail = split_lines_spec(rest);
            let all = seq![text.take(n)] + tail;
            lemma_unsplit_split(rest);
            assert(all.skip(1) =~= tail);
            assert(text =~= text.take(n) + seq!['\n'] + rest);
            if rest.len() == 0 {
                assert(join_lines_spec(all) =~= text.take(n));
                assert(text.last() == '\n');
            } else {
                assert(rest.last() == text.last());
                assert(tail.len() > 0) by {
                    lemma_first_newline(rest);
                }
                assert(join_lines_spec(all) == text.take(n) + seq!['\n'] + join_lines_spec(tail));
                if ends_with_newline_spec(text) {
                    assert(unsplit_spec(all, true) =~= text.take(n) + seq!['\n'] + (
                    join_lines_spec(tail) + seq!['\n']));
                }
            }
        } else {
            assert(text.last() != '\n');
        }
    }
}

/// Lines that are each followed by a newline are found again by splitting.
pub proof fn lemma_split_terminated(lines: Seq<Seq<char>>)
    requires
        all_lines(lines),
    ensures
        split_lines_spec(terminated_spec(lines)) == lines,
    decreases lines.len(),
{
    if lines.len() > 0 {
        let rest = lines.skip(1);
        let text = terminated_spec(lines);
        let j = lines[0].len() as int;
        assert(all_lines(rest)) by {
            assert forall|i: int| 0 <= i < rest.len() implies is_line(#[trigger] rest[i]) by {
                assert(rest[i] == lines[i + 1]);
            }
        }
        lemma_split_terminated(rest);
        assert(is_line(lines[0]));
        assert(text == lines[0] + seq!['\n'] + terminated_spec(rest));
        assert(text[j] == '\n');
        assert forall|k: int| 0 <= k < j implies text[k] != '\n' by {
            assert(text[k] == lines[0][k]);
        }
        lemma_split_at_newline(text, j);
        assert(text.take(j) =~= lines[0]);
        assert(text.skip(j + 1) =~= terminated_spec(rest));
        assert(seq![lines[0]] + rest =~= lines);
    }
}

/// Lines joined by newlines are found again by splitting, but for an empty
/// last line, which leaves only the newline before it.
pub proof fn lemma_split_join(lines: Seq<Seq<char>>)
    requires
        all_lines(lines),
    ensures
        split_lines_spec(join_lines_spec(lines)) == if lines.len() > 0 && lines.last().len() == 0 {
            lines.drop_last()
        } else {
            lines
        },
    decreases lines.len(),
{
    if lines.len() == 0 {
    } else if lines.len() == 1 {
        assert(is_line(lines[0]));
        lemma_split_single(lines[0]);
        assert(lines.drop_last() =~= Seq::<Seq<char>>::empty());
        assert(seq![lines[0]] =~= lines);
    } else {
        let rest = lines.skip(1);
        let text = join_lines_spec(lines);
        let j = lines[0].len() as int;
        assert(all_lines(rest)) by {
            assert forall|i: int| 0 <= i < rest.len() implies is_line(#[trigger] rest[i]) by {
                assert(rest[i] == lines[i + 1]);
            }
        }
        lemma_split_join(rest);
        assert(is_line(lines[0]));
        assert(text[j] == '\n');
        assert forall|k: int| 0 <= k < j implies text[k] != '\n' by {
            assert(text[k] == lines[0][k]);
        }
        lemma_split_at_newline(text, j);
        assert(text.take(j) =~= lines[0]);
        assert(text.skip(j + 1) =~= join_lines_spec(rest));
        assert(rest.last() == lines.last());
        if lines.last().len() == 0 {
            assert(seq![lines[0]] + rest.drop_last() =~= lines.drop_last());
        } else {
            assert(seq![lines[0]] + rest =~= lines);
        }
    }
}

/// Joining one more line adds a newline and the line, unless it is the first.
pub proof fn lemma_join_push(lines: Seq<Seq<char>>, line: Seq<char>)
    ensures
        join_lines_spec(lines.push(line)) == if lines.len() == 0 {
            line
        } else {
            join_lines_spec(lines) + seq!['\n'] + line
        },
    decreases lines.len(),
{
    let all = lines.push(line);
    if lines.len() == 0 {
    } else if lines.len() == 1 {
        assert(all.skip(1) =~= seq![line]);
        assert(join_lines_spec(all.skip(1)) == line);
        assert(join_lines_spec(all) == all[0] + seq!['\n'] + line);
    } else {
        lemma_join_push(lines.skip(1), line);
        assert(all.skip(1) =~= lines.skip(1).push(line));
        assert(join_lines_spec(all) =~= join_lines_spec(lines) + seq!['\n'] + line);
    }
}

/// Terminating one more line adds the line and a newline.
pub proof fn lemma_terminated_push(lines: Seq<Seq<char>>, line: Seq<char>)
    ensures
        terminated_spec(lines.push(line)) == terminated_spec(lines) + line + seq!['\n'],
    decreases lines.len(),
{
    let all = lines.push(line);
    if lines.len() == 0 {
        assert(all.skip(1) =~= Seq::<Seq<char>>::empty());
        assert(terminated_spec(all.skip(1)) =~= Seq::<char>::empty());
        assert(terminated_spec(all) =~= terminated_spec(lines) + line + seq!['\n']);
    } else {
        lemma_terminated_push(lines.skip(1), line);
        assert(all.skip(1) =~= lines.skip(1).push(line));
        assert(terminated_spec(all) =~= terminated_spec(lines) + line + seq!['\n']);
    }
}

/// The view of a vector of strings grows with the vector.
pub proof fn lemma_deep_view_push(v: Seq<String>, s: String)
    ensures
        v.push(s).map_values(|x: String| x@) == v.map_values(|x: String| x@).push(s@),
{
    assert(v.push(s).map_values(|x: String| x@) =~= v.map_values(|x: String| x@).push(s@));
}

/// The lines that a vector of strings stands for.
pub open spec fn lines_of(v: Seq<String>) -> Seq<Seq<char>> {
    v.map_values(|x: String| x@)
}

/// Appends one character to a string.
///
/// Calls `String::push`, which std documents as appending the given `char`
/// to the end of the string.
#[verifier::external_body]
pub(crate) fn push_char(s: &mut String, c: char)
    ensures
        final(s)@ == old(s)@.push(c),
{
    s.push(c)
}

/// The characters of `text`, in order.
pub fn to_chars(text: &str) -> (chars: Vec<char>)
    ensures
        chars@ == text@,
{
    let mut chars: Vec<char> = Vec::new();
    for c in it: text.chars()
        invariant
            it.seq() == text@,
            chars@ == it.seq().take(it.index()),
    {
        chars.push(c);
    }
    chars
}

/// The string made of `chars[start..end]`.
pub fn string_from(chars: &Vec<char>, start: usize, end: usize) -> (s: String)
    requires
        start <= end <= chars.len(),
    ensures
        s@ == chars@.subrange(start as int, end as int),
{
    let mut s = String::new();
    let mut i: usize = start;
    while i < end
        invariant
            start <= i <= end <= chars.len(),
            s@ == chars@.subrange(start as int, i as int),
        decreases end - i,
    {
        push_char(&mut s, chars[i]);
        i += 1;
        assert(s@ =~= chars@.subrange(start as int, i as int));
    }
    s
}

/// Cuts `text` into its lines.
pub fn split_lines(text: &str) -> (lines: Vec<String>)
    ensures
        lines_of(lines@) == split_lines_spec(text@),
        all_lines(lines_of(lines@)),
{
    let chars = to_chars(text);
    let n = chars.len();
    let mut lines: Vec<String> = Vec::new();
    let mut start: usize = 0;
    let mut i: usize = 0;
    assert(text@.skip(0) =~= text@);
    assert(lines_of(lines@) =~= Seq::<Seq<char>>::empty());
    while i < n
        invariant
            start <= i <= n,
            n == chars.len(),
            chars@ == text@,
            forall|k: int| start <= k < i ==> chars@[k] != '\n',
            split_lines_spec(text@) == lines_of(lines@) + split_lines_spec(text@.skip(start as int)),
        decreases n - i,
    {
        if chars[i] == '\n' {
            let line = string_from(&chars, start, i);
            proof {
                let rest = text@.skip(start as int);
                let j = i - start;
                assert forall|k: int| 0 <= k < j implies rest[k] != '\n' by {
                    assert(rest[k] == chars@[start + k]);
                }
                lemma_split_at_newline(rest, j);
                assert(rest.take(j) =~= line@);
                assert(rest.skip(j + 1) =~= text@.skip(i + 1));
                lemma_deep_view_push(lines@, line);
                assert(lines_of(lines@) + (seq![line@] + split_lines_spec(text@.skip(i + 1)))
                    =~= lines_of(lines@).push(line@) + split_lines_spec(text@.skip(i + 1)));
            }
            lines.push(line);
            start = i + 1;
        }
        i += 1;
    }
    if start < n {
        let line = string_from(&chars, start, n);
        proof {
            let rest = text@.skip(start as int);
            assert forall|k: int| 0 <= k < rest.len() implies rest[k] != '\n' by {
                assert(rest[k] == chars@[start + k]);
            }
            lemma_split_single(rest);
            assert(rest =~= line@);
            lemma_deep_view_push(lines@, line);
        }
        lines.push(line);
    } else {
        assert(text@.skip(start as int).len() == 0);
    }
    proof {
        lemma_split_gives_lines(text@);
    }
    lines
}

/// Whether `text` ends in a newline.
pub fn ends_with_newline(text: &str) -> (b: bool)
    ensures
        b == ends_with_newline_spec(text@),
{
    let chars = to_chars(text);
    chars.len() > 0 && chars[chars.len() - 1] == '\n'
}

/// Puts `lines` together with a newline between each two, and one at the
/// end if `final_newline` is set.
pub fn join_lines(lines: &Vec<String>, final_newline: bool) -> (text: String)
    ensures
        text@ == unsplit_spec(lines_of(lines@), final_newline),
{
    let mut text = String::new();
    let mut i: usize = 0;
    assert(lines_of(lines@).take(0) =~= Seq::<Seq<char>>::empty());
    while i < lines.len()
        invariant
            i <= lines.len(),
            text@ == join_lines_spec(lines_of(lines@).take(i as int)),
        decreases lines.len() - i,
    {
        proof {
            lemma_join_push(lines_of(lines@).take(i as int), lines@[i as int]@);
            assert(lines_of(lines@).take(i + 1) =~= lines_of(lines@).take(i as int).push(
                lines@[i as int]@,
            ));
        }
        if i > 0 {
            push_char(&mut text, '\n');
        }
        text.append(lines[i].as_str());
        i += 1;
    }
    assert(lines_of(lines@).take(i as int) =~= lines_of(lines@));
    if final_newline {
        push_char(&mut text, '\n');
    }
    text
}

} // verus!
