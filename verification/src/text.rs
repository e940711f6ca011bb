//! Lines of text and the few string operations the engine is built on.

use vstd::prelude::*;

verus! {

/// The character sequences of a list of lines.
pub open spec fn line_views(lines: Seq<String>) -> Seq<Seq<char>> {
    Seq::new(lines.len(), |i: int| lines[i]@)
}

/// Whether `line` begins with `prefix`.
pub fn has_prefix(line: &str, prefix: &str) -> (found: bool)
    ensures
        found == prefix@.is_prefix_of(line@),
{
    let n: usize = prefix.unicode_len();
    let m: usize = line.unicode_len();
    if m < n {
        return false;
    }
    let mut i: usize = 0;
    while i < n
        invariant
            i <= n,
            n == prefix@.len(),
            m == line@.len(),
            n <= m,
            forall|j: int| 0 <= j < i ==> line@[j] == prefix@[j],
        decreases n - i,
    {
        if line.get_char(i) != prefix.get_char(i) {
            assert(!prefix@.is_prefix_of(line@)) by {
                if prefix@.is_prefix_of(line@) {
                    assert(line@.subrange(0, n as int)[i as int] == prefix@[i as int]);
                }
            }
            return false;
        }
        i = i + 1;
    }
    assert(line@.subrange(0, n as int) =~= prefix@);
    true
}

/// The index of the first line feed in `text`, or its length where it has
/// none.
pub open spec fn first_newline(text: Seq<char>) -> int
    decreases text.len(),
{
    if text.len() == 0 || text[0] == '\n' {
        0
    } else {
        1 + first_newline(text.skip(1))
    }
}

/// `line` without the carriage return that ends it, if one does.
pub open spec fn without_carriage_return(line: Seq<char>) -> Seq<char> {
    if line.len() > 0 && line.last() == '\r' {
        line.drop_last()
    } else {
        line
    }
}

/// The lines of `text`. A line ends with a line feed, or with a carriage
/// return and a line feed; neither belongs to the line. What follows the last
/// line feed is a line if it is not empty, and keeps a carriage return that
/// ends it.
pub open spec fn lines_of(text: Seq<char>) -> Seq<Seq<char>>
    decreases text.len(),
{
    let stop = first_newline(text);
    if text.len() == 0 {
        Seq::empty()
    } else if stop < 0 || stop >= text.len() {
        seq![text]
    } else {
        seq![without_carriage_return(text.take(stop))] + lines_of(text.skip(stop + 1))
    }
}

/// The lines of `text`, as `str::lines` of the standard library yields
/// them. Not proved: the contract restates that function's documentation,
/// which says where a line ends and that the line endings are left out.
#[verifier::external_body]
pub(crate) fn split_lines(text: &str) -> (lines: Vec<String>)
    ensures
        line_views(lines@) == lines_of(text@),
{
    text.lines().map(String::from).collect()
}

/// `lines` with a line feed between each two of them.
pub open spec fn join_lines(lines: Seq<Seq<char>>) -> Seq<char>
    decreases lines.len(),
{
    if lines.len() == 0 {
        Seq::empty()
    } else if lines.len() == 1 {
        lines[0]
    } else {
        join_lines(lines.drop_last()) + seq!['\n'] + lines.last()
    }
}

/// Joins `lines` into one text, with a line feed between each two of them
/// and none at the end.
pub fn join(lines: &Vec<String>) -> (text: String)
    ensures
        text@ == join_lines(line_views(lines@)),
{
    let mut text = String::new();
    let mut i: usize = 0;
    while i < lines.len()
        invariant
            i <= lines.len(),
            text@ == join_lines(line_views(lines@).take(i as int)),
        decreases lines.len() - i,
    {
        proof {
            reveal_strlit("\n");
            let all = line_views(lines@);
            assert(all.take(i + 1).drop_last() =~= all.take(i as int));
            assert(all.take(i + 1).last() == all[i as int]);
            assert("\n"@ =~= seq!['\n']);
        }
        if i > 0 {
            text.append("\n");
        }
        text.append(lines[i].as_str());
        assert(text@ =~= join_lines(line_views(lines@).take(i + 1)));
        i = i + 1;
    }
    assert(line_views(lines@).take(i as int) =~= line_views(lines@));
    text
}

} // verus!
