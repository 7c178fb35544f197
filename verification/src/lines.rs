//! Cutting a text into its lines.
//!
//! A line ends at a line feed, or at a carriage return directly followed by
//! a line feed; neither belongs to the line. The last line needs no ending,
//! and a text that ends in a line ending has no empty line after it.

use vstd::prelude::*;

verus! {

/// The index of the first line feed in `s`, or `s.len()` if it holds none.
pub open spec fn first_line_feed(s: Seq<char>) -> int
    decreases s.len(),
{
    if s.len() == 0 || s[0] == '\n' {
        0
    } else {
        1 + first_line_feed(s.skip(1))
    }
}

/// `line` without the carriage return at its end, if it has one.
pub open spec fn without_cr(line: Seq<char>) -> Seq<char> {
    if line.len() > 0 && line.last() == '\r' {
        line.drop_last()
    } else {
        line
    }
}

/// The lines of `text`, in order.
pub open spec fn split_lines(text: Seq<char>) -> Seq<Seq<char>>
    decreases text.len(),
{
    let end = first_line_feed(text);
    if text.len() == 0 {
        Seq::empty()
    } else if 0 <= end < text.len() {
        seq![without_cr(text.take(end))] + split_lines(text.skip(end + 1))
    } else {
        seq![text]
    }
}

/// Whether `line` can stand in a text as a line of its own and be read back
/// unchanged: it holds no line feed and does not end in a carriage return.
pub open spec fn single_line(line: Seq<char>) -> bool {
    &&& forall|i: int| 0 <= i < line.len() ==> #[trigger] line[i] != '\n'
    &&& without_cr(line) == line
}

/// The text made of `lines`, each followed by a line feed.
pub open spec fn join_lines(lines: Seq<Seq<char>>) -> Seq<char>
    decreases lines.len(),
{
    if lines.len() == 0 {
        Seq::empty()
    } else {
        join_lines(lines.drop_last()) + lines.last() + seq!['\n']
    }
}

/// The views of the vectors in `lines`.
pub open spec fn line_views(lines: Seq<Vec<char>>) -> Seq<Seq<char>> {
    Seq::new(lines.len(), |i: int| lines[i]@)
}

/// `first_line_feed` is where the first line feed stands.
pub proof fn lemma_first_line_feed(s: Seq<char>)
    ensures
        0 <= first_line_feed(s) <= s.len(),
        forall|i: int| 0 <= i < first_line_feed(s) ==> #[trigger] s[i] != '\n',
        first_line_feed(s) < s.len() ==> s[first_line_feed(s)] == '\n',
    decreases s.len(),
{
    if s.len() == 0 || s[0] == '\n' {
    } else {
        let rest = s.skip(1);
        lemma_first_line_feed(rest);
        assert forall|i: int| 0 <= i < first_line_feed(s) implies #[trigger] s[i] != '\n' by {
            if i > 0 {
                assert(s[i] == rest[i - 1]);
            }
        }
    }
}

/// An index with no line feed before it, which holds a line feed or is the
/// end of `s`, is `first_line_feed(s)`.
pub proof fn lemma_first_line_feed_is(s: Seq<char>, end: int)
    requires
        0 <= end <= s.len(),
        forall|i: int| 0 <= i < end ==> #[trigger] s[i] != '\n',
        end < s.len() ==> s[end] == '\n',
    ensures
        first_line_feed(s) == end,
{
    lemma_first_line_feed(s);
    let found = first_line_feed(s);
    if found < end {
        assert(s[found] != '\n');
    } else if end < found {
        assert(s[end] != '\n');
    }
}

/// A line cut out of a text holds no line feed.
pub proof fn lemma_split_lines_no_line_feed(text: Seq<char>, k: int)
    requires
        0 <= k < split_lines(text).len(),
    ensures
        forall|i: int|
            0 <= i < split_lines(text)[k].len() ==> #[trigger] split_lines(text)[k][i] != '\n',
    decreases text.len(),
{
    lemma_first_line_feed(text);
    let end = first_line_feed(text);
    if end < text.len() {
        if k == 0 {
            let line = without_cr(text.take(end));
            assert forall|i: int| 0 <= i < line.len() implies #[trigger] line[i] != '\n' by {
                assert(line[i] == text[i]);
            }
        } else {
            lemma_split_lines_no_line_feed(text.skip(end + 1), k - 1);
        }
    }
}

/// A text with one more line at its end.
pub proof fn lemma_join_lines_push(lines: Seq<Seq<char>>, line: Seq<char>)
    ensures
        join_lines(lines.push(line)) == join_lines(lines) + line + seq!['\n'],
{
    assert(lines.push(line).drop_last() =~= lines);
}

/// A text with one more line at its front.
pub proof fn lemma_join_lines_front(line: Seq<char>, lines: Seq<Seq<char>>)
    ensures
        join_lines(seq![line] + lines) == line + seq!['\n'] + join_lines(lines),
    decreases lines.len(),
{
    if lines.len() == 0 {
        assert(seq![line] + lines =~= seq![line]);
        assert(seq![line].drop_last() =~= Seq::<Seq<char>>::empty());
        assert(join_lines(seq![line].drop_last()) =~= Seq::<char>::empty());
        assert(join_lines(seq![line]) =~= line + seq!['\n'] + join_lines(lines));
    } else {
        let all = seq![line] + lines;
        assert(all.drop_last() =~= seq![line] + lines.drop_last());
        assert(all.last() == lines.last());
        lemma_join_lines_front(line, lines.drop_last());
        assert(join_lines(all) =~= line + seq!['\n'] + join_lines(lines));
    }
}

/// Lines that are each a single line, written out one after the other and
/// cut again, come back as they were.
pub proof fn lemma_split_join(lines: Seq<Seq<char>>)
    requires
        forall|k: int| 0 <= k < lines.len() ==> single_line(#[trigger] lines[k]),
    ensures
        split_lines(join_lines(lines)) == lines,
    decreases lines.len(),
{
    if lines.len() == 0 {
    } else {
        let line = lines[0];
        let rest = lines.drop_first();
        assert(lines =~= seq![line] + rest);
        lemma_join_lines_front(line, rest);
        let text = join_lines(lines);
        assert(text =~= line + seq!['\n'] + join_lines(rest));
        assert(single_line(lines[0]));
        assert forall|i: int| 0 <= i < line.len() implies #[trigger] text[i] != '\n' by {
            assert(text[i] == line[i]);
        }
        assert(text[line.len() as int] == '\n');
        lemma_first_line_feed_is(text, line.len() as int);
        assert(text.take(line.len() as int) =~= line);
        assert(text.skip(line.len() as int + 1) =~= join_lines(rest));
        assert forall|k: int| 0 <= k < rest.len() implies single_line(#[trigger] rest[k]) by {
            assert(rest[k] == lines[k + 1]);
        }
        lemma_split_join(rest);
        assert(split_lines(text) =~= lines);
    }
}

/// A single line appended to a text that is empty or ends in a line feed,
/// with a line feed after it, is one more line at the end.
pub proof fn lemma_split_lines_append(text: Seq<char>, line: Seq<char>)
    requires
        text.len() == 0 || text.last() == '\n',
        single_line(line),
    ensures
        split_lines(text + line + seq!['\n']) == split_lines(text).push(line),
    decreases text.len(),
{
    let whole = text + line + seq!['\n'];
    if text.len() == 0 {
        assert(seq![line].drop_last() =~= Seq::<Seq<char>>::empty());
        assert(join_lines(seq![line].drop_last()) =~= Seq::<char>::empty());
        assert(join_lines(seq![line]) =~= whole);
        assert(single_line(seq![line][0]));
        lemma_split_join(seq![line]);
        assert(split_lines(text).push(line) =~= seq![line]);
    } else {
        lemma_first_line_feed(text);
        let end = first_line_feed(text);
        if end >= text.len() {
            assert(text[text.len() - 1] != '\n');
        }
        assert forall|i: int| 0 <= i < end implies #[trigger] whole[i] != '\n' by {
            assert(whole[i] == text[i]);
        }
        assert(whole[end] == text[end]);
        lemma_first_line_feed_is(whole, end);
        let rest = text.skip(end + 1);
        assert(whole.take(end) =~= text.take(end));
        assert(whole.skip(end + 1) =~= rest + line + seq!['\n']);
        if rest.len() > 0 {
            assert(rest.last() == text.last());
        }
        lemma_split_lines_append(rest, line);
        assert(split_lines(whole) =~= split_lines(text).push(line));
    }
}

/// Cuts `text` into its lines.
pub fn cut_lines(text: &[char]) -> (lines: Vec<Vec<char>>)
    ensures
        line_views(lines@) == split_lines(text@),
{
    let mut lines: Vec<Vec<char>> = Vec::new();
    let mut start: usize = 0;
    proof {
        assert(text@.skip(0) =~= text@);
        assert(line_views(lines@) + split_lines(text@) =~= split_lines(text@));
    }
    while start < text.len()
        invariant
            start <= text.len(),
            split_lines(text@) == line_views(lines@) + split_lines(text@.skip(start as int)),
        decreases text.len() - start,
    {
        let ghost rest = text@.skip(start as int);
        let mut end: usize = start;
        while end < text.len() && text[end] != '\n'
            invariant
                start <= end <= text.len(),
                forall|i: int| start <= i < end ==> #[trigger] text@[i] != '\n',
            decreases text.len() - end,
        {
            end += 1;
        }
        proof {
            assert forall|i: int| 0 <= i < end - start implies #[trigger] rest[i] != '\n' by {
                assert(rest[i] == text@[start + i]);
            }
            lemma_first_line_feed_is(rest, end - start);
        }
        let ended: bool = end < text.len();
        let stop: usize = if ended && end > start && text[end - 1] == '\r' {
            end - 1
        } else {
            end
        };
        let mut line: Vec<char> = Vec::new();
        let mut i: usize = start;
        while i < stop
            invariant
                start <= i <= stop <= text.len(),
                line@ == text@.subrange(start as int, i as int),
            decreases stop - i,
        {
            line.push(text[i]);
            i += 1;
        }
        let ghost before = lines@;
        lines.push(line);
        proof {
            let whole = rest.take(end - start);
            assert(whole =~= text@.subrange(start as int, end as int));
            if ended {
                assert(line@ =~= without_cr(whole));
                assert(rest.skip(end - start + 1) =~= text@.skip(end + 1));
                assert(line_views(lines@) =~= line_views(before) + seq![line@]);
            } else {
                assert(line@ =~= rest);
                assert(text@.skip(text.len() as int) =~= Seq::<char>::empty());
                assert(line_views(lines@) =~= line_views(before) + seq![line@]);
            }
        }
        start = if ended { end + 1 } else { end };
    }
    proof {
        assert(split_lines(text@.skip(start as int)) =~= Seq::<Seq<char>>::empty());
    }
    lines
}

} // verus!
