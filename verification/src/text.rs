//! Text that goes to a terminal.

use vstd::prelude::*;
use vstd::string::{StrSliceExecFns, StringExecFns};

verus! {

/// What texts say, one by one.
pub open spec fn texts(lines: Seq<String>) -> Seq<Seq<char>> {
    lines.map_values(|line: String| line@)
}

/// Where the line that `from` is in ends.
pub open spec fn line_end(text: Seq<char>, from: nat) -> nat
    decreases text.len() - from,
{
    if from >= text.len() {
        text.len()
    } else if text[from as int] == '\n' {
        from
    } else {
        line_end(text, from + 1)
    }
}

pub proof fn lemma_line_end(text: Seq<char>, from: nat)
    requires
        from <= text.len(),
    ensures
        from <= line_end(text, from) <= text.len(),
    decreases text.len() - from,
{
    if from < text.len() && text[from as int] != '\n' {
        lemma_line_end(text, from + 1);
    }
}

/// A line from `from` to `end`, without the carriage return in front of a line feed.
pub open spec fn line_between(text: Seq<char>, from: nat, end: nat) -> Seq<char> {
    if end < text.len() && end > from && text[end - 1] == '\r' {
        text.subrange(from as int, end - 1)
    } else {
        text.subrange(from as int, end as int)
    }
}

/// The lines of a text from `from` on. A line feed ends a line, with a carriage return in front
/// of it or without, and the last line needs none.
pub open spec fn lines_from(text: Seq<char>, from: nat) -> Seq<Seq<char>>
    decreases text.len() + 1 - from,
{
    if from >= text.len() {
        Seq::empty()
    } else {
        proof {
            lemma_line_end(text, from);
        }
        let end = line_end(text, from);
        seq![line_between(text, from, end)] + lines_from(text, end + 1)
    }
}

/// The lines of a text.
pub open spec fn lines_of(text: Seq<char>) -> Seq<Seq<char>> {
    lines_from(text, 0)
}

/// The lines of a text.
pub fn lines(text: &str) -> (result: Vec<String>)
    ensures
        texts(result@) == lines_of(text@),
{
    let mut chars: Vec<char> = Vec::new();
    for c in all: text.chars()
        invariant
            all.seq() == text@,
            chars@ == text@.take(all.index() as int),
    {
        assert(text@.take(all.index() + 1) =~= text@.take(all.index() as int).push(c));
        chars.push(c);
    }
    assert(text@.take(text@.len() as int) =~= text@);
    let mut result: Vec<String> = Vec::new();
    let mut from: usize = 0;
    assert(texts(result@) + lines_from(text@, 0) =~= lines_of(text@));
    while from < chars.len()
        invariant
            chars@ == text@,
            from <= chars@.len(),
            texts(result@) + lines_from(text@, from as nat) == lines_of(text@),
        decreases chars@.len() - from,
    {
        let mut end: usize = from;
        while end < chars.len() && chars[end] != '\n'
            invariant
                chars@ == text@,
                from <= end <= chars@.len(),
                line_end(text@, end as nat) == line_end(text@, from as nat),
            decreases chars@.len() - end,
        {
            end = end + 1;
        }
        assert(end == line_end(text@, from as nat));
        let ghost earlier = texts(result@);
        let ghost before = result@;
        let ghost line = line_between(text@, from as nat, end as nat);
        if end < chars.len() && end > from && chars[end - 1] == '\r' {
            result.push(text.substring_char(from, end - 1).to_owned());
        } else {
            result.push(text.substring_char(from, end).to_owned());
        }
        assert(texts(result@) =~= texts(before).push(line));
        assert(texts(result@) + lines_from(text@, end as nat + 1) =~= earlier + (seq![line]
            + lines_from(text@, end as nat + 1)));
        if end < chars.len() {
            from = end + 1;
        } else {
            from = end;
            assert(lines_from(text@, end as nat + 1) =~= lines_from(text@, end as nat));
        }
    }
    assert(texts(result@) =~= lines_of(text@));
    result
}

/// Lines with a line feed between each two.
pub open spec fn joined(lines: Seq<Seq<char>>) -> Seq<char>
    decreases lines.len(),
{
    if lines.len() == 0 {
        Seq::empty()
    } else if lines.len() == 1 {
        lines[0]
    } else {
        joined(lines.drop_last()) + seq!['\n'] + lines.last()
    }
}

/// Puts a line feed between each two lines.
pub fn join(lines: &Vec<String>) -> (result: String)
    ensures
        result@ == joined(texts(lines@)),
{
    let ghost all = texts(lines@);
    let mut result: String = String::new();
    let mut i: usize = 0;
    assert(result@ =~= joined(all.take(0)));
    while i < lines.len()
        invariant
            all == texts(lines@),
            i <= lines@.len(),
            result@ == joined(all.take(i as int)),
        decreases lines@.len() - i,
    {
        assert(all.take(i + 1).drop_last() =~= all.take(i as int));
        let ghost before = result@;
        if i > 0 {
            proof {
                reveal_strlit("\n");
                assert("\n"@ =~= seq!['\n']);
            }
            result.append("\n");
        }
        result.append(lines[i].as_str());
        if i == 0 {
            assert(result@ =~= all[0]);
        } else {
            assert(result@ =~= before + seq!['\n'] + all[i as int]);
        }
        i = i + 1;
    }
    assert(all.take(i as int) =~= all);
    result
}

/// What `textwrap::wrap` gives for lines of some width.
pub uninterp spec fn wrapped(text: Seq<char>, width: usize) -> Seq<Seq<char>>;

/// `textwrap::wrap` with `textwrap::Options::new`: the text as lines of at most `width` columns.
#[verifier::external_body]
pub(crate) fn wrap(text: &str, width: usize) -> (result: Vec<String>)
    ensures
        texts(result@) == wrapped(text@, width),
{
    textwrap::wrap(text, textwrap::Options::new(width)).into_iter().map(
        |line| line.into_owned(),
    ).collect()
}

/// The first `height` of some lines, or all.
pub open spec fn first_of(lines: Seq<Seq<char>>, height: nat) -> Seq<Seq<char>> {
    if lines.len() > height {
        lines.take(height as int)
    } else {
        lines
    }
}

/// The last `height` of some lines, or all.
pub open spec fn last_of(lines: Seq<Seq<char>>, height: nat) -> Seq<Seq<char>> {
    if lines.len() > height {
        lines.skip(lines.len() - height)
    } else {
        lines
    }
}

/// Joins the first `height` of wrapped lines.
pub fn join_first(lines: Vec<String>, height: usize) -> (result: String)
    ensures
        result@ == joined(first_of(texts(lines@), height as nat)),
{
    let mut lines = lines;
    let ghost all = texts(lines@);
    if lines.len() > height {
        lines.truncate(height);
        assert(texts(lines@) =~= all.take(height as int));
    }
    join(&lines)
}

/// Joins the last `height` of wrapped lines.
pub fn join_last(lines: Vec<String>, height: usize) -> (result: String)
    ensures
        result@ == joined(last_of(texts(lines@), height as nat)),
{
    let mut lines = lines;
    let ghost all = texts(lines@);
    let count: usize = lines.len();
    if count > height {
        let last = lines.split_off(count - height);
        assert(texts(last@) =~= all.skip(all.len() - height));
        join(&last)
    } else {
        join(&lines)
    }
}

/// Text in a box: lines of at most `width` columns, and at most `height` of them.
pub fn text_wrap(text: &str, width: usize, height: usize) -> (result: String)
    ensures
        result@ == joined(first_of(wrapped(text@, width), height as nat)),
{
    join_first(wrap(text, width), height)
}

/// The first `height` lines of a text.
pub fn text_region(text: &str, height: usize) -> (result: Vec<String>)
    ensures
        texts(result@) == first_of(lines_of(text@), height as nat),
{
    let mut result = lines(text);
    let ghost all = texts(result@);
    if result.len() > height {
        result.truncate(height);
        assert(texts(result@) =~= all.take(height as int));
    }
    result
}

/// The length of the longest line.
pub open spec fn widest(lines: Seq<Seq<char>>) -> nat
    decreases lines.len(),
{
    if lines.len() == 0 {
        0
    } else {
        let before = widest(lines.drop_last());
        if lines.last().len() > before {
            lines.last().len()
        } else {
            before
        }
    }
}

/// How much room text takes.
#[derive(Debug, Clone, Copy, PartialEq, Eq, Structural)]
pub struct TextSize {
    pub width: usize,
    pub height: usize,
}

/// How much room a text takes: the length of its longest line, and how many lines it has.
pub fn text_size(text: &str) -> (result: TextSize)
    ensures
        result.width == widest(lines_of(text@)),
        result.height == lines_of(text@).len(),
{
    let rows = lines(text);
    let ghost all = texts(rows@);
    let mut width: usize = 0;
    let mut i: usize = 0;
    while i < rows.len()
        invariant
            all == texts(rows@),
            i <= rows@.len(),
            width == widest(all.take(i as int)),
        decreases rows@.len() - i,
    {
        assert(all.take(i + 1).drop_last() =~= all.take(i as int));
        assert(all.take(i + 1).last() == rows@[i as int]@);
        let length: usize = rows[i].as_str().unicode_len();
        if length > width {
            width = length;
        }
        i = i + 1;
    }
    assert(all.take(i as int) =~= all);
    TextSize { width, height: rows.len() }
}

/// No line is longer than the width of a text, and one is that long unless there is none.
pub proof fn law_width(lines: Seq<Seq<char>>)
    ensures
        forall|i: int| 0 <= i < lines.len() ==> (#[trigger] lines[i]).len() <= widest(lines),
        lines.len() > 0 ==> exists|i: int|
            0 <= i < lines.len() && (#[trigger] lines[i]).len() == widest(lines),
    decreases lines.len(),
{
    if lines.len() > 0 {
        let rest = lines.drop_last();
        law_width(rest);
        assert forall|i: int| 0 <= i < lines.len() implies (#[trigger] lines[i]).len() <= widest(
            lines,
        ) by {
            if i < rest.len() {
                assert(rest[i] == lines[i]);
            }
        }
        if lines.last().len() > widest(rest) {
            assert(lines[lines.len() - 1].len() == widest(lines));
        } else if rest.len() > 0 {
            let i = choose|i: int| 0 <= i < rest.len() && (#[trigger] rest[i]).len() == widest(
                rest,
            );
            assert(lines[i].len() == widest(lines));
        } else {
            assert(lines[0].len() == widest(lines));
        }
    }
}

/// Whether a line can stand among others: it holds no line feed, and does not end in a carriage
/// return.
pub open spec fn is_line(line: Seq<char>) -> bool {
    !line.contains('\n') && (line.len() > 0 ==> line.last() != '\r')
}

proof fn lemma_line_end_is(text: Seq<char>, from: nat, end: nat)
    requires
        from <= end <= text.len(),
        forall|i: int| from <= i < end ==> #[trigger] text[i] != '\n',
        end < text.len() ==> text[end as int] == '\n',
    ensures
        line_end(text, from) == end,
    decreases end - from,
{
    if from < end {
        lemma_line_end_is(text, from + 1, end);
    }
}

/// Text that comes behind a line feed has its own lines.
proof fn lemma_lines_behind(head: Seq<char>, text: Seq<char>, from: nat)
    ensures
        lines_from(head + text, head.len() + from) == lines_from(text, from),
    decreases text.len() + 1 - from,
{
    if from < text.len() {
        let all = head + text;
        lemma_line_end_behind(head, text, from);
        lemma_line_end(text, from);
        let end = line_end(text, from);
        lemma_lines_behind(head, text, end + 1);
        assert(line_between(all, head.len() + from, head.len() + end) =~= line_between(
            text,
            from,
            end,
        ));
    }
}

proof fn lemma_line_end_behind(head: Seq<char>, text: Seq<char>, from: nat)
    ensures
        line_end(head + text, head.len() + from) == head.len() + line_end(text, from),
    decreases text.len() - from,
{
    if from < text.len() && text[from as int] != '\n' {
        lemma_line_end_behind(head, text, from + 1);
    }
}

proof fn lemma_joined_front(lines: Seq<Seq<char>>)
    requires
        lines.len() >= 2,
    ensures
        joined(lines) == lines[0] + seq!['\n'] + joined(lines.skip(1)),
    decreases lines.len(),
{
    let rest = lines.skip(1);
    if lines.len() == 2 {
        assert(joined(lines.drop_last()) == lines[0]);
        assert(joined(rest) == lines[1]);
        assert(joined(lines) =~= lines[0] + seq!['\n'] + joined(rest));
    } else {
        lemma_joined_front(lines.drop_last());
        assert(lines.drop_last().skip(1) =~= rest.drop_last());
        assert(joined(lines) =~= lines[0] + seq!['\n'] + joined(rest));
    }
}

/// Joined lines are those lines again, unless the last one is empty.
pub proof fn law_joined_lines(lines: Seq<Seq<char>>)
    requires
        forall|i: int| 0 <= i < lines.len() ==> is_line(#[trigger] lines[i]),
        lines.len() > 0 ==> lines.last().len() > 0,
    ensures
        lines_of(joined(lines)) == lines,
    decreases lines.len(),
{
    let text = joined(lines);
    if lines.len() == 1 {
        assert(is_line(lines[0]));
        assert forall|i: int| 0 <= i < text.len() implies #[trigger] text[i] != '\n' by {
            assert(lines[0].contains(lines[0][i]));
        }
        lemma_line_end_is(text, 0, text.len());
        assert(line_between(text, 0, text.len()) =~= text);
        assert(lines_from(text, text.len() + 1) =~= Seq::<Seq<char>>::empty());
        assert(lines_of(text) =~= lines);
    } else if lines.len() > 1 {
        let rest = lines.skip(1);
        let first = lines[0];
        let head = first + seq!['\n'];
        lemma_joined_front(lines);
        assert forall|i: int| 0 <= i < rest.len() implies is_line(#[trigger] rest[i]) by {
            assert(is_line(lines[i + 1]));
        }
        law_joined_lines(rest);
        assert(is_line(lines[0]));
        assert(text =~= head + joined(rest));
        assert forall|i: int| 0 <= i < first.len() implies #[trigger] text[i] != '\n' by {
            assert(first.contains(first[i]));
        }
        lemma_line_end_is(text, 0, first.len());
        lemma_lines_behind(head, joined(rest), 0);
        assert(line_between(text, 0, first.len()) =~= first);
        assert(lines_of(text) =~= seq![first] + lines_from(text, first.len() + 1));
        assert(lines_of(text) =~= lines);
    } else {
        assert(lines_of(text) =~= lines);
    }
}

/// A line ends with a line feed, or with the text: what is before the first line feed, but for a
/// carriage return in front of it, is the first line, and the lines of what is behind it follow.
/// A text without line feed is one line, unless it is empty.
pub proof fn law_lines_end_with_line_feeds(line: Seq<char>, rest: Seq<char>)
    requires
        !line.contains('\n'),
    ensures
        lines_of(Seq::empty()) == Seq::<Seq<char>>::empty(),
        line.len() > 0 ==> lines_of(line) == seq![line],
        lines_of(line + seq!['\n'] + rest) == seq![
            if line.len() > 0 && line.last() == '\r' {
                line.drop_last()
            } else {
                line
            },
        ] + lines_of(rest),
{
    assert forall|i: int| 0 <= i < line.len() implies #[trigger] line[i] != '\n' by {
        assert(line.contains(line[i]));
    }
    if line.len() > 0 {
        lemma_line_end_is(line, 0, line.len());
        assert(line_between(line, 0, line.len()) =~= line);
        assert(lines_from(line, line.len() + 1) =~= Seq::<Seq<char>>::empty());
        assert(lines_of(line) =~= seq![line]);
    }
    let head = line + seq!['\n'];
    let text = head + rest;
    assert forall|i: int| 0 <= i < line.len() implies #[trigger] text[i] != '\n' by {
        assert(text[i] == line[i]);
    }
    assert(text[line.len() as int] == '\n');
    lemma_line_end_is(text, 0, line.len());
    lemma_lines_behind(head, rest, 0);
    if line.len() > 0 && line.last() == '\r' {
        assert(text[line.len() - 1] == '\r');
        assert(line_between(text, 0, line.len()) =~= line.drop_last());
    } else {
        if line.len() > 0 {
            assert(text[line.len() - 1] == line.last());
        }
        assert(line_between(text, 0, line.len()) =~= line);
    }
}

/// Joined lines stand in order, with a line feed between each two and none elsewhere.
pub proof fn law_joined_with_line_feeds(first: Seq<Seq<char>>, second: Seq<Seq<char>>, line: Seq<char>)
    requires
        first.len() > 0,
        second.len() > 0,
    ensures
        joined(Seq::empty()) == Seq::<char>::empty(),
        joined(seq![line]) == line,
        joined(first + second) == joined(first) + seq!['\n'] + joined(second),
    decreases second.len(),
{
    let all = first + second;
    assert(all.last() == second.last());
    if second.len() == 1 {
        assert(all.drop_last() =~= first);
        assert(joined(second) == second[0]);
    } else {
        law_joined_with_line_feeds(first, second.drop_last(), line);
        assert(all.drop_last() =~= first + second.drop_last());
        assert(joined(all) =~= joined(first) + seq!['\n'] + joined(second));
    }
}

/// The first and the last lines of a text are as many as wanted, or all if there are fewer, and
/// those before the last ones are the first ones.
pub proof fn law_first_and_last_lines(lines: Seq<Seq<char>>, height: nat)
    ensures
        first_of(lines, height).len() == if height < lines.len() { height } else { lines.len() },
        last_of(lines, height).len() == if height < lines.len() { height } else { lines.len() },
        height <= lines.len() ==> first_of(lines, height) + last_of(
            lines,
            (lines.len() - height) as nat,
        ) == lines,
        height >= lines.len() ==> first_of(lines, height) == lines && last_of(lines, height)
            == lines,
{
    if height <= lines.len() {
        assert(first_of(lines, height) + last_of(lines, (lines.len() - height) as nat) =~= lines);
    }
}

} // verus!
