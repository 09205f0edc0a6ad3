//! What a program tells about itself.

use std::collections::VecDeque;
use vstd::prelude::*;
use vstd::string::StringExecFns;
use vstd::utf8::{decode_utf8, valid_utf8};

use crate::text::{join_last, joined, last_of, lines, lines_of, texts, wrap, wrapped};

verus! {

broadcast use vstd::std_specs::vecdeque::group_vec_dequeue_axioms;

/// What `String::from_utf8_lossy` makes of bytes that are not UTF-8.
pub uninterp spec fn mended_text(bytes: Seq<u8>) -> Seq<char>;

/// The text of bytes, whatever they are.
pub open spec fn text_in(bytes: Seq<u8>) -> Seq<char> {
    if valid_utf8(bytes) {
        decode_utf8(bytes)
    } else {
        mended_text(bytes)
    }
}

/// `String::from_utf8_lossy`: the text of bytes that are UTF-8, and some text of those that are
/// not.
#[verifier::external_body]
fn text_from(bytes: &[u8]) -> (result: String)
    ensures
        valid_utf8(bytes@) ==> result@ == decode_utf8(bytes@),
        !valid_utf8(bytes@) ==> result@ == mended_text(bytes@),
{
    String::from_utf8_lossy(bytes).to_string()
}

/// Lines that were kept, and one more. The oldest makes room for it if there are as many as can
/// be kept.
pub open spec fn with_line(lines: Seq<Seq<char>>, capacity: nat, line: Seq<char>) -> Seq<
    Seq<char>,
> {
    if lines.len() == capacity && capacity > 0 {
        lines.skip(1).push(line)
    } else {
        lines.push(line)
    }
}

/// Lines that were kept, and some more.
pub open spec fn with_lines(
    lines: Seq<Seq<char>>,
    capacity: nat,
    more: Seq<Seq<char>>,
) -> Seq<Seq<char>>
    decreases more.len(),
{
    if more.len() == 0 {
        lines
    } else {
        with_line(with_lines(lines, capacity, more.drop_last()), capacity, more.last())
    }
}

/// Lines of text, each as lines of some width.
pub open spec fn all_wrapped(lines: Seq<Seq<char>>, width: usize) -> Seq<Seq<char>>
    decreases lines.len(),
{
    if lines.len() == 0 {
        Seq::empty()
    } else {
        all_wrapped(lines.drop_last(), width) + wrapped(lines.last(), width)
    }
}

/// The lines that were logged last.
pub struct LogBuffer {
    lines: VecDeque<String>,
    capacity: usize,
}

/// What a [`LogBuffer`] holds.
#[verifier::ext_equal]
pub struct LogView {
    pub lines: Seq<Seq<char>>,
    /// How many lines are kept.
    pub capacity: usize,
}

impl View for LogBuffer {
    type V = LogView;

    closed spec fn view(&self) -> LogView {
        LogView { lines: texts(self.lines@), capacity: self.capacity }
    }
}

impl LogBuffer {
    pub fn new(capacity: usize) -> (result: Self)
        ensures
            result@ == (LogView { lines: Seq::empty(), capacity }),
    {
        let result = LogBuffer { lines: VecDeque::new(), capacity };
        assert(result@.lines =~= Seq::<Seq<char>>::empty());
        result
    }

    /// Changes how many lines are kept. The oldest that are too many are dropped.
    pub fn set_capacity(&mut self, capacity: usize)
        ensures
            final(self)@ == (LogView {
                lines: last_of(old(self)@.lines, capacity as nat),
                capacity,
            }),
    {
        let ghost before = self@.lines;
        self.capacity = capacity;
        let ghost mut dropped: int = 0;
        assert(before.skip(0) =~= before);
        while self.lines.len() > capacity
            invariant
                before == old(self)@.lines,
                self.capacity == capacity,
                0 <= dropped <= before.len(),
                dropped > 0 ==> before.len() - dropped >= capacity,
                self@.lines == before.skip(dropped),
            decreases self.lines@.len(),
        {
            let ghost state = self@.lines;
            assert(state.len() == self.lines@.len());
            self.lines.pop_front();
            assert(self@.lines =~= state.skip(1));
            assert(self@.lines =~= before.skip(dropped + 1));
            proof {
                dropped = dropped + 1;
            }
        }
        assert(self@.lines.len() == self.lines@.len());
        assert(self@.lines =~= last_of(before, capacity as nat));
    }

    /// All lines, the oldest first.
    pub fn get_lines(&self) -> (result: Vec<String>)
        ensures
            texts(result@) == self@.lines,
    {
        self.first_lines(self.lines.len())
    }

    /// The first `count` lines, or all.
    fn first_lines(&self, count: usize) -> (result: Vec<String>)
        ensures
            texts(result@) == self@.lines.take(
                if count < self@.lines.len() {
                    count as int
                } else {
                    self@.lines.len() as int
                },
            ),
    {
        let ghost all = self@.lines;
        let mut result: Vec<String> = Vec::new();
        let mut i: usize = 0;
        assert(texts(result@) =~= all.take(0));
        while i < count && i < self.lines.len()
            invariant
                all == self@.lines,
                i <= count,
                i <= self.lines@.len(),
                texts(result@) == all.take(i as int),
            decreases self.lines@.len() - i,
        {
            let ghost earlier = result@;
            assert(all[i as int] == self.lines@[i as int]@);
            result.push(self.lines[i].clone());
            assert(texts(result@) =~= texts(earlier).push(all[i as int]));
            assert(texts(result@) =~= all.take(i + 1));
            i = i + 1;
        }
        assert(all.len() == self.lines@.len());
        result
    }

    /// The oldest `height` lines, as lines of at most `width` columns, of which the last
    /// `height` are shown.
    pub fn get_region(&self, width: usize, height: usize) -> (result: String)
        ensures
            result@ == joined(
                last_of(
                    all_wrapped(
                        self@.lines.take(
                            if height < self@.lines.len() {
                                height as int
                            } else {
                                self@.lines.len() as int
                            },
                        ),
                        width,
                    ),
                    height as nat,
                ),
            ),
    {
        let shown = self.first_lines(height);
        let ghost all = texts(shown@);
        let mut rows: Vec<String> = Vec::new();
        let mut i: usize = 0;
        assert(texts(rows@) =~= all_wrapped(all.take(0), width));
        while i < shown.len()
            invariant
                all == texts(shown@),
                i <= shown@.len(),
                texts(rows@) == all_wrapped(all.take(i as int), width),
            decreases shown@.len() - i,
        {
            let ghost earlier = rows@;
            let mut more = wrap(shown[i].as_str(), width);
            let ghost added = more@;
            rows.append(&mut more);
            assert(all.take(i + 1).drop_last() =~= all.take(i as int));
            assert(all.take(i + 1).last() == shown@[i as int]@);
            assert(texts(rows@) =~= texts(earlier) + texts(added));
            i = i + 1;
        }
        assert(all.take(i as int) =~= all);
        join_last(rows, height)
    }

    /// Logs lines of text. Gives the number of bytes.
    pub fn write(&mut self, bytes: &[u8]) -> (result: usize)
        ensures
            result == bytes@.len(),
            final(self)@ == (LogView {
                lines: with_lines(
                    old(self)@.lines,
                    old(self)@.capacity as nat,
                    lines_of(text_in(bytes@)),
                ),
                ..old(self)@
            }),
    {
        let text = text_from(bytes);
        self.write_text(text.as_str());
        bytes.len()
    }

    /// Logs lines of text.
    pub fn write_text(&mut self, text: &str)
        ensures
            final(self)@ == (LogView {
                lines: with_lines(
                    old(self)@.lines,
                    old(self)@.capacity as nat,
                    lines_of(text@),
                ),
                ..old(self)@
            }),
    {
        let ghost before = self@;
        let rows = lines(text);
        let ghost all = texts(rows@);
        let mut i: usize = 0;
        assert(all.take(0) =~= Seq::<Seq<char>>::empty());
        while i < rows.len()
            invariant
                before == old(self)@,
                all == texts(rows@),
                i <= rows@.len(),
                self@ == (LogView {
                    lines: with_lines(before.lines, before.capacity as nat, all.take(i as int)),
                    ..before
                }),
            decreases rows@.len() - i,
        {
            let ghost state = self@.lines;
            let ghost held = self.lines@;
            assert(state.len() == held.len());
            assert(all.take(i + 1).drop_last() =~= all.take(i as int));
            assert(all.take(i + 1).last() == rows@[i as int]@);
            if self.lines.len() == self.capacity {
                self.lines.pop_front();
            }
            self.lines.push_back(rows[i].clone());
            assert(self@.lines =~= with_line(state, before.capacity as nat, all[i as int]));
            i = i + 1;
        }
        assert(all.take(i as int) =~= all);
    }
}

/// As long as room is left for one line at least, exactly the newest lines are kept.
pub proof fn law_newest_lines_are_kept(
    lines: Seq<Seq<char>>,
    capacity: nat,
    more: Seq<Seq<char>>,
)
    requires
        capacity > 0,
        lines.len() <= capacity,
    ensures
        with_lines(lines, capacity, more) == last_of(lines + more, capacity),
    decreases more.len(),
{
    if more.len() == 0 {
        assert(lines + more =~= lines);
    } else {
        let rest = more.drop_last();
        law_newest_lines_are_kept(lines, capacity, rest);
        assert((lines + more) =~= (lines + rest).push(more.last()));
        assert(with_lines(lines, capacity, more) =~= last_of(lines + more, capacity));
    }
}

/// Where a program keeps its log.
pub struct Recorder {
    directory: String,
    file_name: String,
}

/// What a [`Recorder`] holds.
pub struct RecorderView {
    pub directory: Seq<char>,
    pub file_name: Seq<char>,
}

impl View for Recorder {
    type V = RecorderView;

    closed spec fn view(&self) -> RecorderView {
        RecorderView { directory: self.directory@, file_name: self.file_name@ }
    }
}

impl Recorder {
    /// A log in `directory` that is named after the program, if its name is known.
    pub fn new(directory: String, program: Option<String>) -> (result: Self)
        ensures
            result@.directory == directory@,
            result@.file_name == (match program {
                Some(name) => name@,
                None => "recording"@,
            }),
    {
        let file_name = match program {
            Some(name) => name,
            None => "recording".to_owned(),
        };
        Recorder { directory, file_name }
    }

    /// Names the log.
    pub fn file_name(self, file_name: String) -> (result: Self)
        ensures
            result@ == (RecorderView { file_name: file_name@, ..self@ }),
    {
        Recorder { directory: self.directory, file_name }
    }

    /// Adds to the name of the log.
    pub fn extend_file_name(self, extension: String) -> (result: Self)
        ensures
            result@.directory == self@.directory,
            result@.file_name == self@.file_name + seq!['-'] + extension@,
    {
        let Recorder { directory, file_name } = self;
        let mut name = file_name;
        proof {
            reveal_strlit("-");
            assert("-"@ =~= seq!['-']);
        }
        name.append("-");
        name.append(extension.as_str());
        Recorder { directory, file_name: name }
    }

    /// The directory of the log.
    pub fn directory(&self) -> (result: &String)
        ensures
            result@ == self@.directory,
    {
        &self.directory
    }

    /// The name of the file of a log that starts at `time`.
    pub fn log_file(&self, time: &str) -> (result: String)
        ensures
            result@ == self@.file_name + "."@ + time@ + ".log"@,
    {
        let mut name = self.file_name.clone();
        name.append(".");
        name.append(time);
        name.append(".log");
        name
    }
}

/// Without a capacity all lines are kept.
pub proof fn law_all_lines_are_kept(lines: Seq<Seq<char>>, more: Seq<Seq<char>>)
    ensures
        with_lines(lines, 0, more) == lines + more,
    decreases more.len(),
{
    if more.len() == 0 {
        assert(lines + more =~= lines);
    } else {
        law_all_lines_are_kept(lines, more.drop_last());
        assert(lines + more =~= (lines + more.drop_last()).push(more.last()));
    }
}

/// Wrapping lines wraps each of them by itself and keeps their order.
pub proof fn law_wrapped_line_by_line(
    first: Seq<Seq<char>>,
    second: Seq<Seq<char>>,
    line: Seq<char>,
    width: usize,
)
    ensures
        all_wrapped(Seq::empty(), width) == Seq::<Seq<char>>::empty(),
        all_wrapped(seq![line], width) == wrapped(line, width),
        all_wrapped(first + second, width) == all_wrapped(first, width) + all_wrapped(
            second,
            width,
        ),
    decreases second.len(),
{
    let nothing = Seq::<Seq<char>>::empty();
    assert(seq![line].drop_last() =~= nothing);
    assert(seq![line].last() == line);
    assert(all_wrapped(nothing, width) == Seq::<Seq<char>>::empty());
    assert(Seq::<Seq<char>>::empty() + wrapped(line, width) =~= wrapped(line, width));
    if second.len() == 0 {
        assert(first + second =~= first);
        assert(all_wrapped(first, width) + all_wrapped(second, width) =~= all_wrapped(first, width));
    } else {
        law_wrapped_line_by_line(first, second.drop_last(), line, width);
        assert((first + second).drop_last() =~= first + second.drop_last());
        assert(all_wrapped(first + second, width) =~= all_wrapped(first, width) + all_wrapped(
            second,
            width,
        ));
    }
}

/// Text in bytes is what they encode, where they encode any.
pub proof fn law_text_in_bytes(bytes: Seq<u8>)
    ensures
        valid_utf8(bytes) ==> text_in(bytes) == decode_utf8(bytes),
{
}

} // verus!
